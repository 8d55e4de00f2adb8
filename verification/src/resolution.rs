//! What holds of every resolved event.

use vstd::prelude::*;
use crate::binding::{
    bound_to,
    ids_named,
    in_slot_order,
    keys_of,
    marked,
    slot_numbers,
    BindingView,
};
use crate::event::{distinct, resolved, slot_keys, EventResultView, EventView};
use crate::placeholder::{captures, player_word};
use crate::render::rendered;
use crate::counting::{count_in, lemma_count_in_bounded};
use crate::slots::{lemma_slot_order, lemma_slot_order_bag, picked, slot_order};
use crate::text::upper_text;
use crate::tribute::{ids_distinct, ids_of, Tribute};

verus! {

/// No text stands twice among distinct texts.
pub proof fn lemma_distinct(s: Seq<Seq<char>>)
    ensures
        distinct(s).no_duplicates(),
    decreases s.len(),
{
    if s.len() > 0 {
        lemma_distinct(s.drop_last());
    }
}

/// No role stands twice among the roles of a text.
pub proof fn lemma_roles_distinct(text: Seq<char>)
    ensures
        slot_keys(text).no_duplicates(),
{
    lemma_distinct(captures(text, player_word()).map_values(|c: Seq<char>| upper_text(c)));
}

/// Rendering changes the text of a result and nothing else.
pub proof fn lemma_rendered_keeps(v: EventResultView, bindings: Seq<BindingView>)
    ensures
        rendered(v, bindings) matches Ok(w) ==> w.killed == v.killed && w.killers == v.killers
            && w.tributes == v.tributes,
{
}

/// Bindings in the order of their slots are the same bindings, each once.
pub proof fn lemma_in_slot_order(bindings: Seq<BindingView>)
    ensures
        in_slot_order(bindings).len() == bindings.len(),
        forall|k: int|
            0 <= k < bindings.len() ==> {
                let i = slot_order(slot_numbers(keys_of(bindings)))[k];
                0 <= i < bindings.len() && #[trigger] in_slot_order(bindings)[k] == bindings[i]
            },
        slot_order(slot_numbers(keys_of(bindings))).no_duplicates(),
{
    lemma_slot_order(slot_numbers(keys_of(bindings)));
}

/// As many identities are named as there are bindings whose role is among
/// the names.
proof fn lemma_ids_named_count(ordered: Seq<BindingView>, names: Seq<Seq<char>>, n: int)
    ensures
        ids_named(ordered, names, n).len() == count_in(keys_of(ordered), names, n),
    decreases n,
{
    if n > 0 {
        lemma_ids_named_count(ordered, names, n - 1);
    }
}

/// Of bindings with distinct roles, no more are named than there are names.
pub proof fn lemma_ids_named_bounded(ordered: Seq<BindingView>, names: Seq<Seq<char>>, n: int)
    requires
        keys_of(ordered).no_duplicates(),
    ensures
        ids_named(ordered, names, n).len() <= names.len(),
{
    lemma_ids_named_count(ordered, names, n);
    lemma_count_in_bounded(keys_of(ordered), names, n);
}

/// The roles of a text in the order of their slots are distinct.
pub proof fn lemma_ordered_roles_distinct(keys: Seq<Seq<char>>, bound: Seq<Tribute>)
    requires
        keys.no_duplicates(),
    ensures
        keys_of(in_slot_order(bound_to(keys, bound))).no_duplicates(),
{
    let bindings = bound_to(keys, bound);
    let ordered = in_slot_order(bindings);
    let order = slot_order(slot_numbers(keys_of(bindings)));
    lemma_in_slot_order(bindings);
    assert forall|i: int, j: int|
        0 <= i < ordered.len() && 0 <= j < ordered.len() && i != j implies keys_of(ordered)[i]
        != keys_of(ordered)[j] by {
        assert(ordered[i] == bindings[order[i]]);
        assert(ordered[j] == bindings[order[j]]);
        assert(order[i] != order[j]);
    }
}

/// A resolved event has killed exactly if it has killers: an event that
/// names victims without killers, or killers without victims, fails.
pub proof fn law_kills_symmetric(ev: EventView, bound: Seq<Tribute>)
    ensures
        resolved(ev, bound) matches Ok(v) ==> ((v.killed.len() == 0) == (v.killers.len() == 0)),
{
    let keys = slot_keys(ev.text);
    let bindings = bound_to(keys, bound);
    let ordered = in_slot_order(bindings);
    let v = EventResultView {
        text: ev.text,
        killed: ids_named(ordered, ev.killed, ordered.len() as int),
        killers: ids_named(ordered, ev.killers, ordered.len() as int),
        tributes: marked(ordered, ev.killed),
    };
    lemma_rendered_keeps(v, bindings);
}

/// A resolved event binds as many tributes as its template has roles, and
/// kills no more than the template names as killed.
pub proof fn law_binds_every_role(ev: EventView, bound: Seq<Tribute>)
    ensures
        resolved(ev, bound) matches Ok(v) ==> {
            &&& v.tributes.len() == slot_keys(ev.text).len()
            &&& v.killed.len() <= ev.killed.len()
            &&& v.killers.len() <= ev.killers.len()
        },
{
    let keys = slot_keys(ev.text);
    let bindings = bound_to(keys, bound);
    let ordered = in_slot_order(bindings);
    let v = EventResultView {
        text: ev.text,
        killed: ids_named(ordered, ev.killed, ordered.len() as int),
        killers: ids_named(ordered, ev.killers, ordered.len() as int),
        tributes: marked(ordered, ev.killed),
    };
    lemma_rendered_keeps(v, bindings);
    lemma_in_slot_order(bindings);
    lemma_roles_distinct(ev.text);
    lemma_ordered_roles_distinct(keys, bound);
    lemma_ids_named_bounded(ordered, ev.killed, ordered.len() as int);
    lemma_ids_named_bounded(ordered, ev.killers, ordered.len() as int);
}

/// The tributes of a resolved event are those that were bound to it, each
/// once: where no identity stands twice among the bound, none stands twice
/// in the result.
pub proof fn law_binds_without_repetition(ev: EventView, bound: Seq<Tribute>)
    requires
        bound.len() == slot_keys(ev.text).len(),
        ids_distinct(bound),
    ensures
        resolved(ev, bound) matches Ok(v) ==> ids_distinct(v.tributes),
{
    let keys = slot_keys(ev.text);
    let bindings = bound_to(keys, bound);
    let ordered = in_slot_order(bindings);
    let order = slot_order(slot_numbers(keys_of(bindings)));
    let v = EventResultView {
        text: ev.text,
        killed: ids_named(ordered, ev.killed, ordered.len() as int),
        killers: ids_named(ordered, ev.killers, ordered.len() as int),
        tributes: marked(ordered, ev.killed),
    };
    lemma_rendered_keeps(v, bindings);
    lemma_in_slot_order(bindings);
    let t = marked(ordered, ev.killed);
    assert forall|i: int, j: int| 0 <= i < j < t.len() implies t[i].id != t[j].id by {
        assert(ordered[i] == bindings[order[i]]);
        assert(ordered[j] == bindings[order[j]]);
        assert(order[i] != order[j]);
        assert(t[i].id == bound[order[i]].id);
        assert(t[j].id == bound[order[j]].id);
        if order[i] < order[j] {
            assert(bound[order[i]].id != bound[order[j]].id);
        } else {
            assert(bound[order[j]].id != bound[order[i]].id);
        }
    }
}

/// The tributes of a resolved event are those that were bound to it, and
/// its killed and its killers are among them.
pub proof fn law_binds_the_bound(ev: EventView, bound: Seq<Tribute>)
    requires
        bound.len() == slot_keys(ev.text).len(),
    ensures
        resolved(ev, bound) matches Ok(v) ==> {
            &&& ids_of(v.tributes).to_multiset() == ids_of(bound).to_multiset()
            &&& forall|i: int| 0 <= i < v.killed.len() ==> ids_of(v.tributes).contains(v.killed[i])
            &&& forall|i: int|
                0 <= i < v.killers.len() ==> ids_of(v.tributes).contains(v.killers[i])
        },
{
    let keys = slot_keys(ev.text);
    let bindings = bound_to(keys, bound);
    let ordered = in_slot_order(bindings);
    let numbers = slot_numbers(keys_of(bindings));
    let v = EventResultView {
        text: ev.text,
        killed: ids_named(ordered, ev.killed, ordered.len() as int),
        killers: ids_named(ordered, ev.killers, ordered.len() as int),
        tributes: marked(ordered, ev.killed),
    };
    lemma_rendered_keeps(v, bindings);
    lemma_in_slot_order(bindings);
    lemma_slot_order_bag(ids_of(bound), numbers);
    assert(ids_of(v.tributes) =~= picked(ids_of(bound), slot_order(numbers))) by {
        assert forall|k: int| 0 <= k < ordered.len() implies ids_of(v.tributes)[k] == picked(
            ids_of(bound),
            slot_order(numbers),
        )[k] by {
            assert(ordered[k] == bindings[slot_order(numbers)[k]]);
        }
    }
    lemma_ids_named_among(ordered, ev.killed, ordered.len() as int);
    lemma_ids_named_among(ordered, ev.killers, ordered.len() as int);
    assert forall|i: int| 0 <= i < v.killed.len() implies ids_of(v.tributes).contains(
        v.killed[i],
    ) by {
        let k = choose|k: int| 0 <= k < ordered.len() && ordered[k].tribute.id == v.killed[i];
        assert(ids_of(v.tributes)[k] == v.killed[i]);
    }
    assert forall|i: int| 0 <= i < v.killers.len() implies ids_of(v.tributes).contains(
        v.killers[i],
    ) by {
        let k = choose|k: int| 0 <= k < ordered.len() && ordered[k].tribute.id == v.killers[i];
        assert(ids_of(v.tributes)[k] == v.killers[i]);
    }
}

/// Among bindings of tributes with distinct identities no identity is named
/// twice.
proof fn lemma_ids_named_once(ordered: Seq<BindingView>, names: Seq<Seq<char>>, n: int)
    requires
        forall|i: int, j: int|
            0 <= i < j < ordered.len() ==> ordered[i].tribute.id != ordered[j].tribute.id,
    ensures
        ids_named(ordered, names, n).no_duplicates(),
    decreases n,
{
    if n > 0 {
        lemma_ids_named_once(ordered, names, n - 1);
        lemma_ids_named_among(ordered, names, n - 1);
        let head = ids_named(ordered, names, n - 1);
        let all = ids_named(ordered, names, n);
        if n <= ordered.len() && names.contains(ordered[n - 1].key) {
            assert forall|i: int, j: int| 0 <= i < all.len() && 0 <= j < all.len() && i
                != j implies all[i] != all[j] by {
                let lo = if i < j {
                    i
                } else {
                    j
                };
                let hi = if i < j {
                    j
                } else {
                    i
                };
                assert(all[lo] == head[lo]);
                if hi < head.len() {
                    assert(all[hi] == head[hi]);
                } else {
                    let k = choose|k: int|
                        0 <= k < ordered.len() && k < n - 1 && ordered[k].tribute.id == head[lo];
                    assert(ordered[k].tribute.id != ordered[n - 1].tribute.id);
                }
            }
        }
    }
}

/// No tribute is killed twice in a resolved event, where no identity stands
/// twice among the bound.
pub proof fn law_kills_once(ev: EventView, bound: Seq<Tribute>)
    requires
        bound.len() == slot_keys(ev.text).len(),
        ids_distinct(bound),
    ensures
        resolved(ev, bound) matches Ok(v) ==> v.killed.no_duplicates(),
{
    let keys = slot_keys(ev.text);
    let bindings = bound_to(keys, bound);
    let ordered = in_slot_order(bindings);
    let order = slot_order(slot_numbers(keys_of(bindings)));
    let v = EventResultView {
        text: ev.text,
        killed: ids_named(ordered, ev.killed, ordered.len() as int),
        killers: ids_named(ordered, ev.killers, ordered.len() as int),
        tributes: marked(ordered, ev.killed),
    };
    lemma_rendered_keeps(v, bindings);
    lemma_in_slot_order(bindings);
    assert forall|i: int, j: int| 0 <= i < j < ordered.len() implies ordered[i].tribute.id
        != ordered[j].tribute.id by {
        assert(ordered[i] == bindings[order[i]]);
        assert(ordered[j] == bindings[order[j]]);
        assert(order[i] != order[j]);
        if order[i] < order[j] {
            assert(bound[order[i]].id != bound[order[j]].id);
        } else {
            assert(bound[order[j]].id != bound[order[i]].id);
        }
    }
    lemma_ids_named_once(ordered, ev.killed, ordered.len() as int);
}

/// The identities named among bindings are identities of their tributes.
proof fn lemma_ids_named_among(ordered: Seq<BindingView>, names: Seq<Seq<char>>, n: int)
    ensures
        forall|i: int|
            0 <= i < ids_named(ordered, names, n).len() ==> exists|k: int|
                0 <= k < ordered.len() && k < n && ordered[k].tribute.id == #[trigger] ids_named(
                    ordered,
                    names,
                    n,
                )[i],
    decreases n,
{
    if n > 0 {
        lemma_ids_named_among(ordered, names, n - 1);
        let head = ids_named(ordered, names, n - 1);
        let all = ids_named(ordered, names, n);
        assert forall|i: int| 0 <= i < all.len() implies exists|k: int|
            0 <= k < ordered.len() && k < n && ordered[k].tribute.id == #[trigger] all[i] by {
            if i < head.len() {
                assert(all[i] == head[i]);
                let k = choose|k: int|
                    0 <= k < ordered.len() && k < n - 1 && ordered[k].tribute.id == head[i];
                assert(0 <= k < ordered.len() && k < n && ordered[k].tribute.id == all[i]);
            } else {
                assert(ordered[n - 1].tribute.id == all[i]);
            }
        }
    }
}

} // verus!
