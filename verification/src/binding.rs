//! The bindings of an event: its roles, each with the tribute bound to it,
//! and their order by slot.

use vstd::prelude::*;
use crate::event::{EventError, EventErrorView};
use crate::placeholder::{get_tribute_num, slot_number};
use crate::slots::{as_ints, lemma_slot_order, order_by_number, slot_order};
use crate::text::chars_of;
use crate::tribute::Tribute;

verus! {

/// A role of an event with the tribute bound to it.
#[derive(Debug)]
pub struct Binding {
    /// The role placeholder in upper case, such as `(P1)`.
    pub key: String,
    pub tribute: Tribute,
}

/// What a binding is.
pub struct BindingView {
    pub key: Seq<char>,
    pub tribute: Tribute,
}

impl View for Binding {
    type V = BindingView;

    open spec fn view(&self) -> BindingView {
        BindingView { key: self.key@, tribute: self.tribute }
    }
}

impl Clone for Binding {
    fn clone(&self) -> (r: Self)
        ensures
            r@ == self@,
    {
        Binding { key: self.key.clone(), tribute: self.tribute.clone() }
    }
}

/// The bindings of a sequence as what they are.
pub open spec fn binding_views(v: Seq<Binding>) -> Seq<BindingView> {
    v.map_values(|b: Binding| b@)
}

/// The roles of some bindings.
pub open spec fn keys_of(bindings: Seq<BindingView>) -> Seq<Seq<char>> {
    bindings.map_values(|b: BindingView| b.key)
}

/// The roles `keys`, each bound to the tribute at its place in `bound`.
pub open spec fn bound_to(keys: Seq<Seq<char>>, bound: Seq<Tribute>) -> Seq<BindingView> {
    Seq::new(keys.len(), |i: int| BindingView { key: keys[i], tribute: bound[i] })
}

/// The first of the placeholders `keys[from..]` that names no slot.
pub open spec fn first_unnumbered(keys: Seq<Seq<char>>, from: int) -> Option<Seq<char>>
    decreases keys.len() - from,
{
    if from < 0 || from >= keys.len() {
        None
    } else if slot_number(keys[from]).is_none() {
        Some(keys[from])
    } else {
        first_unnumbered(keys, from + 1)
    }
}

/// The slots that placeholders name, 0 for one that names none.
pub open spec fn slot_numbers(keys: Seq<Seq<char>>) -> Seq<u32> {
    keys.map_values(
        |k: Seq<char>|
            match slot_number(k) {
                Some(n) => n,
                None => 0,
            },
    )
}

/// Bindings in the order of their slots, and of their places among those of
/// one slot.
pub open spec fn in_slot_order(bindings: Seq<BindingView>) -> Seq<BindingView> {
    slot_order(slot_numbers(keys_of(bindings))).map_values(|i: int| bindings[i])
}

/// Among the first `n` bindings, the identities of the tributes whose role
/// is one of `names`.
pub open spec fn ids_named(ordered: Seq<BindingView>, names: Seq<Seq<char>>, n: int) -> Seq<usize>
    decreases n,
{
    if n <= 0 {
        Seq::empty()
    } else {
        let head = ids_named(ordered, names, n - 1);
        if n <= ordered.len() && names.contains(ordered[n - 1].key) {
            head.push(ordered[n - 1].tribute.id)
        } else {
            head
        }
    }
}

/// The tributes of some bindings, those dead whose role is one of `killed`.
pub open spec fn marked(ordered: Seq<BindingView>, killed: Seq<Seq<char>>) -> Seq<Tribute> {
    ordered.map_values(
        |b: BindingView|
            if killed.contains(b.key) {
                b.tribute.dead()
            } else {
                b.tribute
            },
    )
}

/// The bindings in the order of their slots, or the error of the first role
/// that names no slot.
pub fn sort_bindings(bindings: &Vec<Binding>) -> (r: Result<Vec<Binding>, EventError>)
    ensures
        match first_unnumbered(keys_of(binding_views(bindings@)), 0) {
            Some(token) => r.is_err() && r.unwrap_err()@ == (EventErrorView::MalformedPlaceholder {
                token,
            }),
            None => r.is_ok() && binding_views(r.unwrap()@) == in_slot_order(
                binding_views(bindings@),
            ),
        },
{
    let ghost views = binding_views(bindings@);
    let ghost keys = keys_of(views);
    let mut numbers: Vec<u32> = Vec::new();
    let mut i: usize = 0;
    while i < bindings.len()
        invariant
            i <= bindings.len(),
            views == binding_views(bindings@),
            keys == keys_of(views),
            first_unnumbered(keys, 0) == first_unnumbered(keys, i as int),
            numbers@ == slot_numbers(keys).take(i as int),
            forall|k: int| 0 <= k < i ==> #[trigger] numbers[k] < 10,
        decreases bindings.len() - i,
    {
        let key = chars_of(bindings[i].key.as_str());
        assert(keys[i as int] == key@);
        match get_tribute_num(&key) {
            None => {
                return Err(EventError::MalformedPlaceholder { token: bindings[i].key.clone() });
            },
            Some(n) => {
                numbers.push(n);
                assert(numbers@ =~= slot_numbers(keys).take(i + 1));
            },
        }
        i += 1;
    }
    assert(numbers@ =~= slot_numbers(keys));
    let order = order_by_number(&numbers);
    let ghost target = in_slot_order(views);
    proof {
        lemma_slot_order(numbers@);
    }
    let mut out: Vec<Binding> = Vec::new();
    let mut k: usize = 0;
    while k < order.len()
        invariant
            k <= order.len(),
            order.len() == bindings.len(),
            views == binding_views(bindings@),
            as_ints(order@) == slot_order(slot_numbers(keys_of(views))),
            target == in_slot_order(views),
            forall|j: int| 0 <= j < order.len() ==> #[trigger] order[j] < bindings.len(),
            binding_views(out@) == target.take(k as int),
        decreases order.len() - k,
    {
        let ghost before = binding_views(out@);
        assert(as_ints(order@)[k as int] == order[k as int]);
        out.push(bindings[order[k]].clone());
        assert(binding_views(out@) =~= before.push(target[k as int]));
        assert(target.take(k + 1) =~= target.take(k as int).push(target[k as int]));
        k += 1;
    }
    assert(target.take(order.len() as int) =~= target);
    Ok(out)
}

} // verus!
