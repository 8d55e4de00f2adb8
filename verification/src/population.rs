//! The effect of an event on the tributes of the game: who dies, who is
//! credited with a kill, and how many stay alive.

use vstd::multiset::Multiset;
use vstd::prelude::*;
use crate::counting::{
    count_in,
    count_of,
    lemma_count_in_bounded,
    lemma_count_of_once,
    lemma_count_of_present,
};
use crate::district::{
    district_views,
    everyone,
    lemma_everyone_step,
    lemma_living_step,
    living,
    District,
    DistrictView,
};
use crate::event::EventResultView;
use crate::tribute::{ids_distinct, ids_of, Tribute};

verus! {

/// A tribute after an event: dead if its identity is among the killed, and
/// with one more kill if it is among the killers.
pub open spec fn struck(t: Tribute, killed: Seq<usize>, killers: Seq<usize>) -> Tribute {
    let t1 = if killed.contains(t.id) {
        t.dead()
    } else {
        t
    };
    if killers.contains(t.id) && t1.kills < u32::MAX {
        t1.credited()
    } else {
        t1
    }
}

/// Some tributes after an event.
pub open spec fn struck_tributes(tributes: Seq<Tribute>, killed: Seq<usize>, killers: Seq<usize>) -> Seq<
    Tribute,
> {
    tributes.map_values(|t: Tribute| struck(t, killed, killers))
}

/// A district after an event.
pub open spec fn struck_district(d: DistrictView, killed: Seq<usize>, killers: Seq<usize>) -> DistrictView {
    DistrictView { tributes: struck_tributes(d.tributes, killed, killers), ..d }
}

/// The districts after an event.
pub open spec fn struck_all(districts: Seq<DistrictView>, killed: Seq<usize>, killers: Seq<usize>) -> Seq<
    DistrictView,
> {
    districts.map_values(|d: DistrictView| struck_district(d, killed, killers))
}

/// The districts after the events of some results, one after the other.
pub open spec fn settled(districts: Seq<DistrictView>, results: Seq<EventResultView>) -> Seq<
    DistrictView,
> {
    results.fold_left(
        districts,
        |d: Seq<DistrictView>, r: EventResultView| struck_all(d, r.killed, r.killers),
    )
}

/// The identities of the tributes that have a part in some results, each as
/// often as it has one.
pub open spec fn participants(results: Seq<EventResultView>) -> Multiset<usize> {
    results.fold_left(
        Multiset::empty(),
        |m: Multiset<usize>, r: EventResultView| m.add(ids_of(r.tributes).to_multiset()),
    )
}

/// Those who die in the events of some results, as they are once dead: of
/// each result, those among the tributes of the districts whose identity is
/// among its killed.
pub open spec fn lamented(districts: Seq<DistrictView>, results: Seq<EventResultView>) -> Multiset<
    Tribute,
> {
    results.fold_left(
        Multiset::empty(),
        |m: Multiset<Tribute>, r: EventResultView|
            m.add(mourned(everyone(districts), r.killed).to_multiset()),
    )
}

/// Those among some tributes whose identity is among the killed, as they
/// are once dead.
pub open spec fn mourned(tributes: Seq<Tribute>, killed: Seq<usize>) -> Seq<Tribute> {
    tributes.filter(|t: Tribute| killed.contains(t.id)).map_values(|t: Tribute| t.dead())
}

/// How many of the first `n` tributes are alive.
pub open spec fn alive_count(tributes: Seq<Tribute>, n: int) -> int
    decreases n,
{
    if n <= 0 {
        0
    } else {
        alive_count(tributes, n - 1) + if n <= tributes.len() && tributes[n - 1].is_alive {
            1int
        } else {
            0int
        }
    }
}

/// The living among the first `n` tributes are as many as are alive.
pub proof fn lemma_alive_count(tributes: Seq<Tribute>, n: int)
    requires
        0 <= n <= tributes.len(),
    ensures
        living(tributes.take(n)).len() == alive_count(tributes, n),
    decreases n,
{
    if n == 0 {
        assert(tributes.take(0) =~= Seq::<Tribute>::empty());
        reveal(Seq::filter);
    } else {
        lemma_alive_count(tributes, n - 1);
        lemma_living_step(tributes, n - 1);
    }
}

/// One more tribute is mourned if its identity is among the killed.
pub proof fn lemma_mourned_step(tributes: Seq<Tribute>, killed: Seq<usize>, i: int)
    requires
        0 <= i < tributes.len(),
    ensures
        mourned(tributes.take(i + 1), killed) == if killed.contains(tributes[i].id) {
            mourned(tributes.take(i), killed).push(tributes[i].dead())
        } else {
            mourned(tributes.take(i), killed)
        },
{
    let pred = |t: Tribute| killed.contains(t.id);
    tributes.take(i).lemma_filter_push(tributes[i], pred);
    assert(tributes.take(i + 1) =~= tributes.take(i).push(tributes[i]));
    if killed.contains(tributes[i].id) {
        assert(mourned(tributes.take(i + 1), killed) =~= mourned(tributes.take(i), killed).push(
            tributes[i].dead(),
        ));
    }
}

/// The mourned of two groups are the mourned of the one and of the other.
pub proof fn lemma_mourned_add(a: Seq<Tribute>, b: Seq<Tribute>, killed: Seq<usize>)
    ensures
        mourned(a + b, killed) == mourned(a, killed) + mourned(b, killed),
{
    let pred = |t: Tribute| killed.contains(t.id);
    Seq::filter_distributes_over_add(a, b, pred);
    assert(mourned(a + b, killed) =~= mourned(a, killed) + mourned(b, killed));
}

/// The tributes of the districts after an event are the tributes of the
/// districts, each after the event.
pub proof fn lemma_struck_everyone(districts: Seq<DistrictView>, killed: Seq<usize>, killers: Seq<usize>)
    ensures
        everyone(struck_all(districts, killed, killers)) == struck_tributes(
            everyone(districts),
            killed,
            killers,
        ),
    decreases districts.len(),
{
    let after = struck_all(districts, killed, killers);
    if districts.len() == 0 {
        assert(everyone(after) =~= struck_tributes(everyone(districts), killed, killers));
    } else {
        lemma_struck_everyone(districts.drop_last(), killed, killers);
        assert(after.drop_last() =~= struck_all(districts.drop_last(), killed, killers));
        assert(everyone(after) =~= struck_tributes(everyone(districts), killed, killers));
    }
}

/// An event changes no identity.
pub proof fn lemma_struck_ids(tributes: Seq<Tribute>, killed: Seq<usize>, killers: Seq<usize>)
    ensures
        ids_of(struck_tributes(tributes, killed, killers)) == ids_of(tributes),
        ids_distinct(tributes) ==> ids_distinct(struck_tributes(tributes, killed, killers)),
{
    assert(ids_of(struck_tributes(tributes, killed, killers)) =~= ids_of(tributes));
}

/// Among the first `n` tributes an event brings nobody back to life, and
/// kills no more than have their identity among its killed.
proof fn lemma_struck_count(tributes: Seq<Tribute>, killed: Seq<usize>, killers: Seq<usize>, n: int)
    requires
        0 <= n <= tributes.len(),
    ensures
        alive_count(struck_tributes(tributes, killed, killers), n) <= alive_count(tributes, n),
        alive_count(tributes, n) <= alive_count(struck_tributes(tributes, killed, killers), n)
            + count_in(ids_of(tributes), killed, n),
    decreases n,
{
    if n > 0 {
        lemma_struck_count(tributes, killed, killers, n - 1);
    }
}

/// Whether a living tribute among some has the identity `id`.
pub open spec fn lives(tributes: Seq<Tribute>, id: usize) -> bool {
    exists|j: int| 0 <= j < tributes.len() && tributes[j].is_alive && tributes[j].id == id
}

/// Whether each of some identities is that of a living tribute.
pub open spec fn all_living(tributes: Seq<Tribute>, ids: Seq<usize>) -> bool {
    forall|i: int| 0 <= i < ids.len() ==> lives(tributes, #[trigger] ids[i])
}

/// How many of the first `n` tributes are alive and have their identity
/// among the killed.
pub open spec fn doomed_count(tributes: Seq<Tribute>, killed: Seq<usize>, n: int) -> int
    decreases n,
{
    if n <= 0 {
        0
    } else {
        doomed_count(tributes, killed, n - 1) + if n <= tributes.len() && tributes[n - 1].is_alive
            && killed.contains(tributes[n - 1].id) {
            1int
        } else {
            0int
        }
    }
}

/// An event kills those of the living whose identity is among its killed.
pub proof fn lemma_struck_exact(
    tributes: Seq<Tribute>,
    killed: Seq<usize>,
    killers: Seq<usize>,
    n: int,
)
    requires
        0 <= n <= tributes.len(),
    ensures
        alive_count(struck_tributes(tributes, killed, killers), n) + doomed_count(
            tributes,
            killed,
            n,
        ) == alive_count(tributes, n),
    decreases n,
{
    if n > 0 {
        lemma_struck_exact(tributes, killed, killers, n - 1);
    }
}

/// Where the tribute of an identity is alive, as many of the living have
/// it as tributes have it.
proof fn lemma_doomed_one(tributes: Seq<Tribute>, x: usize, n: int)
    requires
        0 <= n <= tributes.len(),
        forall|j: int| 0 <= j < tributes.len() && tributes[j].id == x ==> tributes[j].is_alive,
    ensures
        doomed_count(tributes, seq![x], n) == count_of(ids_of(tributes), x, n),
    decreases n,
{
    if n > 0 {
        lemma_doomed_one(tributes, x, n - 1);
        assert(seq![x].contains(tributes[n - 1].id) == (tributes[n - 1].id == x)) by {
            if tributes[n - 1].id == x {
                assert(seq![x][0] == x);
            }
        }
    }
}

/// Those doomed by some identities and one more are those doomed by the
/// identities and those doomed by the one.
proof fn lemma_doomed_split(tributes: Seq<Tribute>, killed: Seq<usize>, n: int)
    requires
        0 <= n <= tributes.len(),
        killed.len() > 0,
        killed.no_duplicates(),
    ensures
        doomed_count(tributes, killed, n) == doomed_count(tributes, killed.drop_last(), n)
            + doomed_count(tributes, seq![killed.last()], n),
    decreases n,
{
    if n > 0 {
        lemma_doomed_split(tributes, killed, n - 1);
        let id = tributes[n - 1].id;
        let head = killed.drop_last();
        let x = killed.last();
        if killed.contains(id) {
            let i = choose|i: int| 0 <= i < killed.len() && killed[i] == id;
            if i < killed.len() - 1 {
                assert(head[i] == id);
                assert(killed[i] != killed[killed.len() - 1]);
                assert(!seq![x].contains(id));
            } else {
                assert(seq![x][0] == id);
                if head.contains(id) {
                    let k = choose|k: int| 0 <= k < head.len() && head[k] == id;
                    assert(killed[k] == killed[killed.len() - 1]);
                }
            }
        } else {
            if head.contains(id) {
                let k = choose|k: int| 0 <= k < head.len() && head[k] == id;
                assert(killed[k] == id);
            }
            if seq![x].contains(id) {
                assert(killed[killed.len() - 1] == id);
            }
        }
    }
}

/// Of tributes with distinct identities, as many are doomed as there are
/// killed, where no identity is killed twice and each is that of a living
/// tribute.
pub proof fn lemma_doomed_all(tributes: Seq<Tribute>, killed: Seq<usize>)
    requires
        ids_distinct(tributes),
        killed.no_duplicates(),
        all_living(tributes, killed),
    ensures
        doomed_count(tributes, killed, tributes.len() as int) == killed.len(),
    decreases killed.len(),
{
    let n = tributes.len() as int;
    if killed.len() == 0 {
        lemma_doomed_none(tributes, killed, n);
    } else {
        let head = killed.drop_last();
        let x = killed.last();
        assert forall|i: int| 0 <= i < head.len() implies lives(tributes, #[trigger] head[i]) by {
            assert(head[i] == killed[i]);
        }
        lemma_doomed_all(tributes, head);
        lemma_doomed_split(tributes, killed, n);
        assert(lives(tributes, killed[killed.len() - 1]));
        let j = choose|j: int| 0 <= j < tributes.len() && tributes[j].is_alive && tributes[j].id == x;
        assert forall|k: int| 0 <= k < tributes.len() && tributes[k].id
            == x implies tributes[k].is_alive by {
            if k < j {
                assert(tributes[k].id != tributes[j].id);
            } else if j < k {
                assert(tributes[j].id != tributes[k].id);
            }
        }
        lemma_doomed_one(tributes, x, n);
        assert forall|a: int, b: int|
            0 <= a < ids_of(tributes).len() && 0 <= b < ids_of(tributes).len() && a
                != b implies ids_of(tributes)[a] != ids_of(tributes)[b] by {
            if a < b {
                assert(tributes[a].id != tributes[b].id);
            } else {
                assert(tributes[b].id != tributes[a].id);
            }
        }
        lemma_count_of_once(ids_of(tributes), x, n);
        assert(ids_of(tributes)[j] == x);
        lemma_count_of_present(ids_of(tributes), x, n, j);
    }
}

/// Nobody is doomed where nobody is killed.
proof fn lemma_doomed_none(tributes: Seq<Tribute>, killed: Seq<usize>, n: int)
    requires
        killed.len() == 0,
    ensures
        doomed_count(tributes, killed, n) == 0,
    decreases n,
{
    if n > 0 {
        lemma_doomed_none(tributes, killed, n - 1);
    }
}

/// An event that kills living tributes, each once, leaves as many fewer
/// alive as it kills.
pub proof fn lemma_struck_kills(tributes: Seq<Tribute>, killed: Seq<usize>, killers: Seq<usize>)
    requires
        ids_distinct(tributes),
        killed.no_duplicates(),
        all_living(tributes, killed),
    ensures
        living(struck_tributes(tributes, killed, killers)).len() + killed.len() == living(
            tributes,
        ).len(),
{
    let after = struck_tributes(tributes, killed, killers);
    let n = tributes.len() as int;
    lemma_alive_count(tributes, n);
    lemma_alive_count(after, n);
    assert(tributes.take(n) =~= tributes);
    assert(after.take(n) =~= after);
    lemma_struck_exact(tributes, killed, killers, n);
    lemma_doomed_all(tributes, killed);
}

/// An event brings nobody back to life, and of tributes with distinct
/// identities it kills no more than it names as killed.
pub proof fn lemma_struck_living(tributes: Seq<Tribute>, killed: Seq<usize>, killers: Seq<usize>)
    requires
        ids_distinct(tributes),
    ensures
        living(struck_tributes(tributes, killed, killers)).len() <= living(tributes).len(),
        living(tributes).len() <= living(struck_tributes(tributes, killed, killers)).len()
            + killed.len(),
{
    let after = struck_tributes(tributes, killed, killers);
    let n = tributes.len() as int;
    lemma_alive_count(tributes, n);
    lemma_alive_count(after, n);
    assert(tributes.take(n) =~= tributes);
    assert(after.take(n) =~= after);
    lemma_struck_count(tributes, killed, killers, n);
    assert forall|i: int, j: int|
        0 <= i < ids_of(tributes).len() && 0 <= j < ids_of(tributes).len() && i
            != j implies ids_of(tributes)[i] != ids_of(tributes)[j] by {
        if i < j {
            assert(tributes[i].id != tributes[j].id);
        } else {
            assert(tributes[j].id != tributes[i].id);
        }
    }
    lemma_count_in_bounded(ids_of(tributes), killed, n);
}

/// Whether the tributes `now` are the tributes `start` later in the game,
/// and as at the start where their identity is among `ids`.
pub open spec fn untouched(ids: Seq<usize>, start: Seq<Tribute>, now: Seq<Tribute>) -> bool {
    &&& now.len() == start.len()
    &&& forall|j: int| 0 <= j < now.len() ==> (#[trigger] now[j]).id == start[j].id
    &&& forall|j: int| 0 <= j < now.len() && ids.contains((#[trigger] now[j]).id) ==> now[j] == start[j]
}

/// Tributes that differ only where nobody is killed are mourned alike.
pub proof fn lemma_mourned_same(a: Seq<Tribute>, b: Seq<Tribute>, killed: Seq<usize>)
    requires
        a.len() == b.len(),
        forall|j: int| 0 <= j < a.len() ==> (#[trigger] a[j]).id == b[j].id,
        forall|j: int| 0 <= j < a.len() && killed.contains((#[trigger] a[j]).id) ==> a[j] == b[j],
    ensures
        mourned(a, killed) == mourned(b, killed),
    decreases a.len(),
{
    reveal(Seq::filter);
    if a.len() > 0 {
        let a0 = a.drop_last();
        let b0 = b.drop_last();
        assert forall|j: int| 0 <= j < a0.len() implies (#[trigger] a0[j]).id == b0[j].id by {
            assert(a0[j] == a[j]);
        }
        assert forall|j: int| 0 <= j < a0.len() && killed.contains(
            (#[trigger] a0[j]).id,
        ) implies a0[j] == b0[j] by {
            assert(a0[j] == a[j]);
        }
        lemma_mourned_same(a0, b0, killed);
        assert(a.last() == a[a.len() - 1]);
        assert(b.last() == b[b.len() - 1]);
        assert(a[a.len() - 1].id == b[a.len() - 1].id);
        let pred = |t: Tribute| killed.contains(t.id);
        a0.lemma_filter_push(a.last(), pred);
        b0.lemma_filter_push(b.last(), pred);
        assert(a0.push(a.last()) =~= a);
        assert(b0.push(b.last()) =~= b);
        if killed.contains(a.last().id) {
            assert(mourned(a, killed) =~= mourned(a0, killed).push(a.last().dead()));
            assert(mourned(b, killed) =~= mourned(b0, killed).push(b.last().dead()));
        }
    }
}

/// An event leaves untouched whoever has no part in it.
pub proof fn lemma_struck_untouched(
    ids: Seq<usize>,
    start: Seq<Tribute>,
    now: Seq<Tribute>,
    rest: Seq<usize>,
    killed: Seq<usize>,
    killers: Seq<usize>,
)
    requires
        untouched(ids, start, now),
        forall|x: usize| rest.contains(x) ==> ids.contains(x) && !killed.contains(x)
            && !killers.contains(x),
    ensures
        untouched(rest, start, struck_tributes(now, killed, killers)),
{
    let after = struck_tributes(now, killed, killers);
    assert forall|j: int| 0 <= j < after.len() implies (#[trigger] after[j]).id == start[j].id by {
        assert(now[j].id == start[j].id);
    }
    assert forall|j: int| 0 <= j < after.len() && rest.contains(
        (#[trigger] after[j]).id,
    ) implies after[j] == start[j] by {
        assert(now[j].id == start[j].id);
        assert(after[j].id == now[j].id);
        assert(ids.contains(now[j].id));
    }
}

/// One more result settles the districts once more.
pub proof fn lemma_settled_push(
    districts: Seq<DistrictView>,
    results: Seq<EventResultView>,
    r: EventResultView,
)
    ensures
        settled(districts, results.push(r)) == struck_all(
            settled(districts, results),
            r.killed,
            r.killers,
        ),
        participants(results.push(r)) == participants(results).add(
            ids_of(r.tributes).to_multiset(),
        ),
        lamented(districts, results.push(r)) == lamented(districts, results).add(
            mourned(everyone(districts), r.killed).to_multiset(),
        ),
{
    assert(results.push(r).drop_last() =~= results);
}

/// Results in another order settle the districts alike, and the same
/// tributes have a part in them.
pub proof fn lemma_settled_in_any_order(
    districts: Seq<DistrictView>,
    a: Seq<EventResultView>,
    b: Seq<EventResultView>,
)
    requires
        a.to_multiset() == b.to_multiset(),
    ensures
        settled(districts, a) == settled(districts, b),
        participants(a) == participants(b),
        lamented(districts, a) == lamented(districts, b),
{
    let h = |m: Multiset<Tribute>, r: EventResultView|
        m.add(mourned(everyone(districts), r.killed).to_multiset());
    assert forall|x: EventResultView, y: EventResultView, v: Multiset<Tribute>| #[trigger]
        h(h(v, x), y) == h(h(v, y), x) by {
        assert(h(h(v, x), y) =~= h(h(v, y), x));
    }
    vstd::seq_lib::lemma_fold_left_permutation(a, b, h, Multiset::<Tribute>::empty());
    let f = |d: Seq<DistrictView>, r: EventResultView| struck_all(d, r.killed, r.killers);
    assert forall|x: EventResultView, y: EventResultView, v: Seq<DistrictView>| #[trigger]
        f(f(v, x), y) == f(f(v, y), x) by {
        let one = f(f(v, x), y);
        let other = f(f(v, y), x);
        assert(one.len() == other.len());
        assert forall|i: int| 0 <= i < one.len() implies one[i] == other[i] by {
            assert(one[i].tributes =~= other[i].tributes);
        }
        assert(one =~= other);
    }
    vstd::seq_lib::lemma_fold_left_permutation(a, b, f, districts);
    let g = |m: Multiset<usize>, r: EventResultView| m.add(ids_of(r.tributes).to_multiset());
    assert forall|x: EventResultView, y: EventResultView, v: Multiset<usize>| #[trigger]
        g(g(v, x), y) == g(g(v, y), x) by {
        assert(g(g(v, x), y) =~= g(g(v, y), x));
    }
    vstd::seq_lib::lemma_fold_left_permutation(a, b, g, Multiset::<usize>::empty());
}

/// Whether `id` is among the identities `ids`.
pub fn contains_id(ids: &Vec<usize>, id: usize) -> (r: bool)
    ensures
        r == ids@.contains(id),
{
    let mut i: usize = 0;
    while i < ids.len()
        invariant
            i <= ids.len(),
            forall|k: int| 0 <= k < i ==> ids[k] != id,
        decreases ids.len() - i,
    {
        if ids[i] == id {
            return true;
        }
        i += 1;
    }
    false
}

/// Applies an event to the tributes of a district: marks the killed dead
/// and adds them to the fallen, and credits the killers.
pub fn strike_district(
    district: &mut District,
    fallen: &mut Vec<Tribute>,
    killed: &Vec<usize>,
    killers: &Vec<usize>,
)
    ensures
        final(district)@ == struck_district(old(district)@, killed@, killers@),
        final(fallen)@ == old(fallen)@ + mourned(old(district).tributes@, killed@),
{
    let ghost before = district.tributes@;
    let ghost fallen_before = fallen@;
    let mut j: usize = 0;
    assert(before.take(0) =~= Seq::<Tribute>::empty());
    proof {
        reveal(Seq::filter);
    }
    assert(fallen@ =~= fallen_before + mourned(before.take(0), killed@));
    while j < district.tributes.len()
        invariant
            j <= district.tributes.len(),
            before == old(district).tributes@,
            fallen_before == old(fallen)@,
            district.tributes.len() == before.len(),
            district.name == old(district).name,
            district.file_name == old(district).file_name,
            forall|k: int| 0 <= k < j ==> #[trigger] district.tributes[k] == struck(
                before[k],
                killed@,
                killers@,
            ),
            forall|k: int| j <= k < before.len() ==> #[trigger] district.tributes[k] == before[k],
            fallen@ == fallen_before + mourned(before.take(j as int), killed@),
        decreases district.tributes.len() - j,
    {
        let id = district.tributes[j].get_id();
        proof {
            lemma_mourned_step(before, killed@, j as int);
        }
        if contains_id(killed, id) {
            district.tributes[j].kill();
            fallen.push(district.tributes[j].clone());
            assert(fallen@ =~= fallen_before + mourned(before.take(j + 1), killed@));
        }
        if contains_id(killers, id) && district.tributes[j].kills < u32::MAX {
            district.tributes[j].add_kill();
        }
        j += 1;
    }
    assert(before.take(before.len() as int) =~= before);
    assert(district.tributes@ =~= struck_tributes(before, killed@, killers@));
}

/// Applies an event to the tributes of the game: marks the killed dead and
/// adds them to the fallen, and credits the killers.
pub fn strike(
    districts: &mut Vec<District>,
    fallen: &mut Vec<Tribute>,
    killed: &Vec<usize>,
    killers: &Vec<usize>,
)
    ensures
        district_views(final(districts)@) == struck_all(
            district_views(old(districts)@),
            killed@,
            killers@,
        ),
        final(fallen)@ == old(fallen)@ + mourned(
            everyone(district_views(old(districts)@)),
            killed@,
        ),
        ids_distinct(everyone(district_views(old(districts)@))) ==> {
            &&& ids_distinct(everyone(district_views(final(districts)@)))
            &&& living(everyone(district_views(old(districts)@))).len() <= living(
                everyone(district_views(final(districts)@)),
            ).len() + killed.len()
            &&& living(everyone(district_views(final(districts)@))).len() <= living(
                everyone(district_views(old(districts)@)),
            ).len()
        },
{
    let ghost before = district_views(districts@);
    let ghost fallen_before = fallen@;
    let mut i: usize = 0;
    assert(before.take(0) =~= Seq::<DistrictView>::empty());
    proof {
        reveal(Seq::filter);
    }
    assert(fallen@ =~= fallen_before + mourned(everyone(before.take(0)), killed@));
    while i < districts.len()
        invariant
            i <= districts.len(),
            before == district_views(old(districts)@),
            fallen_before == old(fallen)@,
            districts.len() == before.len(),
            forall|k: int| 0 <= k < i ==> (#[trigger] districts[k])@ == struck_district(
                before[k],
                killed@,
                killers@,
            ),
            forall|k: int| i <= k < before.len() ==> (#[trigger] districts[k])@ == before[k],
            fallen@ == fallen_before + mourned(everyone(before.take(i as int)), killed@),
        decreases districts.len() - i,
    {
        let ghost fallen_here = fallen@;
        assert(districts[i as int]@ == before[i as int]);
        strike_district(&mut districts[i], fallen, killed, killers);
        proof {
            lemma_everyone_step(before, i as int);
            lemma_mourned_add(everyone(before.take(i as int)), before[i as int].tributes, killed@);
            assert(fallen@ =~= fallen_before + mourned(everyone(before.take(i + 1)), killed@));
        }
        i += 1;
    }
    assert(before.take(before.len() as int) =~= before);
    assert(district_views(districts@) =~= struck_all(before, killed@, killers@));
    proof {
        lemma_struck_everyone(before, killed@, killers@);
        lemma_struck_ids(everyone(before), killed@, killers@);
        if ids_distinct(everyone(before)) {
            lemma_struck_living(everyone(before), killed@, killers@);
        }
    }
}

/// Whether a tribute is the same tribute later in the game: with its
/// identity, name and pronouns, not back to life, and with no fewer kills.
pub open spec fn grown(before: Tribute, after: Tribute) -> bool {
    &&& after.id == before.id
    &&& after.name == before.name
    &&& after.avatar_url == before.avatar_url
    &&& after.pronouns == before.pronouns
    &&& after.is_alive ==> before.is_alive
    &&& after.kills >= before.kills
}

/// Whether districts are the same districts later in the game.
pub open spec fn aged(before: Seq<DistrictView>, after: Seq<DistrictView>) -> bool {
    &&& after.len() == before.len()
    &&& forall|d: int|
        0 <= d < before.len() ==> {
            &&& (#[trigger] after[d]).name == before[d].name
            &&& after[d].file_name == before[d].file_name
            &&& after[d].tributes.len() == before[d].tributes.len()
            &&& forall|t: int|
                0 <= t < before[d].tributes.len() ==> grown(
                    before[d].tributes[t],
                    #[trigger] after[d].tributes[t],
                )
        }
}

/// Districts are the same districts at the same time.
pub proof fn lemma_aged_same(districts: Seq<DistrictView>)
    ensures
        aged(districts, districts),
{
}

/// Districts that are the same districts later, and those later again, are
/// the same districts later.
pub proof fn lemma_aged_chain(a: Seq<DistrictView>, b: Seq<DistrictView>, c: Seq<DistrictView>)
    requires
        aged(a, b),
        aged(b, c),
    ensures
        aged(a, c),
{
    assert forall|d: int| 0 <= d < a.len() implies {
        &&& (#[trigger] c[d]).name == a[d].name
        &&& c[d].file_name == a[d].file_name
        &&& c[d].tributes.len() == a[d].tributes.len()
        &&& forall|t: int|
            0 <= t < a[d].tributes.len() ==> grown(a[d].tributes[t], #[trigger] c[d].tributes[t])
    } by {
        assert(b[d].name == a[d].name);
        assert forall|t: int| 0 <= t < a[d].tributes.len() implies grown(
            a[d].tributes[t],
            #[trigger] c[d].tributes[t],
        ) by {
            assert(grown(a[d].tributes[t], b[d].tributes[t]));
            assert(grown(b[d].tributes[t], c[d].tributes[t]));
        }
    }
}

/// The districts after an event are the same districts later in the game.
pub proof fn lemma_struck_aged(districts: Seq<DistrictView>, killed: Seq<usize>, killers: Seq<usize>)
    ensures
        aged(districts, struck_all(districts, killed, killers)),
{
}

} // verus!
