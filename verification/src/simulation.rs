//! The game: its districts, its catalogs of templates, and the machine of
//! phases that runs it to its end.

use vstd::multiset::Multiset;
use vstd::prelude::*;
use crate::catalog::{eligible, event_views, is_draw, weight_fault, weights_of, EventData};
use crate::chance::{shuffle_results, WeightError};
use crate::counting::lemma_parts;
use crate::district::{
    clone_districts,
    distinct_ids,
    district_name_of,
    district_views,
    everyone,
    lemma_alive_prefix,
    lemma_everyone_step,
    lemma_living_distinct,
    lemma_living_grows,
    lemma_living_prefix,
    lemma_living_step,
    living,
    living_of,
    name_of_district,
    District,
    DistrictView,
};
use crate::draw::{drawn, left, lemma_draw_len, lemma_draw_within, valid_picks};
use crate::event::{
    resolved,
    result_views,
    slot_keys,
    Event,
    EventCategory,
    EventError,
    EventErrorView,
    EventResult,
    EventResultView,
    EventView,
};
use crate::population::{
    aged,
    all_living,
    lamented,
    lemma_aged_chain,
    lemma_aged_same,
    lemma_mourned_same,
    lemma_settled_in_any_order,
    lemma_settled_push,
    lemma_struck_aged,
    lemma_struck_everyone,
    lemma_struck_kills,
    lemma_struck_untouched,
    lives,
    mourned,
    participants,
    settled,
    strike,
    struck_tributes,
    untouched,
};
use crate::rate::DeathRate;
use crate::render::agrees;
use crate::report::{
    display_living,
    display_upto,
    fallen_entry,
    fallen_report,
    report_fallen,
};
use crate::text::{decimal, push_decimal, push_str, string_of};
use crate::tribute::{ids_distinct, ids_of, lemma_ids_no_duplicates, Tribute};

verus! {

/// Why a game could not be built or a step not be made.
#[derive(Debug)]
pub enum SimulationError {
    /// There are no districts.
    NoDistricts,
    /// There are no event templates.
    NoEvents,
    /// An event could not be resolved.
    EventError { event_error: EventError },
    /// The weights of a catalog allow no draw.
    WeightedRandomError { source: WeightError },
    /// No template of the catalog can be accepted.
    NoEligibleEvent,
}

/// What a simulation error is.
pub enum SimulationErrorView {
    NoDistricts,
    NoEvents,
    EventError { event_error: EventErrorView },
    WeightedRandomError { source: WeightError },
    NoEligibleEvent,
}

impl View for SimulationError {
    type V = SimulationErrorView;

    open spec fn view(&self) -> SimulationErrorView {
        match *self {
            SimulationError::NoDistricts => SimulationErrorView::NoDistricts,
            SimulationError::NoEvents => SimulationErrorView::NoEvents,
            SimulationError::EventError { event_error } => SimulationErrorView::EventError {
                event_error: event_error@,
            },
            SimulationError::WeightedRandomError {
                source,
            } => SimulationErrorView::WeightedRandomError { source },
            SimulationError::NoEligibleEvent => SimulationErrorView::NoEligibleEvent,
        }
    }
}

/// The three catalogs of a game.
#[derive(Debug)]
pub struct SimEvents {
    bloodbath: EventData,
    day: EventData,
    night: EventData,
}

impl SimEvents {
    /// The templates of a phase; none for a phase without a catalog.
    pub closed spec fn of(&self, category: EventCategory) -> Seq<EventView> {
        match category {
            EventCategory::Bloodbath => self.bloodbath.templates(),
            EventCategory::Day => self.day.templates(),
            EventCategory::Night => self.night.templates(),
            _ => Seq::empty(),
        }
    }
}

/// The templates of a category among some, in their order.
pub open spec fn of_category(events: Seq<EventView>, category: EventCategory) -> Seq<EventView> {
    events.filter(|e: EventView| e.category == category)
}

/// The templates of a category among some, in their order.
pub fn select_category(events: &Vec<Event>, category: EventCategory) -> (r: Vec<Event>)
    ensures
        event_views(r@) == of_category(event_views(events@), category),
{
    let ghost all = event_views(events@);
    let ghost pred = |e: EventView| e.category == category;
    let mut r: Vec<Event> = Vec::new();
    let mut i: usize = 0;
    assert(all.take(0) =~= Seq::<EventView>::empty());
    proof {
        reveal(Seq::filter);
    }
    while i < events.len()
        invariant
            i <= events.len(),
            all == event_views(events@),
            pred == |e: EventView| e.category == category,
            event_views(r@) == all.take(i as int).filter(pred),
        decreases events.len() - i,
    {
        proof {
            all.take(i as int).lemma_filter_push(all[i as int], pred);
            assert(all.take(i + 1) =~= all.take(i as int).push(all[i as int]));
        }
        if events[i].category == category {
            let ghost before = event_views(r@);
            r.push(events[i].clone());
            assert(event_views(r@) =~= before.push(all[i as int]));
        }
        i += 1;
    }
    assert(all.take(events.len() as int) =~= all);
    r
}

/// The title of a phase on a day.
pub open spec fn category_title(state: EventCategory, day: u32) -> Seq<char> {
    match state {
        EventCategory::Bloodbath => "The Bloodbath"@,
        EventCategory::Day => "Day "@ + decimal(day as nat),
        EventCategory::FallenTributes => "Fallen Tributes - Day "@ + decimal(day as nat),
        EventCategory::Night => "Night "@ + decimal(day as nat),
        EventCategory::End => "The Winner"@,
    }
}

/// The phase that follows a phase while the game goes on.
pub open spec fn next_category(state: EventCategory) -> EventCategory {
    match state {
        EventCategory::Bloodbath => EventCategory::Day,
        EventCategory::Day => EventCategory::FallenTributes,
        EventCategory::FallenTributes => EventCategory::Night,
        EventCategory::Night => EventCategory::Day,
        EventCategory::End => EventCategory::End,
    }
}

/// The day of the phase that follows a phase on a day: the next day after
/// a night, the same day else.
pub open spec fn next_day(state: EventCategory, day: u32) -> u32 {
    if state == EventCategory::Night && day < u32::MAX {
        (day + 1) as u32
    } else {
        day
    }
}

/// What holds of every result of a phase with a catalog, played on the
/// tributes `cast`: it is what some template of the catalog resolves to
/// with as many of the cast bound to its roles; it has killed exactly if it
/// has killers; no identity stands twice among its tributes; and its killed
/// and its killers are among them.
pub open spec fn sound(r: EventResultView, catalog: Seq<EventView>, cast: Seq<Tribute>) -> bool {
    &&& exists|i: int, bound: Seq<Tribute>|
        {
            &&& 0 <= i < catalog.len()
            &&& bound.len() == slot_keys(catalog[i].text).len()
            &&& forall|k: int| 0 <= k < bound.len() ==> cast.contains(#[trigger] bound[k])
            &&& #[trigger] resolved(catalog[i], bound) == Ok::<EventResultView, EventErrorView>(r)
        }
    &&& (r.killed.len() == 0) == (r.killers.len() == 0)
    &&& ids_distinct(r.tributes)
    &&& forall|i: int| 0 <= i < r.killed.len() ==> ids_of(r.tributes).contains(r.killed[i])
    &&& forall|i: int| 0 <= i < r.killers.len() ==> ids_of(r.tributes).contains(r.killers[i])
}

/// Whether every template of a catalog has a role.
pub open spec fn every_role_bound(catalog: Seq<EventView>) -> bool {
    forall|i: int| 0 <= i < catalog.len() ==> slot_keys((#[trigger] catalog[i]).text).len() >= 1
}

/// Whether a result has killed exactly if it has killers.
pub open spec fn even_handed(r: EventResultView) -> bool {
    (r.killed.len() == 0) == (r.killers.len() == 0)
}

/// The phase that follows a phase while the game goes on, and its day.
pub fn following(state: EventCategory, day: u32) -> (r: (EventCategory, u32))
    ensures
        r.0 == next_category(state),
        r.1 == next_day(state, day),
{
    match state {
        EventCategory::Bloodbath => (EventCategory::Day, day),
        EventCategory::Day => (EventCategory::FallenTributes, day),
        EventCategory::FallenTributes => (EventCategory::Night, day),
        EventCategory::Night => if day < u32::MAX {
            (EventCategory::Day, day + 1)
        } else {
            (EventCategory::Day, day)
        },
        EventCategory::End => (EventCategory::End, day),
    }
}

/// Whether each of some results has killed exactly if it has killers.
pub open spec fn all_even_handed(results: Seq<EventResultView>) -> bool {
    forall|k: int| 0 <= k < results.len() ==> even_handed(#[trigger] results[k])
}

/// Every entry of a report of the fallen has neither killed nor killers.
pub proof fn lemma_report_even_handed(fallen: Seq<Tribute>, districts: Seq<DistrictView>)
    ensures
        all_even_handed(fallen_report(fallen, districts)),
{
    let report = fallen_report(fallen, districts);
    assert forall|k: int| 0 <= k < report.len() implies even_handed(#[trigger] report[k]) by {
        if k > 0 {
            assert(report[k] == fallen_entry(fallen[k - 1], districts));
        }
    }
}

/// How many tributes are bound in some results, counted result by result.
pub open spec fn bound_count(done: Seq<EventResultView>) -> nat
    decreases done.len(),
{
    if done.len() == 0 {
        0
    } else {
        bound_count(done.drop_last()) + done.last().tributes.len()
    }
}

/// How many are killed in some results, counted result by result.
pub open spec fn kill_count(done: Seq<EventResultView>) -> nat
    decreases done.len(),
{
    if done.len() == 0 {
        0
    } else {
        kill_count(done.drop_last()) + done.last().killed.len()
    }
}

/// Whether some template of a catalog kills.
pub open spec fn lethal(catalog: Seq<EventView>) -> bool {
    exists|i: int| 0 <= i < catalog.len() && (#[trigger] catalog[i]).killed.len() > 0
}

/// What is left of a number once some of it are taken.
pub open spec fn left_of(all: nat, taken: nat) -> nat {
    if taken <= all {
        (all - taken) as nat
    } else {
        0
    }
}

/// Whether a kill is to be forced at a draw: some template of the phase
/// kills, and the quota of the step is not used up.
pub open spec fn forced(lethal: bool, quota_left: nat) -> bool {
    lethal && quota_left > 0
}

/// Whether a template is eligible at the draw that follows the results
/// `done` in a phase played on `cast` tributes with the kill quota `quota`:
/// the pool is the cast less the tributes bound in `done`, the living are
/// the cast less those killed in `done`, and a kill is forced while the
/// catalog has a template that kills and `done` kills fewer than the quota.
pub open spec fn eligible_after(
    ev: EventView,
    cast: nat,
    catalog: Seq<EventView>,
    quota: nat,
    done: Seq<EventResultView>,
) -> bool {
    eligible(
        ev,
        left_of(cast, bound_count(done)),
        left_of(cast, kill_count(done)),
        forced(lethal(catalog), left_of(quota, kill_count(done))),
    )
}

/// Whether `r` can be the result that follows the results `done`: the
/// resolution of a template that is eligible at that draw, on tributes of
/// the cast.
pub open spec fn in_turn(
    cast: Seq<Tribute>,
    catalog: Seq<EventView>,
    quota: nat,
    done: Seq<EventResultView>,
    r: EventResultView,
) -> bool {
    exists|i: int, bound: Seq<Tribute>|
        {
            &&& 0 <= i < catalog.len()
            &&& eligible_after(catalog[i], cast.len(), catalog, quota, done)
            &&& bound.len() == slot_keys(catalog[i].text).len()
            &&& forall|k: int| 0 <= k < bound.len() ==> cast.contains(#[trigger] bound[k])
            &&& #[trigger] resolved(catalog[i], bound) == Ok::<EventResultView, EventErrorView>(r)
        }
}

/// Whether the results `done` can come one after the other in a phase: each
/// of them in its turn after those before it.
pub open spec fn well_played(
    cast: Seq<Tribute>,
    catalog: Seq<EventView>,
    quota: nat,
    done: Seq<EventResultView>,
) -> bool {
    forall|k: int|
        0 <= k < done.len() ==> in_turn(cast, catalog, quota, done.take(k), #[trigger] done[k])
}

/// Whether `results` and `after` are an outcome of playing a phase with the
/// given catalog and kill quota on the districts `before`.
///
/// The results are, in some order, results that came one after the other,
/// each the resolution of a template eligible at its draw; they went on
/// until the pool was used up or there were as many as there had been
/// living, and an empty catalog gives none. Every result is sound. Each of
/// the living has a part in at most one of the results, and where every
/// template has a role, in exactly one. The districts are what the events
/// of the results make of them: their killed dead, their killers credited;
/// as many fewer are alive as the results kill.
pub open spec fn played(
    before: Seq<DistrictView>,
    catalog: Seq<EventView>,
    quota: nat,
    results: Seq<EventResultView>,
    after: Seq<DistrictView>,
) -> bool {
    let cast = living(everyone(before));
    &&& exists|done: Seq<EventResultView>|
        {
            &&& #[trigger] done.to_multiset() == results.to_multiset()
            &&& well_played(cast, catalog, quota, done)
            &&& catalog.len() == 0 ==> done.len() == 0
            &&& catalog.len() > 0 ==> left_of(cast.len(), bound_count(done)) == 0 || done.len()
                == cast.len()
        }
    &&& results.len() <= cast.len()
    &&& forall|k: int| 0 <= k < results.len() ==> sound(#[trigger] results[k], catalog, cast)
    &&& participants(results).subset_of(ids_of(cast).to_multiset())
    &&& catalog.len() > 0 && every_role_bound(catalog) ==> participants(results) == ids_of(
        cast,
    ).to_multiset()
    &&& after == settled(before, results)
    &&& living(everyone(after)).len() + kill_count(results) == cast.len()
}

/// Whether `e` is the error with which the draw that follows the results
/// `done` fails, or the resolution of the template it gives: the fault of
/// the weights of the catalog, if they have one, and then at the first
/// draw; else that no template is eligible at that draw, or the error of
/// resolving a template eligible at it on tributes of the cast.
pub open spec fn fault_after(
    cast: Seq<Tribute>,
    catalog: Seq<EventView>,
    quota: nat,
    done: Seq<EventResultView>,
    e: SimulationErrorView,
) -> bool {
    match weight_fault(weights_of(catalog)) {
        Some(source) => done.len() == 0 && e == (SimulationErrorView::WeightedRandomError {
            source,
        }),
        None => match e {
            SimulationErrorView::NoEligibleEvent => forall|i: int|
                0 <= i < catalog.len() ==> !eligible_after(
                    #[trigger] catalog[i],
                    cast.len(),
                    catalog,
                    quota,
                    done,
                ),
            SimulationErrorView::EventError { event_error } => exists|
                i: int,
                bound: Seq<Tribute>,
            |
                {
                    &&& 0 <= i < catalog.len()
                    &&& eligible_after(catalog[i], cast.len(), catalog, quota, done)
                    &&& bound.len() == slot_keys(catalog[i].text).len()
                    &&& forall|k: int| 0 <= k < bound.len() ==> cast.contains(#[trigger] bound[k])
                    &&& #[trigger] resolved(catalog[i], bound) == Err::<
                        EventResultView,
                        EventErrorView,
                    >(event_error)
                },
            _ => false,
        },
    }
}

/// Whether `e` and `after` are an outcome of playing a phase with the given
/// catalog and kill quota on the districts `before` that fails.
///
/// Some results came one after the other, each in its turn, and their
/// events are applied to the districts; they are not published. Tributes
/// were left in the pool, and the draw that followed, or the resolution of
/// its template, failed with `e`.
pub open spec fn failed(
    before: Seq<DistrictView>,
    catalog: Seq<EventView>,
    quota: nat,
    e: SimulationErrorView,
    after: Seq<DistrictView>,
) -> bool {
    let cast = living(everyone(before));
    exists|done: Seq<EventResultView>|
        {
            &&& well_played(cast, catalog, quota, done)
            &&& after == #[trigger] settled(before, done)
            &&& catalog.len() > 0
            &&& left_of(cast.len(), bound_count(done)) >= 1
            &&& fault_after(cast, catalog, quota, done, e)
        }
}

/// Whether some template of a catalog is eligible at a draw.
pub open spec fn some_eligible(
    catalog: Seq<EventView>,
    pool: nat,
    living: nat,
    force_fatal: bool,
) -> bool {
    exists|i: int|
        0 <= i < catalog.len() && eligible(#[trigger] catalog[i], pool, living, force_fatal)
}

/// Whether a phase with the given catalog, played on `cast` tributes, is
/// sure not to fail: the weights have no fault, some template is eligible
/// at every draw there can be, and every template resolves whoever is bound
/// to its roles.
pub open spec fn sure_to_play(catalog: Seq<EventView>, cast: nat) -> bool {
    &&& weight_fault(weights_of(catalog)).is_none()
    &&& forall|pool: nat, living: nat, force_fatal: bool|
        1 <= pool <= cast && 1 <= living <= cast ==> #[trigger] some_eligible(
            catalog,
            pool,
            living,
            force_fatal,
        )
    &&& forall|i: int, bound: Seq<Tribute>|
        0 <= i < catalog.len() && bound.len() == slot_keys(catalog[i].text).len() ==> (
        #[trigger] resolved(catalog[i], bound)).is_ok()
}

/// Whether a phase with the given catalog and kill quota, played on the
/// tributes `cast`, never comes to a draw at which no template is eligible.
pub open spec fn never_stuck(cast: Seq<Tribute>, catalog: Seq<EventView>, quota: nat) -> bool {
    forall|done: Seq<EventResultView>| #[trigger]
        well_played(cast, catalog, quota, done) && left_of(cast.len(), bound_count(done)) >= 1
            ==> exists|i: int|
            0 <= i < catalog.len() && eligible_after(
                #[trigger] catalog[i],
                cast.len(),
                catalog,
                quota,
                done,
            )
}

/// Whether every template of a catalog resolves whoever is bound to its
/// roles.
pub open spec fn always_resolves(catalog: Seq<EventView>) -> bool {
    forall|i: int, bound: Seq<Tribute>|
        0 <= i < catalog.len() && bound.len() == slot_keys(catalog[i].text).len() ==> (
        #[trigger] resolved(catalog[i], bound)).is_ok()
}

/// A phase does not fail where the weights of its catalog have no fault, it
/// never comes to a draw at which no template is eligible, and every
/// template resolves.
pub proof fn law_failure_has_a_cause(
    before: Seq<DistrictView>,
    catalog: Seq<EventView>,
    quota: nat,
    e: SimulationErrorView,
    after: Seq<DistrictView>,
)
    requires
        failed(before, catalog, quota, e, after),
    ensures
        weight_fault(weights_of(catalog)).is_some() || !never_stuck(
            living(everyone(before)),
            catalog,
            quota,
        ) || !always_resolves(catalog),
{
    let cast = living(everyone(before));
    let done = choose|done: Seq<EventResultView>|
        {
            &&& well_played(cast, catalog, quota, done)
            &&& after == #[trigger] settled(before, done)
            &&& catalog.len() > 0
            &&& left_of(cast.len(), bound_count(done)) >= 1
            &&& fault_after(cast, catalog, quota, done, e)
        };
    if weight_fault(weights_of(catalog)).is_none() && never_stuck(cast, catalog, quota) {
        assert(well_played(cast, catalog, quota, done));
    }
}

/// One more result binds its tributes and kills its killed.
pub proof fn lemma_counts_push(done: Seq<EventResultView>, r: EventResultView)
    ensures
        bound_count(done.push(r)) == bound_count(done) + r.tributes.len(),
        kill_count(done.push(r)) == kill_count(done) + r.killed.len(),
{
    assert(done.push(r).drop_last() =~= done);
}

/// Results in another order bind as many and kill as many.
pub proof fn lemma_counts_in_any_order(a: Seq<EventResultView>, b: Seq<EventResultView>)
    requires
        a.to_multiset() == b.to_multiset(),
    ensures
        bound_count(a) == bound_count(b),
        kill_count(a) == kill_count(b),
{
    let f = |n: nat, r: EventResultView| n + r.tributes.len();
    let g = |n: nat, r: EventResultView| n + r.killed.len();
    lemma_counts_fold(a);
    lemma_counts_fold(b);
    vstd::seq_lib::lemma_fold_left_permutation(a, b, f, 0nat);
    vstd::seq_lib::lemma_fold_left_permutation(a, b, g, 0nat);
}

/// The counts of some results are sums over them.
proof fn lemma_counts_fold(done: Seq<EventResultView>)
    ensures
        bound_count(done) == done.fold_left(
            0nat,
            |n: nat, r: EventResultView| n + r.tributes.len(),
        ),
        kill_count(done) == done.fold_left(0nat, |n: nat, r: EventResultView| n + r.killed.len()),
    decreases done.len(),
{
    if done.len() > 0 {
        lemma_counts_fold(done.drop_last());
    }
}

/// Results that came one after the other, and one in its turn after them,
/// came one after the other.
pub proof fn lemma_well_played_push(
    cast: Seq<Tribute>,
    catalog: Seq<EventView>,
    quota: nat,
    done: Seq<EventResultView>,
    r: EventResultView,
)
    requires
        well_played(cast, catalog, quota, done),
        in_turn(cast, catalog, quota, done, r),
    ensures
        well_played(cast, catalog, quota, done.push(r)),
{
    let more = done.push(r);
    assert forall|k: int| 0 <= k < more.len() implies in_turn(
        cast,
        catalog,
        quota,
        more.take(k),
        #[trigger] more[k],
    ) by {
        if k < done.len() {
            assert(more.take(k) =~= done.take(k));
            assert(more[k] == done[k]);
        } else {
            assert(more.take(k) =~= done);
        }
    }
}

/// An event on tributes drawn from a pool leaves those who stay in the pool
/// as they were at the start, and kills whom it kills as they were at the
/// start.
pub proof fn lemma_event_spares_pool(
    start: Seq<Tribute>,
    now: Seq<Tribute>,
    pool: Seq<Tribute>,
    rest: Seq<Tribute>,
    r: EventResultView,
)
    requires
        ids_distinct(pool),
        untouched(ids_of(pool), start, now),
        forall|j: int| 0 <= j < pool.len() ==> living(start).contains(#[trigger] pool[j]),
        ids_of(r.tributes).to_multiset().add(ids_of(rest).to_multiset()) == ids_of(
            pool,
        ).to_multiset(),
        forall|i: int| 0 <= i < r.killed.len() ==> ids_of(r.tributes).contains(r.killed[i]),
        forall|i: int| 0 <= i < r.killers.len() ==> ids_of(r.tributes).contains(r.killers[i]),
    ensures
        untouched(ids_of(rest), start, struck_tributes(now, r.killed, r.killers)),
        mourned(now, r.killed) == mourned(start, r.killed),
        all_living(now, r.killed),
{
    let bound_ids = ids_of(r.tributes);
    lemma_ids_no_duplicates(pool);
    lemma_parts(bound_ids, ids_of(rest), ids_of(pool));
    assert forall|i: int| 0 <= i < r.killed.len() implies lives(now, #[trigger] r.killed[i]) by {
        let x = r.killed[i];
        assert(bound_ids.contains(x));
        assert(ids_of(pool).contains(x));
        let q = choose|q: int| 0 <= q < ids_of(pool).len() && ids_of(pool)[q] == x;
        assert(pool[q].id == x);
        let pred = |t: Tribute| t.is_alive;
        assert(living(start).contains(pool[q]));
        start.lemma_filter_contains_rev(pred, pool[q]);
        let f = choose|f: int| 0 <= f < living(start).len() && living(start)[f] == pool[q];
        start.lemma_filter_pred(pred, f);
        let m = choose|m: int| 0 <= m < start.len() && start[m] == pool[q];
        assert(now[m].id == start[m].id);
        assert(ids_of(pool).contains(now[m].id));
        assert(now[m] == start[m]);
    }
    assert forall|x: usize| ids_of(rest).contains(x) implies ids_of(pool).contains(x)
        && !r.killed.contains(x) && !r.killers.contains(x) by {
        if r.killed.contains(x) {
            let i = choose|i: int| 0 <= i < r.killed.len() && r.killed[i] == x;
            assert(bound_ids.contains(r.killed[i]));
        }
        if r.killers.contains(x) {
            let i = choose|i: int| 0 <= i < r.killers.len() && r.killers[i] == x;
            assert(bound_ids.contains(r.killers[i]));
        }
    }
    lemma_struck_untouched(ids_of(pool), start, now, ids_of(rest), r.killed, r.killers);
    assert forall|j: int| 0 <= j < now.len() && r.killed.contains(
        (#[trigger] now[j]).id,
    ) implies now[j] == start[j] by {
        let x = now[j].id;
        let i = choose|i: int| 0 <= i < r.killed.len() && r.killed[i] == x;
        assert(bound_ids.contains(r.killed[i]));
        assert(ids_of(pool).contains(x));
    }
    lemma_mourned_same(now, start, r.killed);
}

/// The tributes drawn from a pool of tributes of the cast, and those left
/// in the pool, are tributes of the cast.
pub proof fn lemma_drawn_of_cast(cast: Seq<Tribute>, pool: Seq<Tribute>, picks: Seq<int>)
    requires
        valid_picks(pool.len() as int, picks),
        forall|j: int| 0 <= j < pool.len() ==> cast.contains(#[trigger] pool[j]),
    ensures
        forall|k: int|
            0 <= k < drawn(pool, picks).len() ==> cast.contains(#[trigger] drawn(pool, picks)[k]),
        forall|j: int|
            0 <= j < left(pool, picks).len() ==> cast.contains(#[trigger] left(pool, picks)[j]),
{
    lemma_draw_within(pool, picks);
    let bound = drawn(pool, picks);
    let rest = left(pool, picks);
    assert forall|k: int| 0 <= k < bound.len() implies cast.contains(#[trigger] bound[k]) by {
        let j = choose|j: int| 0 <= j < pool.len() && pool[j] == bound[k];
        assert(cast.contains(pool[j]));
    }
    assert forall|j: int| 0 <= j < rest.len() implies cast.contains(#[trigger] rest[j]) by {
        let q = choose|q: int| 0 <= q < pool.len() && pool[q] == rest[j];
        assert(cast.contains(pool[q]));
    }
}

/// Whether the results `done` came one after the other, each in its turn
/// and each sound.
#[verifier::opaque]
pub open spec fn in_turns(
    cast: Seq<Tribute>,
    catalog: Seq<EventView>,
    quota: nat,
    done: Seq<EventResultView>,
) -> bool {
    &&& well_played(cast, catalog, quota, done)
    &&& forall|k: int| 0 <= k < done.len() ==> sound(#[trigger] done[k], catalog, cast)
}

/// Results that came in turns came one after the other, and are sound.
pub proof fn lemma_in_turns(
    cast: Seq<Tribute>,
    catalog: Seq<EventView>,
    quota: nat,
    done: Seq<EventResultView>,
)
    requires
        in_turns(cast, catalog, quota, done),
    ensures
        well_played(cast, catalog, quota, done),
        forall|k: int| 0 <= k < done.len() ==> sound(#[trigger] done[k], catalog, cast),
{
    reveal(in_turns);
}

/// No results came in turns.
pub proof fn lemma_in_turns_none(cast: Seq<Tribute>, catalog: Seq<EventView>, quota: nat)
    ensures
        in_turns(cast, catalog, quota, Seq::empty()),
{
    reveal(in_turns);
}

/// Results that came in turns, and then the sound resolution of a template
/// eligible after them on tributes of the cast, came in turns.
pub proof fn lemma_in_turns_push(
    cast: Seq<Tribute>,
    catalog: Seq<EventView>,
    quota: nat,
    done: Seq<EventResultView>,
    i: int,
    bound: Seq<Tribute>,
    r: EventResultView,
)
    requires
        in_turns(cast, catalog, quota, done),
        0 <= i < catalog.len(),
        eligible_after(catalog[i], cast.len(), catalog, quota, done),
        bound.len() == slot_keys(catalog[i].text).len(),
        forall|k: int| 0 <= k < bound.len() ==> cast.contains(#[trigger] bound[k]),
        resolved(catalog[i], bound) == Ok::<EventResultView, EventErrorView>(r),
        even_handed(r),
        ids_distinct(r.tributes),
        forall|j: int| 0 <= j < r.killed.len() ==> ids_of(r.tributes).contains(r.killed[j]),
        forall|j: int| 0 <= j < r.killers.len() ==> ids_of(r.tributes).contains(r.killers[j]),
    ensures
        in_turns(cast, catalog, quota, done.push(r)),
        bound_count(done.push(r)) == bound_count(done) + r.tributes.len(),
        kill_count(done.push(r)) == kill_count(done) + r.killed.len(),
{
    reveal(in_turns);
    assert(in_turn(cast, catalog, quota, done, r));
    assert(sound(r, catalog, cast));
    lemma_well_played_push(cast, catalog, quota, done, r);
    lemma_counts_push(done, r);
    let more = done.push(r);
    assert forall|k: int| 0 <= k < more.len() implies sound(#[trigger] more[k], catalog, cast) by {
        if k < done.len() {
            assert(more[k] == done[k]);
        }
    }
}

/// Whether a kill is to be forced at a draw.
pub fn forces_kill(lethal: bool, quota_left: usize) -> (r: bool)
    ensures
        r == forced(lethal, quota_left as nat),
{
    lethal && quota_left > 0
}

/// What is left of the kill quota after an event that kills `kills`.
pub fn quota_after(quota_left: usize, kills: usize) -> (r: usize)
    ensures
        r == left_of(quota_left as nat, kills as nat),
{
    if quota_left >= kills {
        quota_left - kills
    } else {
        0
    }
}

/// A game.
#[derive(Debug)]
pub struct Simulation {
    districts: Vec<District>,
    events: SimEvents,
    state: EventCategory,
    day: u32,
    killed_today: Vec<Tribute>,
    next_events: Vec<EventResult>,
    death_rate: DeathRate,
}

impl Simulation {
    #[verifier::type_invariant]
    /// No identity stands twice among the tributes of the game, and every
    /// pending result has killed exactly if it has killers.
    spec fn in_order(self) -> bool {
        &&& distinct_ids(district_views(self.districts@))
        &&& all_even_handed(result_views(self.next_events@))
    }

    /// The districts of the game.
    pub closed spec fn population(&self) -> Seq<DistrictView> {
        district_views(self.districts@)
    }

    /// The templates of a phase.
    pub closed spec fn catalog(&self, category: EventCategory) -> Seq<EventView> {
        self.events.of(category)
    }

    /// The phase that the next step plays.
    pub closed spec fn phase(&self) -> EventCategory {
        self.state
    }

    /// The day of the game.
    pub closed spec fn day_number(&self) -> u32 {
        self.day
    }

    /// The tributes that died since the fallen were last reported.
    pub closed spec fn fallen(&self) -> Seq<Tribute> {
        self.killed_today@
    }

    /// The results of the last step, as long as they have not been fetched.
    pub closed spec fn pending(&self) -> Seq<EventResultView> {
        result_views(self.next_events@)
    }

    /// The share of the living that a step sets out to kill.
    pub closed spec fn rate(&self) -> DeathRate {
        self.death_rate
    }

    /// The living tributes of the game, district after district.
    pub open spec fn alive(&self) -> Seq<Tribute> {
        living(everyone(self.population()))
    }

    /// Whether this is a game of the given districts and templates at its
    /// start: each template in the catalog of its category, the bloodbath
    /// of day 1 to play, nobody fallen, no results pending.
    pub open spec fn is_fresh(
        &self,
        districts: Seq<DistrictView>,
        events: Seq<EventView>,
        death_rate: DeathRate,
    ) -> bool {
        &&& self.population() == districts
        &&& self.catalog(EventCategory::Bloodbath) == of_category(events, EventCategory::Bloodbath)
        &&& self.catalog(EventCategory::Day) == of_category(events, EventCategory::Day)
        &&& self.catalog(EventCategory::Night) == of_category(events, EventCategory::Night)
        &&& self.phase() == EventCategory::Bloodbath
        &&& self.day_number() == 1
        &&& self.fallen() == Seq::<Tribute>::empty()
        &&& self.pending() == Seq::<EventResultView>::empty()
        &&& self.rate() == death_rate
    }

    /// A game of the given districts and templates at its start.
    pub fn new(districts: Vec<District>, events: Vec<Event>, death_rate: DeathRate) -> (r:
        Simulation)
        requires
            distinct_ids(district_views(districts@)),
        ensures
            r.is_fresh(district_views(districts@), event_views(events@), death_rate),
    {
        let r = Simulation {
            districts,
            events: SimEvents {
                bloodbath: EventData::create(select_category(&events, EventCategory::Bloodbath)),
                day: EventData::create(select_category(&events, EventCategory::Day)),
                night: EventData::create(select_category(&events, EventCategory::Night)),
            },
            state: EventCategory::Bloodbath,
            day: 1,
            killed_today: Vec::new(),
            next_events: Vec::new(),
            death_rate,
        };
        assert(r.pending() =~= Seq::<EventResultView>::empty());
        r
    }

    /// Whether two games have the same catalogs and the same death rate.
    pub open spec fn same_rules(&self, other: &Simulation) -> bool {
        &&& self.catalog(EventCategory::Bloodbath) == other.catalog(EventCategory::Bloodbath)
        &&& self.catalog(EventCategory::Day) == other.catalog(EventCategory::Day)
        &&& self.catalog(EventCategory::Night) == other.catalog(EventCategory::Night)
        &&& self.catalog(EventCategory::FallenTributes) == other.catalog(
            EventCategory::FallenTributes,
        )
        &&& self.catalog(EventCategory::End) == other.catalog(EventCategory::End)
        &&& self.rate() == other.rate()
    }

    /// Whether some template of the phase kills.
    pub fn has_fatal(&self) -> (r: bool)
        ensures
            r == exists|i: int|
                0 <= i < self.catalog(self.phase()).len() && (#[trigger] self.catalog(
                    self.phase(),
                )[i]).killed.len() > 0,
    {
        match self.state {
            EventCategory::Bloodbath => self.events.bloodbath.has_fatal(),
            EventCategory::Day => self.events.day.has_fatal(),
            EventCategory::Night => self.events.night.has_fatal(),
            _ => false,
        }
    }

    /// Draws a template of the phase for the next event of a step; `None`
    /// in a phase without a catalog.
    pub fn get_rand_event(&self, tributes: &Vec<Tribute>, living: usize, force_fatal: bool) -> (r:
        Result<Option<Event>, SimulationError>)
        ensures
            match self.phase() {
                EventCategory::Bloodbath | EventCategory::Day | EventCategory::Night => is_draw(
                    self.catalog(self.phase()),
                    tributes.len() as nat,
                    living as nat,
                    force_fatal,
                    r,
                ),
                _ => r matches Ok(None),
            },
    {
        match self.state {
            EventCategory::Bloodbath => self.events.bloodbath.get_random_event(
                tributes,
                living,
                force_fatal,
            ),
            EventCategory::Day => self.events.day.get_random_event(tributes, living, force_fatal),
            EventCategory::Night => self.events.night.get_random_event(
                tributes,
                living,
                force_fatal,
            ),
            _ => Ok(None),
        }
    }

    /// Moves on to the phase that follows, and after a night to the next
    /// day.
    fn step_cat(&mut self)
        ensures
            final(self).state == next_category(old(self).state),
            final(self).day == next_day(old(self).state, old(self).day),
            final(self).districts == old(self).districts,
            final(self).events == old(self).events,
            final(self).killed_today == old(self).killed_today,
            final(self).next_events == old(self).next_events,
            final(self).death_rate == old(self).death_rate,
    {
        proof {
            use_type_invariant(&*self);
        }
        let (state, day) = following(self.state, self.day);
        self.state = state;
        self.day = day;
    }

    /// Plays a phase that has a catalog on the given districts: draws
    /// templates and resolves them on the living until each of them has had
    /// a part, and gives the results in a random order.
    fn play_phase(&self, districts: &mut Vec<District>, fallen: &mut Vec<Tribute>) -> (r: Result<
        Vec<EventResult>,
        SimulationError,
    >)
        requires
            self.state != EventCategory::End,
            self.state != EventCategory::FallenTributes,
            distinct_ids(district_views(old(districts)@)),
        ensures
            distinct_ids(district_views(final(districts)@)),
            aged(district_views(old(districts)@), district_views(final(districts)@)),
            old(fallen)@.is_prefix_of(final(fallen)@),
            living(everyone(district_views(final(districts)@))).len() <= living(
                everyone(district_views(old(districts)@)),
            ).len(),
            living(everyone(district_views(old(districts)@))).len() >= 1 ==> living(
                everyone(district_views(final(districts)@)),
            ).len() >= 1,
            r matches Ok(events) ==> played(
                district_views(old(districts)@),
                self.catalog(self.phase()),
                self.rate().quota_of(living(everyone(district_views(old(districts)@))).len()),
                result_views(events@),
                district_views(final(districts)@),
            ) && final(fallen)@.to_multiset() == old(fallen)@.to_multiset().add(
                lamented(district_views(old(districts)@), result_views(events@)),
            ),
            r matches Err(e) ==> failed(
                district_views(old(districts)@),
                self.catalog(self.phase()),
                self.rate().quota_of(living(everyone(district_views(old(districts)@))).len()),
                e@,
                district_views(final(districts)@),
            ),
            living(everyone(district_views(old(districts)@))).len() == 0 || self.catalog(
                self.phase(),
            ).len() == 0 ==> r.is_ok(),
            living(everyone(district_views(old(districts)@))).len() > 0 && self.catalog(
                self.phase(),
            ).len() > 0 && weight_fault(weights_of(self.catalog(self.phase()))).is_some()
                ==> r.is_err(),
            sure_to_play(
                self.catalog(self.phase()),
                living(everyone(district_views(old(districts)@))).len(),
            ) ==> r.is_ok(),
    {
        let ghost catalog = self.catalog(self.phase());
        let ghost start = district_views(districts@);
        let ghost cast = living(everyone(start));
        let ghost everybody = ids_of(living(everyone(start))).to_multiset();
        let mut tributes_left = living_of(districts);
        let mut living_this_step = tributes_left.len();
        let mut tribs_to_die = self.death_rate.quota(living_this_step);
        let ghost quota = self.rate().quota_of(cast.len());
        let mut events: Vec<EventResult> = Vec::new();
        let mut draws_left = tributes_left.len();
        proof {
            lemma_living_distinct(everyone(start));
            lemma_aged_same(start);
            assert(result_views(events@) =~= Seq::<EventResultView>::empty());
            assert(participants(result_views(events@)).add(ids_of(tributes_left@).to_multiset())
                =~= everybody);
            assert(fallen@.to_multiset() =~= old(fallen)@.to_multiset().add(
                lamented(start, result_views(events@)),
            ));
            lemma_in_turns_none(cast, catalog, quota);
        }
        while tributes_left.len() != 0 && draws_left > 0
            invariant
                self.state != EventCategory::End,
                self.state != EventCategory::FallenTributes,
                catalog == self.catalog(self.phase()),
                start == district_views(old(districts)@),
                cast == living(everyone(start)),
                quota == self.rate().quota_of(cast.len()),
                everybody == ids_of(living(everyone(start))).to_multiset(),
                forall|j: int|
                    0 <= j < tributes_left.len() ==> cast.contains(#[trigger] tributes_left[j]),
                distinct_ids(district_views(districts@)),
                aged(start, district_views(districts@)),
                old(fallen)@.is_prefix_of(fallen@),
                living(everyone(district_views(districts@))).len() <= cast.len(),
                ids_distinct(tributes_left@),
                cast.len() >= 1 ==> 1 <= living_this_step,
                living_this_step == living(everyone(district_views(districts@))).len(),
                bound_count(result_views(events@)) + tributes_left.len() == cast.len(),
                kill_count(result_views(events@)) + living_this_step == cast.len(),
                tribs_to_die == left_of(quota, kill_count(result_views(events@))),
                in_turns(cast, catalog, quota, result_views(events@)),
                catalog.len() > 0 ==> events.len() + draws_left == cast.len(),
                catalog.len() == 0 ==> events.len() == 0,
                events.len() + draws_left <= cast.len(),
                catalog.len() > 0 && every_role_bound(catalog) ==> tributes_left.len()
                    <= draws_left,
                district_views(districts@) == settled(start, result_views(events@)),
                participants(result_views(events@)).add(ids_of(tributes_left@).to_multiset())
                    == everybody,
                untouched(
                    ids_of(tributes_left@),
                    everyone(start),
                    everyone(district_views(districts@)),
                ),
                catalog.len() > 0 && weight_fault(weights_of(catalog)).is_some() ==> events.len()
                    == 0,
                events.len() == 0 ==> tributes_left.len() == cast.len(),
                fallen@.to_multiset() == old(fallen)@.to_multiset().add(
                    lamented(start, result_views(events@)),
                ),
            decreases draws_left,
        {
            draws_left -= 1;
            let ghost published = result_views(events@);
            let force_fatal = forces_kill(self.has_fatal(), tribs_to_die);
            let event = match self.get_rand_event(&tributes_left, living_this_step, force_fatal) {
                Ok(e) => e,
                Err(e) => {
                    proof {
                        lemma_in_turns(cast, catalog, quota, published);
                        assert(fault_after(cast, catalog, quota, published, e@));
                        if weight_fault(weights_of(catalog)).is_none() {
                            assert(!some_eligible(
                                catalog,
                                tributes_left.len() as nat,
                                living_this_step as nat,
                                force_fatal,
                            ));
                        }
                        assert(district_views(districts@) == settled(start, published));
                    }
                    return Err(e);
                },
            };
            let mut ev = match event {
                Some(ev) => ev,
                None => {
                    continue ;
                },
            };
            let ghost pool = tributes_left@;
            let ghost template = ev@;
            let ghost turn = choose|i: int| 0 <= i < catalog.len() && #[trigger] catalog[i] == template;
            let result = match ev.get_result(&mut tributes_left) {
                Ok(r) => r,
                Err(event_error) => {
                    proof {
                        lemma_in_turns(cast, catalog, quota, published);
                        let picks = choose|picks: Seq<int>|
                            {
                                &&& picks.len() == slot_keys(template.text).len()
                                &&& valid_picks(pool.len() as int, picks)
                                &&& tributes_left@ == #[trigger] left(pool, picks)
                                &&& agrees(Err(event_error), resolved(template, drawn(pool, picks)))
                            };
                        lemma_draw_len(pool, picks);
                        lemma_drawn_of_cast(cast, pool, picks);
                        let bound = drawn(pool, picks);
                        assert(resolved(catalog[turn], bound) == Err::<
                            EventResultView,
                            EventErrorView,
                        >(event_error@));
                        assert(eligible_after(catalog[turn], cast.len(), catalog, quota, published));
                        assert(fault_after(
                            cast,
                            catalog,
                            quota,
                            published,
                            SimulationErrorView::EventError { event_error: event_error@ },
                        ));
                        assert(district_views(districts@) == settled(start, published));
                    }
                    return Err(SimulationError::EventError { event_error });
                },
            };
            living_this_step -= result.killed.len();
            tribs_to_die = quota_after(tribs_to_die, result.killed.len());
            let ghost before = district_views(districts@);
            let ghost fallen_before = fallen@;
            strike(districts, fallen, &result.killed, &result.killers);
            proof {
                lemma_struck_everyone(before, result.killed@, result.killers@);
                lemma_event_spares_pool(
                    everyone(start),
                    everyone(before),
                    pool,
                    tributes_left@,
                    result@,
                );
                lemma_struck_kills(everyone(before), result.killed@, result.killers@);
                vstd::seq_lib::lemma_multiset_commutative(
                    fallen_before,
                    mourned(everyone(start), result.killed@),
                );
                lemma_struck_aged(before, result.killed@, result.killers@);
                lemma_aged_chain(start, before, district_views(districts@));
                lemma_settled_push(start, published, result@);
                let picks = choose|picks: Seq<int>|
                    {
                        &&& picks.len() == slot_keys(template.text).len()
                        &&& valid_picks(pool.len() as int, picks)
                        &&& tributes_left@ == #[trigger] left(pool, picks)
                        &&& agrees(Ok(result), resolved(template, drawn(pool, picks)))
                    };
                lemma_draw_len(pool, picks);
                lemma_drawn_of_cast(cast, pool, picks);
                let bound = drawn(pool, picks);
                assert(resolved(catalog[turn], bound) == Ok::<EventResultView, EventErrorView>(
                    result@,
                ));
                assert(eligible_after(catalog[turn], cast.len(), catalog, quota, published));
                lemma_in_turns_push(cast, catalog, quota, published, turn, bound, result@);
                assert(participants(published).add(ids_of(result.tributes@).to_multiset()).add(
                    ids_of(tributes_left@).to_multiset(),
                ) =~= participants(published).add(ids_of(pool).to_multiset()));
            }
            events.push(result);
            assert(result_views(events@) =~= published.push(result@));
        }
        let ghost drawn_events = result_views(events@);
        shuffle_results(&mut events);
        proof {
            let shuffled = result_views(events@);
            lemma_in_turns(cast, catalog, quota, drawn_events);
            lemma_counts_in_any_order(drawn_events, shuffled);
            lemma_settled_in_any_order(start, drawn_events, shuffled);
            vstd::seq_lib::to_multiset_len(drawn_events);
            vstd::seq_lib::to_multiset_len(shuffled);
            assert forall|k: int| 0 <= k < shuffled.len() implies sound(
                #[trigger] shuffled[k],
                catalog,
                cast,
            ) by {
                vstd::seq_lib::to_multiset_contains(shuffled, shuffled[k]);
                vstd::seq_lib::to_multiset_contains(drawn_events, shuffled[k]);
                assert(shuffled.contains(shuffled[k]));
                let j = choose|j: int| 0 <= j < drawn_events.len() && drawn_events[j] == shuffled[k];
                assert(sound(drawn_events[j], catalog, cast));
            }
            if tributes_left.len() == 0 {
                assert(ids_of(tributes_left@) =~= Seq::<usize>::empty());
                vstd::seq_lib::to_multiset_len(ids_of(tributes_left@));
                assert(ids_of(tributes_left@).to_multiset() =~= Multiset::<usize>::empty());
                assert(participants(shuffled) =~= everybody);
            }
            assert(drawn_events.to_multiset() == shuffled.to_multiset());
        }
        Ok(events)
    }

    /// Plays the phase of the game and moves on to the next.
    ///
    /// Once the game is over nothing happens. The phase of the fallen
    /// reports those who died since it was last played. Every other phase
    /// draws templates and resolves them on the living, until each of them
    /// has had a part, and publishes the results in a random order. Then the
    /// game is over if at most one tribute is alive, and else moves on.
    ///
    /// No step brings a tribute back to life, and none kills the last of
    /// the living: a phase kills fewer than were alive.
    ///
    /// A phase with a catalog fails only at a draw with tributes left in
    /// the pool: with the fault of the weights, where no template is
    /// eligible at that draw, or with the error of resolving the template
    /// drawn. Where none of these can be, the step succeeds. A phase whose
    /// catalog is empty passes without events.
    ///
    /// A step that fails leaves the phase, the day and the pending results
    /// as they were; the events resolved before the failure stay applied.
    pub fn step(&mut self) -> (r: Result<(), SimulationError>)
        ensures
            old(self).phase() == EventCategory::End ==> r.is_ok() && *final(self) == *old(self),
            all_even_handed(final(self).pending()),
            final(self).same_rules(old(self)),
            aged(old(self).population(), final(self).population()),
            final(self).alive().len() <= old(self).alive().len(),
            old(self).alive().len() >= 1 ==> final(self).alive().len() >= 1,
            old(self).phase() != EventCategory::End && r.is_ok() ==> {
                &&& final(self).phase() == if final(self).alive().len() <= 1 {
                    EventCategory::End
                } else {
                    next_category(old(self).phase())
                }
                &&& final(self).day_number() == if final(self).alive().len() <= 1 {
                    old(self).day_number()
                } else {
                    next_day(old(self).phase(), old(self).day_number())
                }
            },
            old(self).phase() == EventCategory::FallenTributes ==> {
                &&& r.is_ok()
                &&& final(self).population() == old(self).population()
                &&& old(self).alive().len() > 0 ==> final(self).pending() == fallen_report(
                    old(self).fallen(),
                    old(self).population(),
                ) && final(self).fallen().len() == 0
                &&& old(self).alive().len() == 0 ==> final(self).pending().len() == 0
                    && final(self).fallen() == old(self).fallen()
            },
            old(self).phase() != EventCategory::End && old(self).phase()
                != EventCategory::FallenTributes ==> {
                &&& old(self).alive().len() == 0 || old(self).catalog(old(self).phase()).len()
                    == 0 ==> r.is_ok()
                &&& old(self).alive().len() > 0 && old(self).catalog(old(self).phase()).len() > 0
                    && weight_fault(weights_of(old(self).catalog(old(self).phase()))).is_some()
                    ==> r.is_err()
                &&& sure_to_play(old(self).catalog(old(self).phase()), old(self).alive().len())
                    ==> r.is_ok()
                &&& weight_fault(weights_of(old(self).catalog(old(self).phase()))).is_none()
                    && never_stuck(
                    old(self).alive(),
                    old(self).catalog(old(self).phase()),
                    old(self).rate().quota_of(old(self).alive().len()),
                ) && always_resolves(old(self).catalog(old(self).phase())) ==> r.is_ok()
                &&& old(self).fallen().is_prefix_of(final(self).fallen())
                &&& r.is_ok() ==> played(
                    old(self).population(),
                    old(self).catalog(old(self).phase()),
                    old(self).rate().quota_of(old(self).alive().len()),
                    final(self).pending(),
                    final(self).population(),
                )
                &&& r.is_ok() ==> final(self).fallen().to_multiset() == old(
                    self,
                ).fallen().to_multiset().add(lamented(old(self).population(), final(self).pending()))
            },
            r matches Err(e) ==> {
                &&& final(self).phase() == old(self).phase()
                &&& final(self).day_number() == old(self).day_number()
                &&& final(self).pending() == old(self).pending()
                &&& failed(
                    old(self).population(),
                    old(self).catalog(old(self).phase()),
                    old(self).rate().quota_of(old(self).alive().len()),
                    e@,
                    final(self).population(),
                )
            },
    {
        proof {
            use_type_invariant(&*self);
        }
        if self.state == EventCategory::End {
            return Ok(());
        }
        let mut events: Vec<EventResult> = Vec::new();
        if self.state == EventCategory::FallenTributes {
            if living_of(&self.districts).len() != 0 {
                events = report_fallen(&self.killed_today, &self.districts);
                proof {
                    lemma_report_even_handed(self.killed_today@, district_views(self.districts@));
                }
                self.killed_today = Vec::new();
            }
        } else {
            let mut districts: Vec<District> = Vec::new();
            let mut fallen: Vec<Tribute> = Vec::new();
            std::mem::swap(&mut districts, &mut self.districts);
            std::mem::swap(&mut fallen, &mut self.killed_today);
            let outcome = self.play_phase(&mut districts, &mut fallen);
            self.districts = districts;
            self.killed_today = fallen;
            match outcome {
                Ok(published) => {
                    events = published;
                    assert forall|k: int| 0 <= k < events@.len() implies even_handed(
                        #[trigger] result_views(events@)[k],
                    ) by {
                        assert(sound(
                            result_views(events@)[k],
                            old(self).catalog(old(self).phase()),
                            old(self).alive(),
                        ));
                    }
                },
                Err(e) => {
                    proof {
                        law_failure_has_a_cause(
                            old(self).population(),
                            old(self).catalog(old(self).phase()),
                            old(self).rate().quota_of(old(self).alive().len()),
                            e@,
                            self.population(),
                        );
                    }
                    return Err(e);
                },
            }
        }
        self.next_events = events;
        if self.has_winner() {
            self.state = EventCategory::End;
        } else {
            self.step_cat();
        }
        Ok(())
    }

    /// Hands out the results of the last step, and keeps none of them.
    pub fn get_clear_next_events(&mut self) -> (r: Vec<EventResult>)
        ensures
            Self::fetched(old(self), final(self), result_views(r@)),
    {
        proof {
            use_type_invariant(&*self);
        }
        let mut out: Vec<EventResult> = Vec::new();
        std::mem::swap(&mut out, &mut self.next_events);
        assert(self.pending() =~= Seq::<EventResultView>::empty());
        out
    }

    /// Whether `after` is the game `before` once its pending results have
    /// been handed out as `got`: these were all of them, none is left, and
    /// nothing else has changed.
    pub open spec fn fetched(
        before: &Simulation,
        after: &Simulation,
        got: Seq<EventResultView>,
    ) -> bool {
        &&& got == before.pending()
        &&& after.pending() == Seq::<EventResultView>::empty()
        &&& after.same_rules(before)
        &&& after.population() == before.population()
        &&& after.phase() == before.phase()
        &&& after.day_number() == before.day_number()
        &&& after.fallen() == before.fallen()
    }

    /// Whether the game is over.
    pub fn is_end(&self) -> (r: bool)
        ensures
            r == (self.phase() == EventCategory::End),
    {
        self.state == EventCategory::End
    }

    /// Whether results of the last step are pending.
    pub fn has_next_events(&self) -> (r: bool)
        ensures
            r == (self.pending().len() > 0),
    {
        self.next_events.len() > 0
    }

    /// The templates of the game: those of the bloodbath, then those of the
    /// day, then those of the night.
    pub fn get_all_events(&self) -> (r: Vec<Event>)
        ensures
            event_views(r@) == self.catalog(EventCategory::Bloodbath) + self.catalog(
                EventCategory::Day,
            ) + self.catalog(EventCategory::Night),
    {
        let mut events: Vec<Event> = Vec::new();
        let mut a = self.events.bloodbath.all_events();
        let mut b = self.events.day.all_events();
        let mut c = self.events.night.all_events();
        events.append(&mut a);
        events.append(&mut b);
        events.append(&mut c);
        assert(event_views(events@) =~= self.catalog(EventCategory::Bloodbath) + self.catalog(
            EventCategory::Day,
        ) + self.catalog(EventCategory::Night));
        events
    }

    /// A copy of the districts of the game.
    pub fn get_districts(&self) -> (r: Vec<District>)
        ensures
            district_views(r@) == self.population(),
    {
        clone_districts(&self.districts)
    }

    /// The living tributes of the game, district after district.
    pub fn get_living_tributes(&self) -> (r: Vec<Tribute>)
        ensures
            r@ == self.alive(),
    {
        living_of(&self.districts)
    }

    /// Whether the game has its winner: whether at most one tribute is
    /// alive.
    pub fn has_winner(&self) -> (r: bool)
        ensures
            r == (self.alive().len() <= 1),
    {
        living_of(&self.districts).len() <= 1
    }

    /// The first of the living tributes, who is the winner once the game is
    /// over.
    pub fn get_winner(&self) -> (r: Option<&Tribute>)
        ensures
            match r {
                Some(t) => self.alive().len() > 0 && *t == self.alive()[0],
                None => self.alive().len() == 0,
            },
    {
        let ghost all = district_views(self.districts@);
        let mut i: usize = 0;
        proof {
            assert(all.take(0) =~= Seq::<DistrictView>::empty());
            reveal(Seq::filter);
        }
        while i < self.districts.len()
            invariant
                i <= self.districts.len(),
                all == district_views(self.districts@),
                living(everyone(all.take(i as int))).len() == 0,
            decreases self.districts.len() - i,
        {
            let ghost here = all[i as int].tributes;
            let mut j: usize = 0;
            proof {
                assert(here.take(0) =~= Seq::<Tribute>::empty());
                lemma_everyone_step(all, i as int);
            }
            while j < self.districts[i].tributes.len()
                invariant
                    i < self.districts.len(),
                    j <= self.districts[i as int].tributes.len(),
                    all == district_views(self.districts@),
                    here == all[i as int].tributes,
                    living(everyone(all.take(i as int))).len() == 0,
                    living(here.take(j as int)).len() == 0,
                decreases self.districts[i as int].tributes.len() - j,
            {
                proof {
                    lemma_living_step(here, j as int);
                }
                if self.districts[i].tributes[j].is_alive {
                    proof {
                        lemma_living_grows(here, j + 1, here.len() as int);
                        assert(here.take(here.len() as int) =~= here);
                        lemma_living_prefix(here, j + 1);
                        lemma_everyone_step(all, i as int);
                        lemma_alive_prefix(all, i + 1);
                        assert(living(everyone(all.take(i + 1))) =~= living(here));
                    }
                    return Some(&self.districts[i].tributes[j]);
                }
                j += 1;
            }
            proof {
                assert(here.take(here.len() as int) =~= here);
                assert(living(everyone(all.take(i + 1))) =~= living(everyone(all.take(i as int)))
                    + living(here));
            }
            i += 1;
        }
        assert(all.take(self.districts.len() as int) =~= all);
        None
    }

    /// The name of the district of a tribute: of the first district that has
    /// a tribute with its identity, or "Unknown District".
    pub fn get_trib_dist_name(&self, tribute: &Tribute) -> (r: String)
        ensures
            r@ == district_name_of(self.population(), tribute.id, 0),
    {
        name_of_district(&self.districts, tribute.get_id())
    }

    /// The list of the living for a terminal: a heading, then for each of
    /// the living a line with its name, its district and its kills.
    pub fn cli_display_living(&self) -> (r: String)
        ensures
            r@ == display_upto(self.population(), self.population().len() as int),
    {
        display_living(&self.districts)
    }

    /// The title of the phase that the next step plays.
    pub fn get_category_title(&self) -> (r: String)
        ensures
            r@ == category_title(self.phase(), self.day_number()),
    {
        let mut out: Vec<char> = Vec::new();
        match self.state {
            EventCategory::Bloodbath => {
                push_str(&mut out, "The Bloodbath");
            },
            EventCategory::Day => {
                push_str(&mut out, "Day ");
                push_decimal(&mut out, self.day as u64);
            },
            EventCategory::FallenTributes => {
                push_str(&mut out, "Fallen Tributes - Day ");
                push_decimal(&mut out, self.day as u64);
            },
            EventCategory::Night => {
                push_str(&mut out, "Night ");
                push_decimal(&mut out, self.day as u64);
            },
            EventCategory::End => {
                push_str(&mut out, "The Winner");
            },
        }
        assert(out@ =~= category_title(self.phase(), self.day_number()));
        string_of(&out)
    }
}

/// Builds a game of the given districts and templates. A game needs at
/// least one template and at least one district.
pub fn build_sim(districts: Vec<District>, events: Vec<Event>, death_rate: DeathRate) -> (r: Result<
    Simulation,
    SimulationError,
>)
    requires
        distinct_ids(district_views(districts@)),
    ensures
        match r {
            Ok(sim) => events.len() > 0 && districts.len() > 0 && sim.is_fresh(
                district_views(districts@),
                event_views(events@),
                death_rate,
            ),
            Err(e) => if events.len() == 0 {
                e@ == SimulationErrorView::NoEvents
            } else {
                districts.len() == 0 && e@ == SimulationErrorView::NoDistricts
            },
        },
{
    if events.len() < 1 {
        return Err(SimulationError::NoEvents);
    }
    if districts.len() < 1 {
        return Err(SimulationError::NoDistricts);
    }
    Ok(Simulation::new(districts, events, death_rate))
}

/// Of two fetches in a row the first hands out all the pending results and
/// the second none, and the game is otherwise as it was.
pub proof fn law_fetch_twice(
    start: Simulation,
    between: Simulation,
    end: Simulation,
    first: Seq<EventResultView>,
    second: Seq<EventResultView>,
)
    requires
        Simulation::fetched(&start, &between, first),
        Simulation::fetched(&between, &end, second),
    ensures
        first == start.pending(),
        second == Seq::<EventResultView>::empty(),
        Simulation::fetched(&start, &end, first),
{
}

} // verus!
