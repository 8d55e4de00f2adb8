//! The event templates of one phase and the weighted, constrained draw of
//! one of them.

use vstd::prelude::*;
use crate::chance::{index_weights, sample_index, total_weight, weighted_index, WeightError};
use crate::event::{slot_keys, Event, EventView};
use crate::simulation::{SimulationError, SimulationErrorView};
use crate::tribute::Tribute;

verus! {

/// How many draws may be rejected before the rule of acceptance is relaxed.
pub const MAX_REJECTIONS: u32 = 25;

/// Why no choice by weight can be made among the weights, if none can:
/// there are none, one is negative, their sum is more than an `i32` holds,
/// or all are zero.
pub open spec fn weight_fault(weights: Seq<i32>) -> Option<WeightError> {
    if weights.len() == 0 {
        Some(WeightError::NoItem)
    } else if exists|i: int| 0 <= i < weights.len() && weights[i] < 0 {
        Some(WeightError::InvalidWeight)
    } else if total_weight(weights) > i32::MAX {
        Some(WeightError::InvalidWeight)
    } else if total_weight(weights) == 0 {
        Some(WeightError::AllWeightsZero)
    } else {
        None
    }
}

/// Whether a template fits: there are tributes enough in the pool for its
/// roles, and it leaves one of the living alive.
pub open spec fn fits(ev: EventView, pool: nat, living: nat) -> bool {
    slot_keys(ev.text).len() <= pool && ev.killed.len() + 1 <= living
}

/// Whether a drawn template is accepted: it fits; it kills, where a kill is
/// to be forced; and it kills exactly one, where two are living.
pub open spec fn accepted(ev: EventView, pool: nat, living: nat, force_fatal: bool) -> bool {
    &&& fits(ev, pool, living)
    &&& !(force_fatal && ev.killed.len() == 0)
    &&& (living == 2 ==> ev.killed.len() == 1)
}

/// Whether a drawn template is accepted under the relaxed rule: there are
/// tributes enough in the pool for its roles, and it kills nobody.
pub open spec fn accepted_relaxed(ev: EventView, pool: nat) -> bool {
    slot_keys(ev.text).len() <= pool && ev.killed.len() == 0
}

/// Whether a template can come out of a draw at all: its weight is above
/// zero, and it is accepted under the first or the relaxed rule.
pub open spec fn eligible(ev: EventView, pool: nat, living: nat, force_fatal: bool) -> bool {
    ev.weight > 0 && (accepted(ev, pool, living, force_fatal) || accepted_relaxed(ev, pool))
}

/// Whether a drawn template is taken once `rejections` draws have been
/// rejected: it is accepted, or 25 draws have been rejected and the relaxed
/// rule accepts it.
pub open spec fn admitted(
    ev: EventView,
    pool: nat,
    living: nat,
    force_fatal: bool,
    rejections: nat,
) -> bool {
    accepted(ev, pool, living, force_fatal) || (rejections >= 25 && accepted_relaxed(ev, pool))
}

/// Whether `e` is the error with which a draw from the templates, which
/// are not none, fails: the fault of their weights, if they have one; else
/// that none of them is eligible.
pub open spec fn is_draw_failure(
    templates: Seq<EventView>,
    pool: nat,
    living: nat,
    force_fatal: bool,
    e: SimulationErrorView,
) -> bool {
    match weight_fault(weights_of(templates)) {
        Some(source) => e == (SimulationErrorView::WeightedRandomError { source }),
        None => {
            &&& e == SimulationErrorView::NoEligibleEvent
            &&& forall|i: int|
                0 <= i < templates.len() ==> !eligible(
                    #[trigger] templates[i],
                    pool,
                    living,
                    force_fatal,
                )
        },
    }
}

/// Whether `r` is an outcome of drawing a template from `templates`, given
/// with the number of draws that were rejected before it.
///
/// An empty catalog gives no template. Where the weights allow no choice,
/// the draw fails with their fault. Else, where some template is eligible,
/// the draw gives a template of the catalog with a weight above zero that
/// is admitted after the rejections counted; where none is, it fails.
pub open spec fn is_counted_draw(
    templates: Seq<EventView>,
    pool: nat,
    living: nat,
    force_fatal: bool,
    r: Result<Option<(Event, u32)>, SimulationError>,
) -> bool {
    if templates.len() == 0 {
        r matches Ok(None)
    } else {
        match r {
            Ok(Some((ev, rejections))) => {
                &&& weight_fault(weights_of(templates)).is_none()
                &&& exists|i: int| 0 <= i < templates.len() && #[trigger] templates[i] == ev@
                &&& ev@.weight > 0
                &&& admitted(ev@, pool, living, force_fatal, rejections as nat)
            },
            Ok(None) => false,
            Err(e) => is_draw_failure(templates, pool, living, force_fatal, e@),
        }
    }
}

/// Whether `r` is an outcome of drawing a template from `templates`.
///
/// An empty catalog gives no template. Where the weights allow no choice,
/// the draw fails with their fault. Else, where some template is eligible,
/// the draw gives an eligible template of the catalog; where none is, it
/// fails.
pub open spec fn is_draw(
    templates: Seq<EventView>,
    pool: nat,
    living: nat,
    force_fatal: bool,
    r: Result<Option<Event>, SimulationError>,
) -> bool {
    if templates.len() == 0 {
        r matches Ok(None)
    } else {
        match r {
            Ok(Some(ev)) => {
                &&& weight_fault(weights_of(templates)).is_none()
                &&& exists|i: int| 0 <= i < templates.len() && #[trigger] templates[i] == ev@
                &&& eligible(ev@, pool, living, force_fatal)
            },
            Ok(None) => false,
            Err(e) => is_draw_failure(templates, pool, living, force_fatal, e@),
        }
    }
}

/// The sum of weights that are not negative is no less than the sum of
/// their first `i`.
pub proof fn lemma_total_grows(weights: Seq<i32>, i: int)
    requires
        0 <= i <= weights.len(),
        forall|k: int| 0 <= k < weights.len() ==> weights[k] >= 0,
    ensures
        0 <= total_weight(weights.take(i)) <= total_weight(weights),
    decreases weights.len() - i,
{
    if i == weights.len() {
        assert(weights.take(i) =~= weights);
        lemma_total_sign(weights);
    } else {
        lemma_total_grows(weights, i + 1);
        assert(weights.take(i + 1).drop_last() =~= weights.take(i));
        lemma_total_sign(weights.take(i));
    }
}

/// The sum of weights that are not negative is not negative, and zero only
/// where each of them is.
pub proof fn lemma_total_sign(weights: Seq<i32>)
    requires
        forall|k: int| 0 <= k < weights.len() ==> weights[k] >= 0,
    ensures
        total_weight(weights) >= 0,
        total_weight(weights) == 0 ==> forall|k: int| 0 <= k < weights.len() ==> weights[k] == 0,
    decreases weights.len(),
{
    if weights.len() > 0 {
        lemma_total_sign(weights.drop_last());
        assert forall|k: int| 0 <= k < weights.len() && total_weight(weights)
            == 0 implies weights[k] == 0 by {
            if k < weights.len() - 1 {
                assert(weights.drop_last()[k] == weights[k]);
            }
        }
    }
}

/// Of weights that are not negative, those that are each no more than their
/// counterpart add up to no more.
pub proof fn lemma_total_below(part: Seq<i32>, whole: Seq<i32>)
    requires
        part.len() == whole.len(),
        forall|k: int| 0 <= k < part.len() ==> 0 <= #[trigger] part[k] <= whole[k],
    ensures
        0 <= total_weight(part) <= total_weight(whole),
    decreases part.len(),
{
    if part.len() > 0 {
        lemma_total_below(part.drop_last(), whole.drop_last());
    }
}

/// Why no choice by weight can be made among the weights, if none can.
pub fn check_weights(weights: &Vec<i32>) -> (r: Option<WeightError>)
    ensures
        r == weight_fault(weights@),
{
    if weights.len() == 0 {
        return Some(WeightError::NoItem);
    }
    let mut i: usize = 0;
    while i < weights.len()
        invariant
            i <= weights.len(),
            forall|k: int| 0 <= k < i ==> weights[k] >= 0,
        decreases weights.len() - i,
    {
        if weights[i] < 0 {
            return Some(WeightError::InvalidWeight);
        }
        i += 1;
    }
    let mut sum: i32 = 0;
    let mut j: usize = 0;
    assert(weights@.take(0) =~= Seq::<i32>::empty());
    while j < weights.len()
        invariant
            j <= weights.len(),
            forall|k: int| 0 <= k < weights.len() ==> weights[k] >= 0,
            sum == total_weight(weights@.take(j as int)),
            0 <= sum,
        decreases weights.len() - j,
    {
        proof {
            assert(weights@.take(j + 1).drop_last() =~= weights@.take(j as int));
            lemma_total_grows(weights@, j + 1);
        }
        if weights[j] > i32::MAX - sum {
            return Some(WeightError::InvalidWeight);
        }
        sum = sum + weights[j];
        j += 1;
    }
    assert(weights@.take(weights.len() as int) =~= weights@);
    if sum == 0 {
        Some(WeightError::AllWeightsZero)
    } else {
        None
    }
}

/// Whether a drawn template is accepted.
pub fn accepts(ev: &Event, pool: usize, living: usize, force_fatal: bool) -> (r: bool)
    ensures
        r == accepted(ev@, pool as nat, living as nat, force_fatal),
{
    let kills = ev.killed.len();
    if ev.get_num_tributes_required() > pool || kills >= living {
        return false;
    }
    if force_fatal && kills == 0 {
        return false;
    }
    living != 2 || kills == 1
}

/// Whether a drawn template is taken once `rejections` draws have been
/// rejected.
pub fn admits(ev: &Event, pool: usize, living: usize, force_fatal: bool, rejections: u32) -> (r:
    bool)
    ensures
        r == admitted(ev@, pool as nat, living as nat, force_fatal, rejections as nat),
{
    accepts(ev, pool, living, force_fatal) || (rejections >= 25 && accepts_relaxed(ev, pool))
}

/// Whether a drawn template is accepted under the relaxed rule.
pub fn accepts_relaxed(ev: &Event, pool: usize) -> (r: bool)
    ensures
        r == accepted_relaxed(ev@, pool as nat),
{
    ev.get_num_tributes_required() <= pool && ev.killed.len() == 0
}

/// The event templates of one phase, with their weights.
#[derive(Debug)]
pub struct EventData {
    events: Vec<Event>,
    weights: Vec<i32>,
}

/// The templates of a sequence as what they are.
pub open spec fn event_views(v: Seq<Event>) -> Seq<EventView> {
    v.map_values(|e: Event| e@)
}

/// The weights of some templates.
pub open spec fn weights_of(events: Seq<EventView>) -> Seq<i32> {
    events.map_values(|e: EventView| e.weight)
}

/// A copy of some templates.
pub fn clone_events(events: &Vec<Event>) -> (r: Vec<Event>)
    ensures
        event_views(r@) == event_views(events@),
{
    let mut r: Vec<Event> = Vec::new();
    let mut i: usize = 0;
    while i < events.len()
        invariant
            i <= events.len(),
            event_views(r@) == event_views(events@).take(i as int),
        decreases events.len() - i,
    {
        let ghost before = event_views(r@);
        r.push(events[i].clone());
        assert(event_views(r@) =~= before.push(events@[i as int]@));
        assert(event_views(events@).take(i + 1) =~= event_views(events@).take(i as int).push(
            events@[i as int]@,
        ));
        i += 1;
    }
    assert(event_views(events@).take(events.len() as int) =~= event_views(events@));
    r
}

impl EventData {
    #[verifier::type_invariant]
    /// The weights are those of the templates, in their order.
    spec fn weights_match(self) -> bool {
        self.weights@ == weights_of(event_views(self.events@))
    }

    /// The templates of the catalog, in their order.
    pub closed spec fn templates(&self) -> Seq<EventView> {
        event_views(self.events@)
    }

    /// A catalog of the given templates.
    pub fn create(events_vec: Vec<Event>) -> (r: Self)
        ensures
            r.templates() == event_views(events_vec@),
    {
        let mut weights: Vec<i32> = Vec::new();
        let mut i: usize = 0;
        while i < events_vec.len()
            invariant
                i <= events_vec.len(),
                weights@ == weights_of(event_views(events_vec@)).take(i as int),
            decreases events_vec.len() - i,
        {
            weights.push(events_vec[i].weight);
            assert(weights@ =~= weights_of(event_views(events_vec@)).take(i + 1));
            i += 1;
        }
        assert(weights@ =~= weights_of(event_views(events_vec@)));
        EventData { events: events_vec, weights }
    }

    /// Whether some template of the catalog kills.
    pub fn has_fatal(&self) -> (r: bool)
        ensures
            r == exists|i: int|
                0 <= i < self.templates().len() && (#[trigger] self.templates()[i]).killed.len()
                    > 0,
    {
        let mut i: usize = 0;
        while i < self.events.len()
            invariant
                i <= self.events.len(),
                forall|k: int| 0 <= k < i ==> (#[trigger] self.templates()[k]).killed.len() == 0,
            decreases self.events.len() - i,
        {
            if self.events[i].killed.len() > 0 {
                assert(self.templates()[i as int].killed.len() > 0);
                return true;
            }
            i += 1;
        }
        false
    }

    /// Draws a template for the next event of a step, given the pool of
    /// tributes not yet bound in it, the number of the living, and whether
    /// a kill is to be forced; `None` from an empty catalog.
    ///
    /// Templates are drawn by weight until one is accepted. After
    /// `MAX_REJECTIONS` rejections the draw is made once more, among the
    /// templates that the first or the relaxed rule accepts; where there is
    /// none, the draw fails.
    pub fn get_random_event(&self, tributes: &Vec<Tribute>, living: usize, force_fatal: bool) -> (r:
        Result<Option<Event>, SimulationError>)
        ensures
            is_draw(
                self.templates(),
                tributes.len() as nat,
                living as nat,
                force_fatal,
                r,
            ),
    {
        match self.draw_counted(tributes, living, force_fatal) {
            Ok(Some((event, _))) => Ok(Some(event)),
            Ok(None) => Ok(None),
            Err(e) => Err(e),
        }
    }

    /// Draws a template as `get_random_event` does, and gives with it the
    /// number of draws that were rejected before it.
    pub fn draw_counted(&self, tributes: &Vec<Tribute>, living: usize, force_fatal: bool) -> (r:
        Result<Option<(Event, u32)>, SimulationError>)
        ensures
            is_counted_draw(
                self.templates(),
                tributes.len() as nat,
                living as nat,
                force_fatal,
                r,
            ),
    {
        proof {
            use_type_invariant(self);
        }
        if self.events.len() == 0 {
            return Ok(None);
        }
        match check_weights(&self.weights) {
            Some(source) => {
                return Err(SimulationError::WeightedRandomError { source });
            },
            None => {},
        }
        let pool = tributes.len();
        proof {
            lemma_total_sign(self.weights@);
        }
        let by_weight = match weighted_index(&self.weights) {
            Ok(index) => index,
            Err(source) => {
                return Err(SimulationError::WeightedRandomError { source });
            },
        };
        let mut rejections: u32 = 0;
        while rejections < MAX_REJECTIONS
            invariant
                rejections <= MAX_REJECTIONS,
                self.events.len() > 0,
                self.weights@ == weights_of(event_views(self.events@)),
                weight_fault(self.weights@).is_none(),
                index_weights(by_weight) == self.weights@,
                pool == tributes.len(),
            decreases MAX_REJECTIONS - rejections,
        {
            let index = sample_index(&by_weight);
            assert(self.templates()[index as int] == self.events@[index as int]@);
            assert(self.weights@[index as int] == self.events@[index as int].weight);
            if admits(&self.events[index], pool, living, force_fatal, rejections) {
                return Ok(Some((self.events[index].clone(), rejections)));
            }
            rejections += 1;
        }
        let mut narrowed: Vec<i32> = Vec::new();
        let mut i: usize = 0;
        while i < self.events.len()
            invariant
                i <= self.events.len(),
                rejections == MAX_REJECTIONS,
                self.weights@ == weights_of(event_views(self.events@)),
                pool == tributes.len(),
                narrowed.len() == i,
                forall|k: int|
                    0 <= k < i ==> #[trigger] narrowed[k] == if self.templates()[k].weight > 0
                        && admitted(
                        self.templates()[k],
                        pool as nat,
                        living as nat,
                        force_fatal,
                        rejections as nat,
                    ) {
                        self.weights[k]
                    } else {
                        0
                    },
            decreases self.events.len() - i,
        {
            assert(self.templates()[i as int] == self.events@[i as int]@);
            assert(self.weights@[i as int] == self.events@[i as int].weight);
            if self.events[i].weight > 0 && admits(
                &self.events[i],
                pool,
                living,
                force_fatal,
                rejections,
            ) {
                narrowed.push(self.events[i].weight);
            } else {
                narrowed.push(0);
            }
            i += 1;
        }
        proof {
            lemma_total_below(narrowed@, self.weights@);
            lemma_total_sign(narrowed@);
        }
        match weighted_index(&narrowed) {
            Ok(among_admitted) => {
                let index = sample_index(&among_admitted);
                assert(self.templates()[index as int] == self.events@[index as int]@);
                Ok(Some((self.events[index].clone(), rejections)))
            },
            Err(_) => {
                assert forall|k: int| 0 <= k < self.templates().len() implies !eligible(
                    #[trigger] self.templates()[k],
                    pool as nat,
                    living as nat,
                    force_fatal,
                ) by {
                    assert(narrowed[k] == 0);
                    assert(self.weights@[k] == self.templates()[k].weight);
                }
                Err(SimulationError::NoEligibleEvent)
            },
        }
    }

    /// The templates of the catalog.
    pub fn all_events(&self) -> (r: Vec<Event>)
        ensures
            event_views(r@) == self.templates(),
    {
        clone_events(&self.events)
    }
}

} // verus!
