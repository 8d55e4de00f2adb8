//! Event templates and their results: the roles of a template, and the
//! resolution of an event on the tributes bound to them.

use vstd::prelude::*;
use crate::binding::{
    binding_views,
    bound_to,
    first_unnumbered,
    ids_named,
    in_slot_order,
    keys_of,
    marked,
    sort_bindings,
    Binding,
};
use crate::chance::random_below;
use crate::district::clone_tributes;
use crate::draw::{drawn, left, lemma_draw_bag, lemma_draw_distinct, lemma_draw_len, valid_picks};
use crate::placeholder::{captures, find_captures, player_marker, player_word, seqs};
use crate::pronouns::PronounForm;
use crate::render::{agrees, rendered};
use crate::resolution::{
    law_binds_every_role,
    law_binds_the_bound,
    law_binds_without_repetition,
    law_kills_once,
    law_kills_symmetric,
};
use crate::text::{chars_equal, chars_of, string_of, to_upper_text, upper_text};
use crate::tribute::{ids_distinct, ids_of, Tribute};

verus! {

/// The phases of a game. Templates belong to `Bloodbath`, `Day` or `Night`.
#[derive(Debug, PartialEq, Eq, Clone, Copy, Structural)]
pub enum EventCategory {
    Bloodbath,
    Day,
    FallenTributes,
    Night,
    End,
}

/// An event template.
#[derive(Debug)]
pub struct Event {
    pub file_name: String,
    /// The narrative, with placeholders.
    pub text: String,
    /// The role placeholders, such as `(P2)`, of those who die.
    pub killed: Vec<String>,
    /// The role placeholders of those credited with a kill.
    pub killers: Vec<String>,
    pub category: EventCategory,
    /// The weight with which the template is drawn.
    pub weight: i32,
}

/// The strings of a sequence as character sequences.
pub open spec fn texts(v: Seq<String>) -> Seq<Seq<char>> {
    v.map_values(|s: String| s@)
}

/// What an event template is.
pub struct EventView {
    pub file_name: Seq<char>,
    pub text: Seq<char>,
    pub killed: Seq<Seq<char>>,
    pub killers: Seq<Seq<char>>,
    pub category: EventCategory,
    pub weight: i32,
}

impl View for Event {
    type V = EventView;

    open spec fn view(&self) -> EventView {
        EventView {
            file_name: self.file_name@,
            text: self.text@,
            killed: texts(self.killed@),
            killers: texts(self.killers@),
            category: self.category,
            weight: self.weight,
        }
    }
}

/// A copy of some strings.
pub fn clone_strings(v: &Vec<String>) -> (r: Vec<String>)
    ensures
        r@ == v@,
{
    let mut r: Vec<String> = Vec::new();
    let mut i: usize = 0;
    while i < v.len()
        invariant
            i <= v.len(),
            r@ == v@.take(i as int),
        decreases v.len() - i,
    {
        r.push(v[i].clone());
        i += 1;
    }
    r
}

impl Clone for Event {
    fn clone(&self) -> (r: Self)
        ensures
            r@ == self@,
    {
        Event {
            file_name: self.file_name.clone(),
            text: self.text.clone(),
            killed: clone_strings(&self.killed),
            killers: clone_strings(&self.killers),
            category: self.category,
            weight: self.weight,
        }
    }
}

/// The weight of a template that names none.
pub fn default_weight() -> (r: i32)
    ensures
        r == 50,
{
    50
}

/// The resolved, rendered outcome of one event.
#[derive(Debug)]
pub struct EventResult {
    pub text: String,
    /// The identities of those who died.
    pub killed: Vec<usize>,
    /// The identities of those credited with a kill.
    pub killers: Vec<usize>,
    /// The tributes bound to the roles of the event.
    pub tributes: Vec<Tribute>,
}

/// What an event result is.
pub struct EventResultView {
    pub text: Seq<char>,
    pub killed: Seq<usize>,
    pub killers: Seq<usize>,
    pub tributes: Seq<Tribute>,
}

impl View for EventResult {
    type V = EventResultView;

    open spec fn view(&self) -> EventResultView {
        EventResultView {
            text: self.text@,
            killed: self.killed@,
            killers: self.killers@,
            tributes: self.tributes@,
        }
    }
}

/// The results of a sequence as what they are.
pub open spec fn result_views(v: Seq<EventResult>) -> Seq<EventResultView> {
    v.map_values(|r: EventResult| r@)
}

impl Clone for EventResult {
    fn clone(&self) -> (r: Self)
        ensures
            r@ == self@,
    {
        EventResult {
            text: self.text.clone(),
            killed: self.killed.clone(),
            killers: self.killers.clone(),
            tributes: clone_tributes(&self.tributes),
        }
    }
}

/// Why an event could not be resolved.
#[derive(Debug)]
pub enum EventError {
    /// A placeholder names no slot: no digit stands before its closing
    /// bracket.
    MalformedPlaceholder { token: String },
    /// A pronoun or compound placeholder names a slot to which no tribute is
    /// bound. `player_num` is that slot.
    MissingPlayerIdentifier { event: String, player_num: i32 },
    /// The event has a victim without a killer, or a killer without a victim.
    MissingFieldsError { event: String },
}

/// What an event error is.
pub enum EventErrorView {
    MalformedPlaceholder { token: Seq<char> },
    MissingPlayerIdentifier { event: Seq<char>, player_num: i32 },
    MissingFieldsError { event: Seq<char> },
}

impl View for EventError {
    type V = EventErrorView;

    open spec fn view(&self) -> EventErrorView {
        match *self {
            EventError::MalformedPlaceholder { token } => EventErrorView::MalformedPlaceholder {
                token: token@,
            },
            EventError::MissingPlayerIdentifier {
                event,
                player_num,
            } => EventErrorView::MissingPlayerIdentifier { event: event@, player_num },
            EventError::MissingFieldsError { event } => EventErrorView::MissingFieldsError {
                event: event@,
            },
        }
    }
}

/// The result of an event of the template `ev` whose roles, in the order in
/// which they first occur, are bound to the tributes `bound`.
///
/// The bindings are taken in the order of their slots. A tribute whose role
/// is among the killed of the template is dead in the result and counts
/// among its killed; one whose role is among the killers counts among its
/// killers. An event with killed and no killers, or killers and no killed,
/// fails. Then the text is rendered.
pub open spec fn resolved(ev: EventView, bound: Seq<Tribute>) -> Result<
    EventResultView,
    EventErrorView,
> {
    let keys = slot_keys(ev.text);
    let bindings = bound_to(keys, bound);
    match first_unnumbered(keys, 0) {
        Some(token) => Err(EventErrorView::MalformedPlaceholder { token }),
        None => {
            let ordered = in_slot_order(bindings);
            let v = EventResultView {
                text: ev.text,
                killed: ids_named(ordered, ev.killed, ordered.len() as int),
                killers: ids_named(ordered, ev.killers, ordered.len() as int),
                tributes: marked(ordered, ev.killed),
            };
            if (v.killed.len() == 0) != (v.killers.len() == 0) {
                Err(EventErrorView::MissingFieldsError { event: ev.text })
            } else {
                rendered(v, bindings)
            }
        },
    }
}

/// The texts of a sequence without those that stood earlier in it.
pub open spec fn distinct(s: Seq<Seq<char>>) -> Seq<Seq<char>>
    decreases s.len(),
{
    if s.len() == 0 {
        s
    } else {
        let head = distinct(s.drop_last());
        if head.contains(s.last()) {
            head
        } else {
            head.push(s.last())
        }
    }
}

/// The roles of a text: its role placeholders in upper case, each once, in
/// the order in which they first occur.
pub open spec fn slot_keys(text: Seq<char>) -> Seq<Seq<char>> {
    distinct(captures(text, player_word()).map_values(|c: Seq<char>| upper_text(c)))
}

/// Whether `key` is among the texts `keys`.
pub fn contains_chars(keys: &Vec<Vec<char>>, key: &Vec<char>) -> (r: bool)
    ensures
        r == seqs(keys@).contains(key@),
{
    let mut i: usize = 0;
    while i < keys.len()
        invariant
            i <= keys.len(),
            forall|k: int| 0 <= k < i ==> seqs(keys@)[k] != key@,
        decreases keys.len() - i,
    {
        if chars_equal(&keys[i], key) {
            assert(seqs(keys@)[i as int] == key@);
            return true;
        }
        i += 1;
    }
    false
}

/// The roles of a text, in the order in which they first occur.
pub fn find_slot_keys(text: &Vec<char>) -> (r: Vec<Vec<char>>)
    ensures
        seqs(r@) == slot_keys(text@),
{
    let word = player_marker();
    let caps = find_captures(text, &word);
    let ghost upper = captures(text@, player_word()).map_values(|c: Seq<char>| upper_text(c));
    let mut keys: Vec<Vec<char>> = Vec::new();
    let mut i: usize = 0;
    while i < caps.len()
        invariant
            i <= caps.len(),
            seqs(caps@) == captures(text@, player_word()),
            upper == captures(text@, player_word()).map_values(|c: Seq<char>| upper_text(c)),
            seqs(keys@) == distinct(upper.take(i as int)),
        decreases caps.len() - i,
    {
        let key = to_upper_text(&caps[i]);
        proof {
            assert(upper.take(i + 1).drop_last() =~= upper.take(i as int));
            assert(seqs(caps@)[i as int] == caps@[i as int]@);
            assert(key@ == upper[i as int]);
        }
        if !contains_chars(&keys, &key) {
            let ghost before = seqs(keys@);
            keys.push(key);
            assert(seqs(keys@) =~= before.push(upper[i as int]));
        }
        i += 1;
    }
    assert(upper.take(caps.len() as int) =~= upper);
    keys
}

/// Whether `s` is among the strings `v`.
pub fn contains_string(v: &Vec<String>, s: &String) -> (r: bool)
    ensures
        r == texts(v@).contains(s@),
{
    let mut i: usize = 0;
    while i < v.len()
        invariant
            i <= v.len(),
            forall|k: int| 0 <= k < i ==> texts(v@)[k] != s@,
        decreases v.len() - i,
    {
        if v[i] == *s {
            assert(texts(v@)[i as int] == s@);
            return true;
        }
        i += 1;
    }
    false
}

impl EventResult {
    /// A result with the given text and nothing else.
    pub fn new(text: &str) -> (r: EventResult)
        ensures
            r@ == (EventResultView {
                text: text@,
                killed: Seq::empty(),
                killers: Seq::empty(),
                tributes: Seq::empty(),
            }),
    {
        EventResult {
            text: text.to_owned(),
            killed: Vec::new(),
            killers: Vec::new(),
            tributes: Vec::new(),
        }
    }
}

impl Event {
    /// The roles of the template.
    pub open spec fn roles(&self) -> Seq<Seq<char>> {
        slot_keys(self.text@)
    }

    /// The result of an event of this template whose roles, in the order in
    /// which they first occur, are bound to the tributes `bound`.
    pub fn resolve(&self, bound: Vec<Tribute>) -> (r: Result<EventResult, EventError>)
        requires
            bound.len() == self.roles().len(),
        ensures
            agrees(r, resolved(self@, bound@)),
    {
        let text = chars_of(self.text.as_str());
        let keys = find_slot_keys(&text);
        let ghost roles = slot_keys(self.text@);
        let ghost wanted = bound_to(roles, bound@);
        let mut bindings: Vec<Binding> = Vec::new();
        let mut i: usize = 0;
        while i < keys.len()
            invariant
                i <= keys.len(),
                keys.len() == bound.len(),
                seqs(keys@) == roles,
                wanted == bound_to(roles, bound@),
                binding_views(bindings@) == wanted.take(i as int),
            decreases keys.len() - i,
        {
            let ghost before = binding_views(bindings@);
            assert(seqs(keys@)[i as int] == keys@[i as int]@);
            bindings.push(Binding { key: string_of(&keys[i]), tribute: bound[i].clone() });
            assert(binding_views(bindings@) =~= before.push(wanted[i as int]));
            assert(wanted.take(i + 1) =~= wanted.take(i as int).push(wanted[i as int]));
            i += 1;
        }
        assert(wanted.take(keys.len() as int) =~= wanted);
        assert(keys_of(wanted) =~= roles);
        let ordered = sort_bindings(&bindings)?;
        let ghost target = in_slot_order(wanted);
        let mut killed: Vec<usize> = Vec::new();
        let mut killers: Vec<usize> = Vec::new();
        let mut tributes: Vec<Tribute> = Vec::new();
        let mut k: usize = 0;
        while k < ordered.len()
            invariant
                k <= ordered.len(),
                target == binding_views(ordered@),
                killed@ == ids_named(target, self@.killed, k as int),
                killers@ == ids_named(target, self@.killers, k as int),
                tributes@ == marked(target, self@.killed).take(k as int),
            decreases ordered.len() - k,
        {
            assert(target[k as int] == ordered@[k as int]@);
            let mut tribute = ordered[k].tribute.clone();
            if contains_string(&self.killed, &ordered[k].key) {
                tribute.kill();
                killed.push(tribute.get_id());
            }
            if contains_string(&self.killers, &ordered[k].key) {
                killers.push(tribute.get_id());
            }
            tributes.push(tribute);
            assert(tributes@ =~= marked(target, self@.killed).take(k + 1));
            k += 1;
        }
        assert(tributes@ =~= marked(target, self@.killed));
        if (killers.len() > 0 && killed.len() == 0) || (killed.len() > 0 && killers.len() == 0) {
            return Err(EventError::MissingFieldsError { event: self.text.clone() });
        }
        let result = EventResult { text: self.text.clone(), killed, killers, tributes };
        let result = result.replace_pronouns(PronounForm::Subject)?;
        let result = result.replace_pronouns(PronounForm::Object)?;
        let result = result.replace_pronouns(PronounForm::Possessive)?;
        let result = result.replace_pronouns(PronounForm::Reflexive)?;
        let result = result.replace_player_words()?;
        result.replace_players(bindings)
    }

    /// Resolves one event of this template: for each role, in the order in
    /// which the roles first occur, takes a tribute at random out of
    /// `tributes`, then resolves the template with them.
    pub fn get_result(&mut self, tributes: &mut Vec<Tribute>) -> (r: Result<
        EventResult,
        EventError,
    >)
        requires
            old(self).roles().len() <= old(tributes).len(),
        ensures
            *final(self) == *old(self),
            exists|picks: Seq<int>|
                {
                    &&& picks.len() == old(self).roles().len()
                    &&& valid_picks(old(tributes).len() as int, picks)
                    &&& final(tributes)@ == #[trigger] left(old(tributes)@, picks)
                    &&& agrees(r, resolved(old(self)@, drawn(old(tributes)@, picks)))
                },
            final(tributes).len() + old(self).roles().len() == old(tributes).len(),
            ids_distinct(old(tributes)@) ==> ids_distinct(final(tributes)@),
            r matches Ok(res) ==> {
                &&& res.tributes.len() == old(self).roles().len()
                &&& (res.killed.len() == 0) == (res.killers.len() == 0)
                &&& res.killed.len() <= old(self).killed.len()
                &&& ids_distinct(old(tributes)@) ==> ids_distinct(res.tributes@)
                    && res.killed@.no_duplicates()
                &&& ids_of(res.tributes@).to_multiset().add(
                    ids_of(final(tributes)@).to_multiset(),
                ) == ids_of(old(tributes)@).to_multiset()
                &&& forall|i: int|
                    0 <= i < res.killed.len() ==> ids_of(res.tributes@).contains(res.killed[i])
                &&& forall|i: int|
                    0 <= i < res.killers.len() ==> ids_of(res.tributes@).contains(res.killers[i])
            },
    {
        let needed = self.get_num_tributes_required();
        let ghost pool = tributes@;
        let ghost mut picks: Seq<int> = Seq::empty();
        let mut bound: Vec<Tribute> = Vec::new();
        while bound.len() < needed
            invariant
                needed <= pool.len(),
                bound.len() <= needed,
                picks.len() == bound.len(),
                valid_picks(pool.len() as int, picks),
                tributes@ == left(pool, picks),
                tributes.len() + bound.len() == pool.len(),
                bound@ == drawn(pool, picks),
            decreases needed - bound.len(),
        {
            let index = random_below(tributes.len());
            let tribute = tributes.remove(index);
            proof {
                let more = picks.push(index as int);
                assert(more.drop_last() =~= picks);
                picks = more;
            }
            bound.push(tribute);
        }
        let r = self.resolve(bound);
        proof {
            lemma_draw_len(pool, picks);
            law_kills_symmetric(self@, drawn(pool, picks));
            law_binds_every_role(self@, drawn(pool, picks));
            law_binds_the_bound(self@, drawn(pool, picks));
            lemma_draw_bag(pool, picks);
            if ids_distinct(pool) {
                lemma_draw_distinct(pool, picks);
                law_binds_without_repetition(self@, drawn(pool, picks));
                law_kills_once(self@, drawn(pool, picks));
            }
            assert(tributes@ == left(pool, picks));
        }
        r
    }

    /// The text of the template.
    pub fn get_text(&self) -> (r: String)
        ensures
            r@ == self.text@,
    {
        self.text.clone()
    }

    /// The number of roles of the template, which is the number of tributes
    /// that an event of it binds.
    pub fn get_num_tributes_required(&self) -> (r: usize)
        ensures
            r == self.roles().len(),
    {
        let text = chars_of(self.text.as_str());
        let keys = find_slot_keys(&text);
        keys.len()
    }
}

} // verus!
