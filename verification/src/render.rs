//! The rendering of the text of an event: pronouns, compound placeholders
//! and names, put in for the placeholders one pass after the other.

use vstd::prelude::*;
use crate::binding::{
    binding_views,
    first_unnumbered,
    in_slot_order,
    keys_of,
    sort_bindings,
    Binding,
    BindingView,
};
use crate::event::{EventError, EventErrorView, EventResult, EventResultView};
use crate::placeholder::{
    captures,
    compound_views,
    compounds,
    find_captures,
    find_compounds,
    form_marker,
    form_word,
    get_tribute_num,
    lemma_capture_len,
    letter_matches,
    seqs,
    slot_number,
    CompoundView,
};
use crate::pronouns::{
    pronoun_text,
    starts_upper,
    their,
    them,
    themself,
    they,
    PronounForm,
    Pronouns,
};
use crate::text::{chars_of, copy_chars, replace_all, replaced, string_of};
use crate::tribute::Tribute;

verus! {

/// The tribute of the slot that the placeholder `capture` names, among the
/// tributes bound to an event in the order of their slots. Slot 1 is the
/// first of them. `event` is the text under work, for the error.
pub open spec fn lookup(capture: Seq<char>, tributes: Seq<Tribute>, event: Seq<char>) -> Result<
    Tribute,
    EventErrorView,
> {
    match slot_number(capture) {
        None => Err(EventErrorView::MalformedPlaceholder { token: capture }),
        Some(n) => if 1 <= n && n <= tributes.len() {
            Ok(tributes[n - 1])
        } else {
            Err(EventErrorView::MissingPlayerIdentifier { event, player_num: n as i32 })
        },
    }
}

/// The text `acc` after the pronoun placeholders `caps[k..]` of a form, one
/// after the other, have each been replaced wherever they occur by the
/// pronoun of their tribute, capitalized where the marker word of the
/// placeholder starts with a capital letter; or the error of the first of
/// them that names no bound tribute.
pub open spec fn pronouns_replaced_from(
    caps: Seq<Seq<char>>,
    k: int,
    acc: Seq<char>,
    tributes: Seq<Tribute>,
    form: PronounForm,
    event: Seq<char>,
) -> Result<Seq<char>, EventErrorView>
    decreases caps.len() - k,
{
    if k < 0 || k >= caps.len() {
        Ok(acc)
    } else {
        match lookup(caps[k], tributes, event) {
            Err(e) => Err(e),
            Ok(t) => pronouns_replaced_from(
                caps,
                k + 1,
                replaced(acc, caps[k], pronoun_text(form, t.pronouns, starts_upper(caps[k])), false),
                tributes,
                form,
                event,
            ),
        }
    }
}

/// `text` with its pronoun placeholders of a form replaced.
pub open spec fn pronouns_replaced(text: Seq<char>, tributes: Seq<Tribute>, form: PronounForm) -> Result<
    Seq<char>,
    EventErrorView,
> {
    pronouns_replaced_from(captures(text, form_word(form)), 0, text, tributes, form, text)
}

/// The word of a compound placeholder that stands for a tribute: the first,
/// or for one of the category `They` the second.
pub open spec fn chosen_word(c: CompoundView, prns: Pronouns) -> Seq<char> {
    if prns == Pronouns::They {
        c.second
    } else {
        c.first
    }
}

/// The text `acc` after the compound placeholders `found[k..]`, one after
/// the other, have each been replaced wherever they occur by the word that
/// stands for their tribute; or the error of the first of them that names no
/// bound tribute.
pub open spec fn words_replaced_from(
    found: Seq<CompoundView>,
    k: int,
    acc: Seq<char>,
    tributes: Seq<Tribute>,
    event: Seq<char>,
) -> Result<Seq<char>, EventErrorView>
    decreases found.len() - k,
{
    if k < 0 || k >= found.len() {
        Ok(acc)
    } else {
        match lookup(found[k].token, tributes, event) {
            Err(e) => Err(e),
            Ok(t) => words_replaced_from(
                found,
                k + 1,
                replaced(acc, found[k].whole, chosen_word(found[k], t.pronouns), false),
                tributes,
                event,
            ),
        }
    }
}

/// `text` with its compound placeholders replaced.
pub open spec fn words_replaced(text: Seq<char>, tributes: Seq<Tribute>) -> Result<
    Seq<char>,
    EventErrorView,
> {
    words_replaced_from(compounds(text), 0, text, tributes, text)
}

/// The text `acc` after the roles of the bindings `ordered[k..]`, one after
/// the other, have each been replaced by the name of their tribute wherever
/// they occur, in upper or lower case.
pub open spec fn names_replaced_from(ordered: Seq<BindingView>, k: int, acc: Seq<char>) -> Seq<char>
    decreases ordered.len() - k,
{
    if k < 0 || k >= ordered.len() {
        acc
    } else {
        names_replaced_from(
            ordered,
            k + 1,
            replaced(acc, ordered[k].key, ordered[k].tribute.name@, true),
        )
    }
}

/// `text` with the roles of the bindings replaced by the names of their
/// tributes, in the order of their slots; or the error of the first role
/// that names no slot.
pub open spec fn names_replaced(text: Seq<char>, bindings: Seq<BindingView>) -> Result<
    Seq<char>,
    EventErrorView,
> {
    match first_unnumbered(keys_of(bindings), 0) {
        Some(token) => Err(EventErrorView::MalformedPlaceholder { token }),
        None => Ok(names_replaced_from(in_slot_order(bindings), 0, text)),
    }
}

/// The model of a result with another text.
pub open spec fn with_text(v: EventResultView, text: Result<Seq<char>, EventErrorView>) -> Result<
    EventResultView,
    EventErrorView,
> {
    match text {
        Ok(t) => Ok(EventResultView { text: t, ..v }),
        Err(e) => Err(e),
    }
}

/// A result after the passes that render its text: the pronouns of the four
/// forms, subject, object, possessive and reflexive, then the compound
/// placeholders, then the names; or the error of the first pass that fails.
pub open spec fn rendered(v: EventResultView, bindings: Seq<BindingView>) -> Result<
    EventResultView,
    EventErrorView,
> {
    match with_text(v, pronouns_replaced(v.text, v.tributes, PronounForm::Subject)) {
        Err(e) => Err(e),
        Ok(v1) => match with_text(v1, pronouns_replaced(v1.text, v1.tributes, PronounForm::Object)) {
            Err(e) => Err(e),
            Ok(v2) => match with_text(
                v2,
                pronouns_replaced(v2.text, v2.tributes, PronounForm::Possessive),
            ) {
                Err(e) => Err(e),
                Ok(v3) => match with_text(
                    v3,
                    pronouns_replaced(v3.text, v3.tributes, PronounForm::Reflexive),
                ) {
                    Err(e) => Err(e),
                    Ok(v4) => match with_text(v4, words_replaced(v4.text, v4.tributes)) {
                        Err(e) => Err(e),
                        Ok(v5) => with_text(v5, names_replaced(v5.text, bindings)),
                    },
                },
            },
        },
    }
}

/// Whether a result of the library is what a result of its model says.
pub open spec fn agrees(r: Result<EventResult, EventError>, model: Result<
    EventResultView,
    EventErrorView,
>) -> bool {
    match model {
        Ok(v) => r.is_ok() && r.unwrap()@ == v,
        Err(e) => r.is_err() && r.unwrap_err()@ == e,
    }
}

/// The tribute of the slot that the placeholder `capture` names.
pub fn find_tribute<'a>(capture: &Vec<char>, tributes: &'a Vec<Tribute>, event: &Vec<char>) -> (r:
    Result<&'a Tribute, EventError>)
    ensures
        match lookup(capture@, tributes@, event@) {
            Ok(t) => r.is_ok() && *r.unwrap() == t,
            Err(e) => r.is_err() && r.unwrap_err()@ == e,
        },
{
    match get_tribute_num(capture) {
        None => Err(EventError::MalformedPlaceholder { token: string_of(capture) }),
        Some(n) => {
            if 1 <= n && (n as usize) <= tributes.len() {
                Ok(&tributes[(n - 1) as usize])
            } else {
                Err(
                    EventError::MissingPlayerIdentifier {
                        event: string_of(event),
                        player_num: n as i32,
                    },
                )
            }
        },
    }
}

impl EventResult {
    /// Replaces the role placeholders in the text by the names of the
    /// tributes bound to them, in the order of their slots.
    pub fn replace_players(self, bindings: Vec<Binding>) -> (r: Result<EventResult, EventError>)
        ensures
            agrees(r, with_text(self@, names_replaced(self.text@, binding_views(bindings@)))),
    {
        let ordered = sort_bindings(&bindings)?;
        let ghost target = binding_views(ordered@);
        let mut acc = chars_of(self.text.as_str());
        let mut k: usize = 0;
        while k < ordered.len()
            invariant
                k <= ordered.len(),
                target == binding_views(ordered@),
                names_replaced_from(target, 0, self.text@) == names_replaced_from(
                    target,
                    k as int,
                    acc@,
                ),
            decreases ordered.len() - k,
        {
            assert(target[k as int] == ordered@[k as int]@);
            let key = chars_of(ordered[k].key.as_str());
            let name = chars_of(ordered[k].tribute.name.as_str());
            acc = replace_all(&acc, &key, &name, true);
            k += 1;
        }
        Ok(
            EventResult {
                text: string_of(&acc),
                killed: self.killed,
                killers: self.killers,
                tributes: self.tributes,
            },
        )
    }

    /// Replaces the pronoun placeholders of a form in the text, each wherever
    /// it occurs, by the pronoun of the tribute in its slot.
    pub fn replace_pronouns(self, form: PronounForm) -> (r: Result<EventResult, EventError>)
        ensures
            agrees(r, with_text(self@, pronouns_replaced(self.text@, self.tributes@, form))),
    {
        let text = chars_of(self.text.as_str());
        let word = form_marker(form);
        let caps = find_captures(&text, &word);
        let mut acc = copy_chars(&text);
        let mut k: usize = 0;
        while k < caps.len()
            invariant
                k <= caps.len(),
                text@ == self.text@,
                seqs(caps@) == captures(text@, form_word(form)),
                pronouns_replaced(self.text@, self.tributes@, form) == pronouns_replaced_from(
                    seqs(caps@),
                    k as int,
                    acc@,
                    self.tributes@,
                    form,
                    text@,
                ),
            decreases caps.len() - k,
        {
            assert(seqs(caps@)[k as int] == caps@[k as int]@);
            let tribute = find_tribute(&caps[k], &self.tributes, &text)?;
            proof {
                lemma_capture_len(text@, form_word(form), k as int);
                let head = caps@[k as int]@[1];
                assert(letter_matches(head, form_word(form)[0]));
                assert(form_word(form)[0] == 't');
                assert(head == 't' || head == 'T');
            }
            let token = string_of(&caps[k]);
            let pronoun = match form {
                PronounForm::Subject => they(&tribute.pronouns, token),
                PronounForm::Object => them(&tribute.pronouns, token),
                PronounForm::Possessive => their(&tribute.pronouns, token),
                PronounForm::Reflexive => themself(&tribute.pronouns, token),
            };
            let rep = chars_of(pronoun.as_str());
            acc = replace_all(&acc, &caps[k], &rep, false);
            k += 1;
        }
        Ok(
            EventResult {
                text: string_of(&acc),
                killed: self.killed,
                killers: self.killers,
                tributes: self.tributes,
            },
        )
    }

    /// Replaces the compound placeholders in the text, each wherever it
    /// occurs, by the word that stands for the tribute in its slot.
    pub fn replace_player_words(self) -> (r: Result<EventResult, EventError>)
        ensures
            agrees(r, with_text(self@, words_replaced(self.text@, self.tributes@))),
    {
        let text = chars_of(self.text.as_str());
        let found = find_compounds(&text);
        let mut acc = copy_chars(&text);
        let mut k: usize = 0;
        while k < found.len()
            invariant
                k <= found.len(),
                text@ == self.text@,
                compound_views(found@) == compounds(text@),
                words_replaced(self.text@, self.tributes@) == words_replaced_from(
                    compound_views(found@),
                    k as int,
                    acc@,
                    self.tributes@,
                    text@,
                ),
            decreases found.len() - k,
        {
            assert(compound_views(found@)[k as int] == found@[k as int]@);
            let tribute = find_tribute(&found[k].token, &self.tributes, &text)?;
            if tribute.pronouns == Pronouns::They {
                acc = replace_all(&acc, &found[k].whole, &found[k].second, false);
            } else {
                acc = replace_all(&acc, &found[k].whole, &found[k].first, false);
            }
            k += 1;
        }
        Ok(
            EventResult {
                text: string_of(&acc),
                killed: self.killed,
                killers: self.killers,
                tributes: self.tributes,
            },
        )
    }
}

} // verus!
