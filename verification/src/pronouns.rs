//! Grammatical pronoun categories and the four pronoun forms of each.

use vstd::prelude::*;
use vstd::string::StringExecFns;
use crate::text::{ascii_upper, chars_of, string_of, to_ascii_upper};

verus! {

/// The pronoun category of a tribute.
#[derive(Debug, PartialEq, Eq, Clone, Copy, Structural)]
pub enum Pronouns {
    He,
    She,
    They,
    It,
}

/// The grammatical form that a pronoun placeholder asks for.
#[derive(Debug, PartialEq, Eq, Clone, Copy, Structural)]
pub enum PronounForm {
    /// "they"
    Subject,
    /// "them"
    Object,
    /// "their"
    Possessive,
    /// "themself"
    Reflexive,
}

/// Whether a character is an upper-case character of Unicode.
pub uninterp spec fn is_uppercase_char(c: char) -> bool;

/// `char::is_uppercase` of std: whether the character is an upper-case
/// character of Unicode. Among the ASCII characters those are the letters
/// `A` to `Z`.
pub assume_specification[ char::is_uppercase ](c: char) -> (b: bool)
    ensures
        b == is_uppercase_char(c),
        (c as u32) < 128 ==> b == ('A' <= c && c <= 'Z'),
;

/// The lower-case pronoun of a category in a form.
pub open spec fn pronoun_word(form: PronounForm, prns: Pronouns) -> Seq<char> {
    match form {
        PronounForm::Subject => match prns {
            Pronouns::He => "he"@,
            Pronouns::She => "she"@,
            Pronouns::They => "they"@,
            Pronouns::It => "it"@,
        },
        PronounForm::Object => match prns {
            Pronouns::He => "him"@,
            Pronouns::She => "her"@,
            Pronouns::They => "them"@,
            Pronouns::It => "it"@,
        },
        PronounForm::Possessive => match prns {
            Pronouns::He => "his"@,
            Pronouns::She => "her"@,
            Pronouns::They => "their"@,
            Pronouns::It => "its"@,
        },
        PronounForm::Reflexive => match prns {
            Pronouns::He => "himself"@,
            Pronouns::She => "herself"@,
            Pronouns::They => "themself"@,
            Pronouns::It => "itself"@,
        },
    }
}

/// A text with its first character, where that is an ASCII letter, in upper
/// case.
pub open spec fn capitalized(s: Seq<char>) -> Seq<char> {
    if s.len() == 0 {
        s
    } else {
        seq![ascii_upper(s[0])] + s.skip(1)
    }
}

/// The text that stands for a pronoun placeholder: the pronoun of the
/// category in the form, capitalized where the placeholder was.
pub open spec fn pronoun_text(form: PronounForm, prns: Pronouns, capital: bool) -> Seq<char> {
    if capital {
        capitalized(pronoun_word(form, prns))
    } else {
        pronoun_word(form, prns)
    }
}

/// Whether a placeholder asks for a capitalized pronoun: whether its second
/// character, the one behind the opening bracket, is an upper-case letter.
pub open spec fn asks_capital(token: Seq<char>) -> bool
    recommends
        token.len() >= 2,
{
    is_uppercase_char(token[1])
}

/// Whether a placeholder whose second character is an ASCII character asks
/// for a capitalized pronoun: whether that character is a letter from `A` to
/// `Z`.
pub open spec fn starts_upper(token: Seq<char>) -> bool
    recommends
        token.len() >= 2,
{
    'A' <= token[1] && token[1] <= 'Z'
}

/// Whether the second character of `s` is an upper-case letter.
pub fn is_first_character_upper(s: &str) -> (r: bool)
    requires
        s@.len() >= 2,
    ensures
        r == asks_capital(s@),
        (s@[1] as u32) < 128 ==> asks_capital(s@) == starts_upper(s@),
{
    let c = s.get_char(1);
    c.is_uppercase()
}

/// The lower-case pronoun of a category in a form.
pub fn pronoun_lower(form: PronounForm, prns: &Pronouns) -> (r: &'static str)
    ensures
        r@ == pronoun_word(form, *prns),
{
    match form {
        PronounForm::Subject => match prns {
            Pronouns::He => "he",
            Pronouns::She => "she",
            Pronouns::They => "they",
            Pronouns::It => "it",
        },
        PronounForm::Object => match prns {
            Pronouns::He => "him",
            Pronouns::She => "her",
            Pronouns::They => "them",
            Pronouns::It => "it",
        },
        PronounForm::Possessive => match prns {
            Pronouns::He => "his",
            Pronouns::She => "her",
            Pronouns::They => "their",
            Pronouns::It => "its",
        },
        PronounForm::Reflexive => match prns {
            Pronouns::He => "himself",
            Pronouns::She => "herself",
            Pronouns::They => "themself",
            Pronouns::It => "itself",
        },
    }
}

/// The text with its first character, where that is an ASCII letter, in
/// upper case.
pub fn some_kind_of_uppercase_first_letter(s: &str) -> (r: String)
    ensures
        r@ == capitalized(s@),
{
    let mut chars = chars_of(s);
    if chars.len() == 0 {
        return string_of(&chars);
    }
    let first = to_ascii_upper(chars[0]);
    chars.set(0, first);
    assert(chars@ =~= capitalized(s@));
    string_of(&chars)
}

/// The pronoun of a category in a form, capitalized or not.
pub fn pronoun_in_case(form: PronounForm, prns: &Pronouns, capital: bool) -> (r: String)
    ensures
        r@ == pronoun_text(form, *prns, capital),
{
    let word = pronoun_lower(form, prns);
    if capital {
        some_kind_of_uppercase_first_letter(word)
    } else {
        String::from_str(word)
    }
}

/// The pronoun of a category in a form, capitalized where the placeholder
/// `token` asks for it.
pub fn pronoun_for(form: PronounForm, prns: &Pronouns, token: &str) -> (r: String)
    requires
        token@.len() >= 2,
    ensures
        r@ == pronoun_text(form, *prns, asks_capital(token@)),
        (token@[1] as u32) < 128 ==> asks_capital(token@) == starts_upper(token@),
{
    let capital = is_first_character_upper(token);
    pronoun_in_case(form, prns, capital)
}

/// The subject pronoun ("they") of a category for the placeholder `token`.
pub fn they(prns: &Pronouns, token: String) -> (r: String)
    requires
        token@.len() >= 2,
    ensures
        r@ == pronoun_text(PronounForm::Subject, *prns, asks_capital(token@)),
        (token@[1] as u32) < 128 ==> asks_capital(token@) == starts_upper(token@),
{
    pronoun_for(PronounForm::Subject, prns, token.as_str())
}

/// The object pronoun ("them") of a category for the placeholder `token`.
pub fn them(prns: &Pronouns, token: String) -> (r: String)
    requires
        token@.len() >= 2,
    ensures
        r@ == pronoun_text(PronounForm::Object, *prns, asks_capital(token@)),
        (token@[1] as u32) < 128 ==> asks_capital(token@) == starts_upper(token@),
{
    pronoun_for(PronounForm::Object, prns, token.as_str())
}

/// The possessive pronoun ("their") of a category for the placeholder
/// `token`.
pub fn their(prns: &Pronouns, token: String) -> (r: String)
    requires
        token@.len() >= 2,
    ensures
        r@ == pronoun_text(PronounForm::Possessive, *prns, asks_capital(token@)),
        (token@[1] as u32) < 128 ==> asks_capital(token@) == starts_upper(token@),
{
    pronoun_for(PronounForm::Possessive, prns, token.as_str())
}

/// The reflexive pronoun ("themself") of a category for the placeholder
/// `token`.
pub fn themself(prns: &Pronouns, token: String) -> (r: String)
    requires
        token@.len() >= 2,
    ensures
        r@ == pronoun_text(PronounForm::Reflexive, *prns, asks_capital(token@)),
        (token@[1] as u32) < 128 ==> asks_capital(token@) == starts_upper(token@),
{
    pronoun_for(PronounForm::Reflexive, prns, token.as_str())
}

} // verus!
