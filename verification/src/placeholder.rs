//! The placeholders of an event text.
//!
//! A placeholder starts with an opening bracket, a marker word written in
//! any case and a digit from 1 to 9, and runs up to the next closing
//! bracket: `(P1)` marks a role, `(they1)`, `(them1)`, `(their1)` and
//! `(themself1)` a pronoun of the tribute in a role. A role placeholder
//! directly followed by a bracketed pair of words, `(P1)(son/child)`, is a
//! compound placeholder. The character before the closing bracket of a
//! placeholder is the digit of its slot.

use vstd::prelude::*;
use crate::pronouns::PronounForm;
use crate::text::{ascii_upper, slice_chars, to_ascii_upper};

verus! {

/// The character vectors of a sequence as character sequences.
pub open spec fn seqs(v: Seq<Vec<char>>) -> Seq<Seq<char>> {
    v.map_values(|x: Vec<char>| x@)
}

/// Whether `c` is the lower-case ASCII letter `letter` in any case. The long
/// s counts as a case of `s`, and the Kelvin sign as a case of `k`.
pub open spec fn letter_matches(c: char, letter: char) -> bool {
    c == letter || c == ascii_upper(letter) || (letter == 's' && c == '\u{17f}') || (letter == 'k'
        && c == '\u{212a}')
}

/// Whether the letters of `word`, in any case, stand in `text` at `at`.
pub open spec fn word_at(text: Seq<char>, word: Seq<char>, at: int) -> bool {
    &&& 0 <= at
    &&& at + word.len() <= text.len()
    &&& forall|k: int| 0 <= k < word.len() ==> letter_matches(text[at + k], #[trigger] word[k])
}

/// Whether `c` is a digit that can follow a marker word.
pub open spec fn is_slot_digit(c: char) -> bool {
    '1' <= c && c <= '9'
}

/// Whether a placeholder of the marker `word` may start at `at`: an opening
/// bracket, the word, and a digit from 1 to 9.
pub open spec fn head_at(text: Seq<char>, word: Seq<char>, at: int) -> bool {
    &&& 0 <= at
    &&& at + word.len() + 2 <= text.len()
    &&& text[at] == '('
    &&& word_at(text, word, at + 1)
    &&& is_slot_digit(text[at + 1 + word.len()])
}

/// The index of the first closing bracket at or after `from`, or the length
/// of the text where there is none.
pub open spec fn first_close(text: Seq<char>, from: int) -> int
    decreases text.len() - from,
{
    if from < 0 || from >= text.len() {
        text.len() as int
    } else if text[from] == ')' {
        from
    } else {
        first_close(text, from + 1)
    }
}

/// Whether a placeholder of the marker `word` starts at `at`.
pub open spec fn token_at(text: Seq<char>, word: Seq<char>, at: int) -> bool {
    head_at(text, word, at) && first_close(text, at + word.len() + 2) < text.len()
}

/// The index behind the placeholder that starts at `at`.
pub open spec fn token_end(text: Seq<char>, word: Seq<char>, at: int) -> int {
    first_close(text, at + word.len() + 2) + 1
}

/// The placeholders of the marker `word` in `text` from `pos` on, each as
/// the text it covers, from left to right and without overlap.
pub open spec fn captures_from(text: Seq<char>, word: Seq<char>, pos: int) -> Seq<Seq<char>>
    decreases text.len() - pos,
{
    if pos < 0 || pos >= text.len() {
        Seq::empty()
    } else if token_at(text, word, pos) {
        proof {
            lemma_first_close(text, pos + word.len() + 2);
        }
        seq![text.subrange(pos, token_end(text, word, pos))] + captures_from(
            text,
            word,
            token_end(text, word, pos),
        )
    } else {
        captures_from(text, word, pos + 1)
    }
}

/// The placeholders of the marker `word` in `text`.
pub open spec fn captures(text: Seq<char>, word: Seq<char>) -> Seq<Seq<char>> {
    captures_from(text, word, 0)
}

/// The marker word of a role placeholder.
pub open spec fn player_word() -> Seq<char> {
    seq!['p']
}

/// The marker word of the pronoun placeholders of a form.
pub open spec fn form_word(form: PronounForm) -> Seq<char> {
    match form {
        PronounForm::Subject => seq!['t', 'h', 'e', 'y'],
        PronounForm::Object => seq!['t', 'h', 'e', 'm'],
        PronounForm::Possessive => seq!['t', 'h', 'e', 'i', 'r'],
        PronounForm::Reflexive => seq!['t', 'h', 'e', 'm', 's', 'e', 'l', 'f'],
    }
}

/// Whether `c` can stand in a word of a compound placeholder: an ASCII
/// letter or digit, an apostrophe, an underscore, a hyphen or an ampersand,
/// and, in the first word only, a space. The long s and the Kelvin sign
/// count as letters.
pub open spec fn is_pair_char(c: char, with_space: bool) -> bool {
    ||| ('0' <= c && c <= '9')
    ||| ('a' <= c && c <= 'z')
    ||| ('A' <= c && c <= 'Z')
    ||| c == '\''
    ||| c == '_'
    ||| c == '-'
    ||| c == '&'
    ||| c == '\u{17f}'
    ||| c == '\u{212a}'
    ||| (with_space && c == ' ')
}

/// The index behind the longest run of word characters that starts at
/// `from`.
pub open spec fn run_end(text: Seq<char>, from: int, with_space: bool) -> int
    decreases text.len() - from,
{
    if from < 0 || from >= text.len() {
        text.len() as int
    } else if is_pair_char(text[from], with_space) {
        run_end(text, from + 1, with_space)
    } else {
        from
    }
}

/// A compound placeholder: the text it covers, the role placeholder at its
/// start, and its two words.
pub struct CompoundView {
    pub whole: Seq<char>,
    pub token: Seq<char>,
    pub first: Seq<char>,
    pub second: Seq<char>,
}

/// The compound placeholder that starts at `at`, if one does: a role
/// placeholder, an opening bracket, a first word, a slash, a second word and
/// a closing bracket, the words not empty.
pub open spec fn compound_at(text: Seq<char>, at: int) -> Option<CompoundView> {
    let open = token_end(text, player_word(), at);
    let slash = run_end(text, open + 1, true);
    let close = run_end(text, slash + 1, false);
    if token_at(text, player_word(), at) && open < text.len() && text[open] == '(' && open + 1
        < slash && slash < text.len() && text[slash] == '/' && slash + 1 < close && close
        < text.len() && text[close] == ')' {
        Some(
            CompoundView {
                whole: text.subrange(at, close + 1),
                token: text.subrange(at, open),
                first: text.subrange(open + 1, slash),
                second: text.subrange(slash + 1, close),
            },
        )
    } else {
        None
    }
}

/// The compound placeholders of `text` from `pos` on, from left to right and
/// without overlap.
pub open spec fn compounds_from(text: Seq<char>, pos: int) -> Seq<CompoundView>
    decreases text.len() - pos,
{
    if pos < 0 || pos >= text.len() {
        Seq::empty()
    } else {
        match compound_at(text, pos) {
            Some(c) => {
                proof {
                    lemma_first_close(text, pos + 3);
                }
                seq![c] + compounds_from(text, pos + c.whole.len())
            },
            None => compounds_from(text, pos + 1),
        }
    }
}

/// The compound placeholders of `text`.
pub open spec fn compounds(text: Seq<char>) -> Seq<CompoundView> {
    compounds_from(text, 0)
}

/// The slot that a placeholder names: the digit before its closing bracket,
/// or `None` where no digit stands there.
pub open spec fn slot_number(capture: Seq<char>) -> Option<u32> {
    if capture.len() < 2 {
        None
    } else {
        let c = capture[capture.len() - 2];
        if '0' <= c && c <= '9' {
            Some(((c as u32) - ('0' as u32)) as u32)
        } else {
            None
        }
    }
}

/// The closing bracket of a placeholder that starts at `at` lies behind its
/// head and within the text, and no closing bracket stands between.
pub proof fn lemma_first_close(text: Seq<char>, from: int)
    requires
        0 <= from <= text.len(),
    ensures
        from <= first_close(text, from) <= text.len(),
        first_close(text, from) < text.len() ==> text[first_close(text, from)] == ')',
        forall|j: int| from <= j < first_close(text, from) ==> text[j] != ')',
    decreases text.len() - from,
{
    if from < text.len() && text[from] != ')' {
        lemma_first_close(text, from + 1);
    }
}

/// Every placeholder found covers at least its brackets, its marker word
/// and a digit, and the marker word stands behind its opening bracket.
pub proof fn lemma_capture_len(text: Seq<char>, word: Seq<char>, k: int)
    requires
        0 <= k < captures(text, word).len(),
    ensures
        captures(text, word)[k].len() >= word.len() + 3,
        word_at(captures(text, word)[k], word, 1),
{
    lemma_captures_from_len(text, word, 0, k);
}

/// The same of the placeholders found from `pos` on.
proof fn lemma_captures_from_len(text: Seq<char>, word: Seq<char>, pos: int, k: int)
    requires
        0 <= pos,
        0 <= k < captures_from(text, word, pos).len(),
    ensures
        captures_from(text, word, pos)[k].len() >= word.len() + 3,
        word_at(captures_from(text, word, pos)[k], word, 1),
    decreases text.len() - pos,
{
    if pos < text.len() {
        if token_at(text, word, pos) {
            lemma_first_close(text, pos + word.len() + 2);
            if k > 0 {
                lemma_captures_from_len(text, word, token_end(text, word, pos), k - 1);
            } else {
                let capture = text.subrange(pos, token_end(text, word, pos));
                assert forall|j: int| 0 <= j < word.len() implies letter_matches(
                    capture[1 + j],
                    #[trigger] word[j],
                ) by {
                    assert(capture[1 + j] == text[pos + 1 + j]);
                }
            }
        } else {
            lemma_captures_from_len(text, word, pos + 1, k);
        }
    }
}

/// Whether `c` is the lower-case ASCII letter `letter` in any case.
pub fn letter_is(c: char, letter: char) -> (r: bool)
    ensures
        r == letter_matches(c, letter),
{
    c == letter || c == to_ascii_upper(letter) || (letter == 's' && c == '\u{17f}') || (letter
        == 'k' && c == '\u{212a}')
}

/// The marker word of a role placeholder.
pub fn player_marker() -> (r: Vec<char>)
    ensures
        r@ == player_word(),
{
    let r = vec!['p'];
    assert(r@ =~= player_word());
    r
}

/// The marker word of the pronoun placeholders of a form.
pub fn form_marker(form: PronounForm) -> (r: Vec<char>)
    ensures
        r@ == form_word(form),
{
    let r = match form {
        PronounForm::Subject => vec!['t', 'h', 'e', 'y'],
        PronounForm::Object => vec!['t', 'h', 'e', 'm'],
        PronounForm::Possessive => vec!['t', 'h', 'e', 'i', 'r'],
        PronounForm::Reflexive => vec!['t', 'h', 'e', 'm', 's', 'e', 'l', 'f'],
    };
    assert(r@ =~= form_word(form));
    r
}

/// Whether a placeholder of the marker `word` may start at `at`.
pub fn head_here(text: &Vec<char>, word: &Vec<char>, at: usize) -> (r: bool)
    ensures
        r == head_at(text@, word@, at as int),
{
    if text.len() < 2 || word.len() > text.len() - 2 || at > text.len() - 2 - word.len() {
        return false;
    }
    if text[at] != '(' {
        return false;
    }
    let mut k: usize = 0;
    while k < word.len()
        invariant
            k <= word.len(),
            at + word.len() + 2 <= text.len(),
            forall|j: int| 0 <= j < k ==> letter_matches(text@[at + 1 + j], #[trigger] word@[j]),
        decreases word.len() - k,
    {
        if !letter_is(text[at + 1 + k], word[k]) {
            return false;
        }
        k += 1;
    }
    let d = text[at + 1 + word.len()];
    '1' <= d && d <= '9'
}

/// The index of the first closing bracket at or after `from`, or the length
/// of the text.
pub fn find_close(text: &Vec<char>, from: usize) -> (r: usize)
    requires
        from <= text.len(),
    ensures
        r == first_close(text@, from as int),
        from <= r <= text.len(),
{
    let mut j: usize = from;
    while j < text.len() && text[j] != ')'
        invariant
            from <= j <= text.len(),
            first_close(text@, from as int) == first_close(text@, j as int),
        decreases text.len() - j,
    {
        j += 1;
    }
    j
}

/// The placeholders of the marker `word` in `text`, each as the text it
/// covers, from left to right.
pub fn find_captures(text: &Vec<char>, word: &Vec<char>) -> (r: Vec<Vec<char>>)
    ensures
        seqs(r@) == captures(text@, word@),
{
    let mut out: Vec<Vec<char>> = Vec::new();
    let mut pos: usize = 0;
    assert(seqs(out@) + captures_from(text@, word@, 0) =~= captures(text@, word@));
    while pos < text.len()
        invariant
            pos <= text.len(),
            captures(text@, word@) == seqs(out@) + captures_from(text@, word@, pos as int),
        decreases text.len() - pos,
    {
        let ghost before = seqs(out@);
        let mut next: usize = pos + 1;
        if head_here(text, word, pos) {
            let close = find_close(text, pos + word.len() + 2);
            if close < text.len() {
                let capture = slice_chars(text, pos, close + 1);
                out.push(capture);
                next = close + 1;
                assert(seqs(out@) =~= before.push(text@.subrange(pos as int, close + 1)));
                assert(seqs(out@) + captures_from(text@, word@, next as int) =~= before + (seq![
                    text@.subrange(pos as int, close + 1),
                ] + captures_from(text@, word@, next as int)));
            }
        }
        pos = next;
    }
    assert(seqs(out@) + Seq::<Seq<char>>::empty() =~= seqs(out@));
    out
}

/// A compound placeholder found in a text.
pub struct Compound {
    pub whole: Vec<char>,
    pub token: Vec<char>,
    pub first: Vec<char>,
    pub second: Vec<char>,
}

impl View for Compound {
    type V = CompoundView;

    open spec fn view(&self) -> CompoundView {
        CompoundView {
            whole: self.whole@,
            token: self.token@,
            first: self.first@,
            second: self.second@,
        }
    }
}

/// The compound placeholders of a sequence as what they are.
pub open spec fn compound_views(v: Seq<Compound>) -> Seq<CompoundView> {
    v.map_values(|c: Compound| c@)
}

/// Whether `c` can stand in a word of a compound placeholder.
pub fn pair_char(c: char, with_space: bool) -> (r: bool)
    ensures
        r == is_pair_char(c, with_space),
{
    ('0' <= c && c <= '9') || ('a' <= c && c <= 'z') || ('A' <= c && c <= 'Z') || c == '\'' || c
        == '_' || c == '-' || c == '&' || c == '\u{17f}' || c == '\u{212a}' || (with_space && c
        == ' ')
}

/// The index behind the longest run of word characters that starts at
/// `from`.
pub fn find_run_end(text: &Vec<char>, from: usize, with_space: bool) -> (r: usize)
    requires
        from <= text.len(),
    ensures
        r == run_end(text@, from as int, with_space),
        from <= r <= text.len(),
{
    let mut j: usize = from;
    while j < text.len() && pair_char(text[j], with_space)
        invariant
            from <= j <= text.len(),
            run_end(text@, from as int, with_space) == run_end(text@, j as int, with_space),
        decreases text.len() - j,
    {
        j += 1;
    }
    j
}

/// The compound placeholder that starts at `at`, if one does.
pub fn compound_here(text: &Vec<char>, at: usize) -> (r: Option<Compound>)
    requires
        at < text.len(),
    ensures
        r.is_some() == compound_at(text@, at as int).is_some(),
        r.is_some() ==> r.unwrap()@ == compound_at(text@, at as int).unwrap(),
        r.is_some() ==> r.unwrap().whole.len() > 0 && at + r.unwrap().whole.len() <= text.len(),
{
    let word = player_marker();
    if !head_here(text, &word, at) {
        return None;
    }
    let first_end = find_close(text, at + 3);
    if first_end >= text.len() {
        return None;
    }
    let open = first_end + 1;
    if open >= text.len() || text[open] != '(' {
        return None;
    }
    let slash = find_run_end(text, open + 1, true);
    if slash <= open + 1 || slash >= text.len() || text[slash] != '/' {
        return None;
    }
    let close = find_run_end(text, slash + 1, false);
    if close <= slash + 1 || close >= text.len() || text[close] != ')' {
        return None;
    }
    Some(
        Compound {
            whole: slice_chars(text, at, close + 1),
            token: slice_chars(text, at, open),
            first: slice_chars(text, open + 1, slash),
            second: slice_chars(text, slash + 1, close),
        },
    )
}

/// The compound placeholders of `text`, from left to right.
pub fn find_compounds(text: &Vec<char>) -> (r: Vec<Compound>)
    ensures
        compound_views(r@) == compounds(text@),
{
    let mut out: Vec<Compound> = Vec::new();
    let mut pos: usize = 0;
    assert(compound_views(out@) + compounds_from(text@, 0) =~= compounds(text@));
    while pos < text.len()
        invariant
            pos <= text.len(),
            compounds(text@) == compound_views(out@) + compounds_from(text@, pos as int),
        decreases text.len() - pos,
    {
        let ghost before = compound_views(out@);
        let mut next: usize = pos + 1;
        match compound_here(text, pos) {
            Some(c) => {
                next = pos + c.whole.len();
                let ghost cv = c@;
                out.push(c);
                assert(compound_views(out@) =~= before.push(cv));
                assert(compound_views(out@) + compounds_from(text@, next as int) =~= before + (
                seq![cv] + compounds_from(text@, next as int)));
            },
            None => {},
        }
        pos = next;
    }
    assert(compound_views(out@) + Seq::<CompoundView>::empty() =~= compound_views(out@));
    out
}

/// The slot that a placeholder names.
pub fn get_tribute_num(capture: &Vec<char>) -> (r: Option<u32>)
    ensures
        r == slot_number(capture@),
{
    if capture.len() < 2 {
        return None;
    }
    let c = capture[capture.len() - 2];
    if '0' <= c && c <= '9' {
        Some((c as u32) - ('0' as u32))
    } else {
        None
    }
}

} // verus!
