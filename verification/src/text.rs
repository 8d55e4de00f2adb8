//! Character-level text operations: conversion between strings and character
//! vectors, case folding, and replacement of every occurrence of a pattern.

use vstd::prelude::*;

verus! {

/// `String::push` of std: it appends the character to the end of the
/// string.
pub assume_specification[ String::push ](s: &mut String, c: char)
    ensures
        final(s)@ == old(s)@.push(c),
;

/// The upper-case form of an ASCII letter; every other character is itself.
pub open spec fn ascii_upper(c: char) -> char {
    if 'a' <= c && c <= 'z' {
        ((c as u32) - 32) as char
    } else {
        c
    }
}

/// A sequence with every ASCII letter in upper case.
pub open spec fn upper_seq(s: Seq<char>) -> Seq<char> {
    Seq::new(s.len(), |i: int| ascii_upper(s[i]))
}

/// Whether every character of a text is an ASCII character.
pub open spec fn is_ascii_text(s: Seq<char>) -> bool {
    forall|i: int| 0 <= i < s.len() ==> (#[trigger] s[i] as u32) < 128
}

/// The upper-case form of a text in Unicode.
pub uninterp spec fn unicode_upper(s: Seq<char>) -> Seq<char>;

/// `str::to_uppercase` of std: the upper-case form of the text in Unicode.
/// Of a text of ASCII characters that is the text with its letters from `a`
/// to `z` in upper case.
pub assume_specification[ str::to_uppercase ](s: &str) -> (r: String)
    ensures
        r@ == unicode_upper(s@),
        is_ascii_text(s@) ==> r@ == upper_seq(s@),
;

/// The upper-case form of a text: of a text of ASCII characters the text
/// with its letters from `a` to `z` in upper case, of any other text its
/// upper-case form in Unicode.
pub open spec fn upper_text(s: Seq<char>) -> Seq<char> {
    if is_ascii_text(s) {
        upper_seq(s)
    } else {
        unicode_upper(s)
    }
}

/// The upper-case form of a text.
pub fn to_upper_text(v: &Vec<char>) -> (r: Vec<char>)
    ensures
        r@ == upper_text(v@),
{
    chars_of(string_of(v).to_uppercase().as_str())
}

/// Whether two characters are the same, exactly or (with `fold`) up to the
/// case of ASCII letters.
pub open spec fn same_char(a: char, b: char, fold: bool) -> bool {
    a == b || (fold && ascii_upper(a) == ascii_upper(b))
}

/// Whether `pat` stands in `text` at index `at`.
pub open spec fn occurs_at(text: Seq<char>, pat: Seq<char>, at: int, fold: bool) -> bool {
    &&& 0 <= at
    &&& at + pat.len() <= text.len()
    &&& forall|k: int| 0 <= k < pat.len() ==> same_char(text[at + k], #[trigger] pat[k], fold)
}

/// `text` from index `pos` on, with every occurrence of `pat` replaced by
/// `rep`. Occurrences are taken from left to right and do not overlap. An
/// empty pattern occurs nowhere.
pub open spec fn replaced_from(
    text: Seq<char>,
    pat: Seq<char>,
    rep: Seq<char>,
    fold: bool,
    pos: int,
) -> Seq<char>
    decreases text.len() - pos,
{
    if pos < 0 || pos >= text.len() {
        Seq::empty()
    } else if pat.len() > 0 && occurs_at(text, pat, pos, fold) {
        rep + replaced_from(text, pat, rep, fold, pos + pat.len())
    } else {
        seq![text[pos]] + replaced_from(text, pat, rep, fold, pos + 1)
    }
}

/// `text` with every occurrence of `pat` replaced by `rep`.
pub open spec fn replaced(text: Seq<char>, pat: Seq<char>, rep: Seq<char>, fold: bool) -> Seq<char> {
    replaced_from(text, pat, rep, fold, 0)
}

/// The decimal digit of a number below ten.
pub open spec fn digit_char(d: nat) -> char
    recommends
        d < 10,
{
    (('0' as u32) + d) as char
}

/// The decimal numeral of a number.
pub open spec fn decimal(n: nat) -> Seq<char>
    decreases n,
{
    if n < 10 {
        seq![digit_char(n)]
    } else {
        decimal(n / 10).push(digit_char(n % 10))
    }
}

/// Appends the decimal numeral of `n` to `out`.
pub fn push_decimal(out: &mut Vec<char>, n: u64)
    ensures
        final(out)@ == old(out)@ + decimal(n as nat),
    decreases n,
{
    if n >= 10 {
        push_decimal(out, n / 10);
    }
    let d: u8 = (n % 10) as u8;
    out.push((48u8 + d) as char);
    proof {
        if n >= 10 {
            assert(final(out)@ =~= old(out)@ + decimal((n / 10) as nat).push(
                digit_char((n % 10) as nat),
            ));
        } else {
            assert(final(out)@ =~= old(out)@ + seq![digit_char(n as nat)]);
        }
    }
}

/// Appends the characters of `s` to `out`.
pub fn push_str(out: &mut Vec<char>, s: &str)
    ensures
        final(out)@ == old(out)@ + s@,
{
    let chars = chars_of(s);
    let mut i: usize = 0;
    while i < chars.len()
        invariant
            i <= chars.len(),
            chars@ == s@,
            out@ == old(out)@ + chars@.take(i as int),
        decreases chars.len() - i,
    {
        out.push(chars[i]);
        assert(out@ =~= old(out)@ + chars@.take(i + 1));
        i += 1;
    }
    assert(chars@.take(chars.len() as int) =~= chars@);
}

/// The upper-case form of an ASCII letter; every other character is itself.
pub fn to_ascii_upper(c: char) -> (r: char)
    ensures
        r == ascii_upper(c),
{
    if 'a' <= c && c <= 'z' {
        let n: u8 = c as u8;
        (n - 32u8) as char
    } else {
        c
    }
}

/// The characters of a string.
pub fn chars_of(s: &str) -> (v: Vec<char>)
    ensures
        v@ == s@,
{
    let mut v: Vec<char> = Vec::new();
    for c in it: s.chars()
        invariant
            v@ == it.seq().take(it.index() as int),
    {
        v.push(c);
    }
    v
}

/// The string made of the given characters.
pub fn string_of(v: &Vec<char>) -> (s: String)
    ensures
        s@ == v@,
{
    let mut s = String::new();
    let mut i: usize = 0;
    while i < v.len()
        invariant
            i <= v.len(),
            s@ == v@.take(i as int),
        decreases v.len() - i,
    {
        s.push(v[i]);
        i += 1;
    }
    s
}

/// A copy of a character vector.
pub fn copy_chars(v: &Vec<char>) -> (r: Vec<char>)
    ensures
        r@ == v@,
{
    let mut r: Vec<char> = Vec::new();
    let mut i: usize = 0;
    while i < v.len()
        invariant
            i <= v.len(),
            r@ == v@.take(i as int),
        decreases v.len() - i,
    {
        r.push(v[i]);
        i += 1;
    }
    r
}

/// The characters of `v` from `from` up to `to`.
pub fn slice_chars(v: &Vec<char>, from: usize, to: usize) -> (r: Vec<char>)
    requires
        from <= to <= v.len(),
    ensures
        r@ == v@.subrange(from as int, to as int),
{
    let mut r: Vec<char> = Vec::new();
    let mut i: usize = from;
    while i < to
        invariant
            from <= i <= to,
            to <= v.len(),
            r@ == v@.subrange(from as int, i as int),
        decreases to - i,
    {
        r.push(v[i]);
        i += 1;
    }
    r
}

/// Whether two character vectors hold the same characters.
pub fn chars_equal(a: &Vec<char>, b: &Vec<char>) -> (r: bool)
    ensures
        r == (a@ == b@),
{
    if a.len() != b.len() {
        return false;
    }
    let mut i: usize = 0;
    while i < a.len()
        invariant
            i <= a.len(),
            a.len() == b.len(),
            forall|k: int| 0 <= k < i ==> a@[k] == b@[k],
        decreases a.len() - i,
    {
        if a[i] != b[i] {
            return false;
        }
        i += 1;
    }
    assert(a@ =~= b@);
    true
}

/// Whether `pat` stands in `text` at index `at`.
pub fn occurs_here(text: &Vec<char>, pat: &Vec<char>, at: usize, fold: bool) -> (r: bool)
    ensures
        r == occurs_at(text@, pat@, at as int, fold),
{
    if pat.len() > text.len() || at > text.len() - pat.len() {
        return false;
    }
    let mut k: usize = 0;
    while k < pat.len()
        invariant
            k <= pat.len(),
            at + pat.len() <= text.len(),
            forall|j: int| 0 <= j < k ==> same_char(text@[at + j], #[trigger] pat@[j], fold),
        decreases pat.len() - k,
    {
        let a = text[at + k];
        let b = pat[k];
        let same = a == b || (fold && to_ascii_upper(a) == to_ascii_upper(b));
        if !same {
            return false;
        }
        k += 1;
    }
    true
}

/// Replaces every occurrence of `pat` in `text` by `rep`, from left to right
/// and without overlap.
pub fn replace_all(text: &Vec<char>, pat: &Vec<char>, rep: &Vec<char>, fold: bool) -> (r: Vec<char>)
    ensures
        r@ == replaced(text@, pat@, rep@, fold),
{
    let mut out: Vec<char> = Vec::new();
    let mut pos: usize = 0;
    while pos < text.len()
        invariant
            pos <= text.len(),
            replaced(text@, pat@, rep@, fold) == out@ + replaced_from(
                text@,
                pat@,
                rep@,
                fold,
                pos as int,
            ),
        decreases text.len() - pos,
    {
        let ghost before = out@;
        if pat.len() > 0 && occurs_here(text, pat, pos, fold) {
            let mut j: usize = 0;
            while j < rep.len()
                invariant
                    j <= rep.len(),
                    out@ == before + rep@.take(j as int),
                decreases rep.len() - j,
            {
                out.push(rep[j]);
                j += 1;
            }
            assert(rep@.take(rep.len() as int) =~= rep@);
            assert(out@ + replaced_from(text@, pat@, rep@, fold, pos + pat.len()) =~= before + (rep@
                + replaced_from(text@, pat@, rep@, fold, pos + pat.len())));
            pos += pat.len();
        } else {
            out.push(text[pos]);
            assert(out@ + replaced_from(text@, pat@, rep@, fold, pos + 1) =~= before + (seq![
                text@[pos as int],
            ] + replaced_from(text@, pat@, rep@, fold, pos + 1)));
            pos += 1;
        }
    }
    assert(out@ + Seq::<char>::empty() =~= out@);
    out
}

} // verus!
