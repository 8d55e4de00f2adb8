use hg::binding::{sort_bindings, Binding};
use hg::event::find_slot_keys;
use hg::placeholder::{
    find_captures, find_compounds, form_marker, get_tribute_num, player_marker,
};
use hg::pronouns::{PronounForm, Pronouns};
use hg::slots::order_by_number;
use hg::text::{chars_of, string_of};
use hg::tribute::Tribute;
use itertools::Itertools;
use regex::Regex;

fn found(text: &str, marker: &Vec<char>) -> Vec<String> {
    find_captures(&chars_of(text), marker).iter().map(|c| string_of(c)).collect()
}

fn matched(pattern: &Regex, text: &str) -> Vec<String> {
    pattern.find_iter(text).map(|m| m.as_str().to_string()).collect()
}

const PLAYER: &str = r"(?i)\(P[1-9][^)]*\)";
const THEY: &str = r"(?i)\(they[1-9][^)]*\)";
const THEM: &str = r"(?i)\(them[1-9][^)]*\)";
const THEIR: &str = r"(?i)\(their[1-9][^)]*\)";
const THEMSELF: &str = r"(?i)\(themself[1-9][^)]*\)";
const COMPOUND: &str = r"(?i)\(P[1-9][^)]*\)\([0-9a-zA-Z'_0\-& ]+/[0-9a-zA-Z'_0\-&]+\)";

fn samples() -> Vec<String> {
    let mut texts: Vec<String> = [
        "",
        "(P1)",
        "(p1)",
        "(P0)",
        "(P)",
        "(P1",
        "P1)",
        "((P1))",
        "(P1)(P2)",
        "(P12)",
        "(P1 and more)",
        "(P1\n)",
        "(P1(P2)",
        "(P1) and (P2) fight; (P1) kills (P2).",
        "(They1) sees (them2), takes (their2) bow and hides (themself1).",
        "(THEY1)(tHeM2)(Their3)(THEMSELF4)",
        "(them\u{17f}elf1)",
        "(theMSelf9x)",
        "(they)(them0)(their)",
        "(P1)(son/child) and (P2)(brother-in-law/sibling)",
        "(P1)(old man/elder)",
        "(P1)(a/b c)",
        "(P1)(/b)",
        "(P1)(a/)",
        "(P1)(a/b",
        "(P1) (a/b)",
        "(P1)(\u{212a}/\u{17f})",
        "(P1)(a/b)(P2)(c/d)",
        "(P1)(P2/x)",
        "(P1)(it's/o_k&-)",
        "(P1)(\u{e9}/b)",
        "(\u{3a1}1)",
    ]
    .iter()
    .map(|s| s.to_string())
    .collect();
    let alphabet: Vec<char> =
        "()()Pp12 9/theymirslfTHEYMIRSLF\u{17f}\u{212a}0a&'_-\n\u{e9}".chars().collect();
    let mut seed: u64 = 0x9e3779b97f4a7c15;
    for round in 0..4000 {
        let len = 1 + round % 40;
        let mut s = String::new();
        for _ in 0..len {
            seed = seed.wrapping_mul(6364136223846793005).wrapping_add(1442695040888963407);
            s.push(alphabet[((seed >> 33) as usize) % alphabet.len()]);
        }
        texts.push(s);
    }
    texts
}

#[test]
fn role_placeholders_are_those_of_the_pattern() {
    let pattern = Regex::new(PLAYER).unwrap();
    for text in samples() {
        assert_eq!(found(&text, &player_marker()), matched(&pattern, &text), "in {:?}", text);
    }
}

#[test]
fn pronoun_placeholders_are_those_of_the_patterns() {
    let patterns = [
        (PronounForm::Subject, Regex::new(THEY).unwrap()),
        (PronounForm::Object, Regex::new(THEM).unwrap()),
        (PronounForm::Possessive, Regex::new(THEIR).unwrap()),
        (PronounForm::Reflexive, Regex::new(THEMSELF).unwrap()),
    ];
    for text in samples() {
        for (form, pattern) in &patterns {
            assert_eq!(found(&text, &form_marker(*form)), matched(pattern, &text), "in {:?}", text);
        }
    }
}

#[test]
fn compound_placeholders_are_those_of_the_pattern() {
    let player = Regex::new(PLAYER).unwrap();
    let pattern = Regex::new(COMPOUND).unwrap();
    for text in samples() {
        let compounds = find_compounds(&chars_of(&text));
        let wholes: Vec<String> = compounds.iter().map(|c| string_of(&c.whole)).collect();
        assert_eq!(wholes, matched(&pattern, &text), "in {:?}", text);
        for c in &compounds {
            let whole = string_of(&c.whole);
            let token = player.find(&whole).unwrap().as_str().to_string();
            assert_eq!(string_of(&c.token), token);
            let words = whole.replacen(&token, "", 1);
            let words = &words[1..words.len() - 1];
            let (first, second) = words.split_once('/').unwrap();
            assert_eq!(string_of(&c.first), first);
            assert_eq!(string_of(&c.second), second);
        }
    }
}

#[test]
fn placeholders_in_an_ordinary_text() {
    let text = "(P1) and (P2) fight; (p1) kills (P2) with (their1) axe.";
    assert_eq!(found(text, &player_marker()), vec!["(P1)", "(P2)", "(p1)", "(P2)"]);
    assert_eq!(found(text, &form_marker(PronounForm::Possessive)), vec!["(their1)"]);
    assert!(found(text, &form_marker(PronounForm::Subject)).is_empty());
    let keys: Vec<String> =
        find_slot_keys(&chars_of(text)).iter().map(|k| string_of(k)).collect();
    assert_eq!(keys, vec!["(P1)", "(P2)"]);
}

#[test]
fn slot_is_the_digit_before_the_closing_bracket() {
    assert_eq!(get_tribute_num(&chars_of("(P1)")), Some(1));
    assert_eq!(get_tribute_num(&chars_of("(they9)")), Some(9));
    assert_eq!(get_tribute_num(&chars_of("(P12)")), Some(2));
    assert_eq!(get_tribute_num(&chars_of("(P10)")), Some(0));
    assert_eq!(get_tribute_num(&chars_of("(P1x)")), None);
    assert_eq!(get_tribute_num(&chars_of(")")), None);
    assert_eq!(get_tribute_num(&chars_of("")), None);
}

#[test]
fn roles_are_distinct_and_in_upper_case() {
    let keys: Vec<String> = find_slot_keys(&chars_of("(p2) (P1) (P2) (p1 x) (P1 X) (P3"))
        .iter()
        .map(|k| string_of(k))
        .collect();
    assert_eq!(keys, vec!["(P2)", "(P1)", "(P1 X)"]);
}

#[test]
fn roles_that_differ_in_case_only_are_one_role() {
    let keys: Vec<String> =
        find_slot_keys(&chars_of("(p1 \u{e9}t\u{e9} 1) (P1 \u{c9}T\u{c9} 1) (P2 stra\u{df}e 2)"))
            .iter()
            .map(|k| string_of(k))
            .collect();
    assert_eq!(keys, vec!["(P1 \u{c9}T\u{c9} 1)", "(P2 STRASSE 2)"]);
}

#[test]
fn order_by_slot_is_a_stable_sort() {
    let mut seed: u64 = 7;
    for round in 0..500 {
        let len = round % 12;
        let mut numbers: Vec<u32> = Vec::new();
        for _ in 0..len {
            seed = seed.wrapping_mul(6364136223846793005).wrapping_add(1442695040888963407);
            numbers.push(((seed >> 33) % 10) as u32);
        }
        let expected: Vec<usize> =
            (0..numbers.len()).sorted_by(|a, b| numbers[*a].cmp(&numbers[*b])).collect();
        assert_eq!(order_by_number(&numbers), expected);
    }
    assert_eq!(order_by_number(&vec![3, 1, 2, 1, 0]), vec![4, 1, 3, 2, 0]);
}

#[test]
fn bindings_are_sorted_by_slot() {
    let bind = |key: &str, id: usize| Binding {
        key: key.to_string(),
        tribute: Tribute::new(id, format!("T{}", id), String::new(), Pronouns::They),
    };
    let sorted = sort_bindings(&vec![bind("(P3)", 1), bind("(P1)", 2), bind("(P2)", 3)]).unwrap();
    let ids: Vec<usize> = sorted.iter().map(|b| b.tribute.get_id()).collect();
    assert_eq!(ids, vec![2, 3, 1]);
    let keys: Vec<String> = sorted.iter().map(|b| b.key.clone()).collect();
    assert_eq!(keys, vec!["(P1)", "(P2)", "(P3)"]);
}
