use hg::district::District;
use hg::pronouns::{
    is_first_character_upper, pronoun_for, some_kind_of_uppercase_first_letter, their, them,
    themself, they, PronounForm, Pronouns,
};
use hg::text::{chars_of, push_decimal, replace_all, string_of, to_ascii_upper};
use hg::tribute::{default_true, IdGenerator, Tribute};

fn tribute(id: usize, name: &str, pronouns: Pronouns) -> Tribute {
    Tribute::new(id, name.to_string(), String::new(), pronouns)
}

#[test]
fn it_works() {
    let result = 2 + 2;
    assert_eq!(result, 4);
}

#[test]
fn lib_it_works() {
    let result = 2 + 2;
    assert_eq!(result, 4);
}

#[test]
fn subject_pronouns_of_every_category() {
    assert_eq!(they(&Pronouns::He, "(they1)".to_string()), "he");
    assert_eq!(they(&Pronouns::She, "(they1)".to_string()), "she");
    assert_eq!(they(&Pronouns::They, "(they1)".to_string()), "they");
    assert_eq!(they(&Pronouns::It, "(they1)".to_string()), "it");
}

#[test]
fn object_pronouns_of_every_category() {
    assert_eq!(them(&Pronouns::He, "(them1)".to_string()), "him");
    assert_eq!(them(&Pronouns::She, "(them1)".to_string()), "her");
    assert_eq!(them(&Pronouns::They, "(them1)".to_string()), "them");
    assert_eq!(them(&Pronouns::It, "(them1)".to_string()), "it");
}

#[test]
fn possessive_pronouns_of_every_category() {
    assert_eq!(their(&Pronouns::He, "(their1)".to_string()), "his");
    assert_eq!(their(&Pronouns::She, "(their1)".to_string()), "her");
    assert_eq!(their(&Pronouns::They, "(their1)".to_string()), "their");
    assert_eq!(their(&Pronouns::It, "(their1)".to_string()), "its");
}

#[test]
fn reflexive_pronouns_of_every_category() {
    assert_eq!(themself(&Pronouns::He, "(themself1)".to_string()), "himself");
    assert_eq!(themself(&Pronouns::She, "(themself1)".to_string()), "herself");
    assert_eq!(themself(&Pronouns::They, "(themself1)".to_string()), "themself");
    assert_eq!(themself(&Pronouns::It, "(themself1)".to_string()), "itself");
}

#[test]
fn pronoun_is_capitalized_where_the_placeholder_is() {
    assert_eq!(they(&Pronouns::He, "(They1)".to_string()), "He");
    assert_eq!(them(&Pronouns::She, "(Them2)".to_string()), "Her");
    assert_eq!(their(&Pronouns::They, "(THEIR3)".to_string()), "Their");
    assert_eq!(themself(&Pronouns::It, "(Themself4)".to_string()), "Itself");
    assert_eq!(they(&Pronouns::They, "(tHEY1)".to_string()), "they");
}

#[test]
fn capital_goes_by_the_second_character_only() {
    assert!(is_first_character_upper("(T"));
    assert!(!is_first_character_upper("(tHEY1)"));
    assert!(!is_first_character_upper("T1"));
    assert!(is_first_character_upper("x\u{c9}"));
    assert!(!is_first_character_upper("x\u{e9}"));
    assert_eq!(pronoun_for(PronounForm::Object, &Pronouns::He, "xY"), "Him");
}

#[test]
fn first_letter_is_put_in_upper_case() {
    assert_eq!(some_kind_of_uppercase_first_letter("they"), "They");
    assert_eq!(some_kind_of_uppercase_first_letter("They"), "They");
    assert_eq!(some_kind_of_uppercase_first_letter(""), "");
    assert_eq!(some_kind_of_uppercase_first_letter("1x"), "1x");
}

#[test]
fn ascii_letters_are_put_in_upper_case() {
    assert_eq!(to_ascii_upper('a'), 'A');
    assert_eq!(to_ascii_upper('z'), 'Z');
    assert_eq!(to_ascii_upper('A'), 'A');
    assert_eq!(to_ascii_upper('1'), '1');
    assert_eq!(to_ascii_upper('\u{e9}'), '\u{e9}');
}

#[test]
fn strings_and_characters_convert_both_ways() {
    let text = "a\u{17f}\u{212a}(P1)\n";
    let chars = chars_of(text);
    assert_eq!(chars, text.chars().collect::<Vec<char>>());
    assert_eq!(string_of(&chars), text);
    assert_eq!(string_of(&chars_of("")), "");
}

#[test]
fn numbers_are_written_in_decimal() {
    for (n, expected) in [
        (0u64, "0"),
        (7, "7"),
        (10, "10"),
        (109, "109"),
        (4294967295, "4294967295"),
        (18446744073709551615, "18446744073709551615"),
    ] {
        let mut out = vec!['#'];
        push_decimal(&mut out, n);
        assert_eq!(string_of(&out), format!("#{}", expected));
    }
}

#[test]
fn replacement_takes_every_occurrence_from_the_left() {
    let r = replace_all(&chars_of("aaa"), &chars_of("aa"), &chars_of("b"), false);
    assert_eq!(string_of(&r), "ba");
    let r = replace_all(&chars_of("(P1) and (p1)"), &chars_of("(P1)"), &chars_of("Ann"), false);
    assert_eq!(string_of(&r), "Ann and (p1)");
    let r = replace_all(&chars_of("(P1) and (p1)"), &chars_of("(P1)"), &chars_of("Ann"), true);
    assert_eq!(string_of(&r), "Ann and Ann");
    let r = replace_all(&chars_of("abc"), &chars_of(""), &chars_of("x"), false);
    assert_eq!(string_of(&r), "abc");
}

#[test]
fn replacement_agrees_with_the_standard_library() {
    let mut seed: u64 = 0x2545f4914f6cdd1d;
    let alphabet: Vec<char> = "ab(P1)".chars().collect();
    for _ in 0..3000 {
        let mut pieces: Vec<String> = Vec::new();
        for len in [12usize, 2, 3] {
            let mut s = String::new();
            for _ in 0..len {
                seed = seed.wrapping_mul(6364136223846793005).wrapping_add(1442695040888963407);
                s.push(alphabet[((seed >> 33) as usize) % alphabet.len()]);
            }
            pieces.push(s);
        }
        let expected = pieces[0].replace(pieces[1].as_str(), pieces[2].as_str());
        let got = replace_all(
            &chars_of(&pieces[0]),
            &chars_of(&pieces[1]),
            &chars_of(&pieces[2]),
            false,
        );
        assert_eq!(string_of(&got), expected);
    }
}

#[test]
fn identities_rise_from_one() {
    let mut ids = IdGenerator::new();
    assert_eq!(ids.new_id(), Some(1));
    assert_eq!(ids.new_id(), Some(2));
    assert_eq!(ids.new_id(), Some(3));
}

#[test]
fn tribute_starts_alive_and_without_kills() {
    let mut t = tribute(5, "Ann", Pronouns::She);
    assert!(default_true());
    assert_eq!(t.get_id(), 5);
    assert_eq!(t.name, "Ann");
    assert!(t.is_alive);
    assert_eq!(t.kills, 0);
    t.add_kill();
    t.add_kill();
    assert_eq!(t.kills, 2);
    assert!(t.is_alive);
    t.kill();
    assert!(!t.is_alive);
    assert_eq!(t.kills, 2);
    assert_eq!(t.get_id(), 5);
    let copy = t.clone();
    assert_eq!(copy.get_id(), 5);
    assert_eq!(copy.name, "Ann");
    assert_eq!(copy.kills, 2);
    assert!(!copy.is_alive);
}

#[test]
fn district_knows_its_living() {
    let mut a = tribute(1, "Ann", Pronouns::She);
    let b = tribute(2, "Bob", Pronouns::He);
    let mut c = tribute(3, "Cyd", Pronouns::They);
    a.kill();
    let district = District {
        file_name: "one".to_string(),
        name: "District 1".to_string(),
        tributes: vec![a.clone(), b, c.clone()],
    };
    assert!(district.has_living_tributes());
    let living = district.get_living();
    assert_eq!(living.iter().map(|t| t.get_id()).collect::<Vec<usize>>(), vec![2, 3]);
    c.kill();
    let dead = District {
        file_name: "two".to_string(),
        name: "District 2".to_string(),
        tributes: vec![a, c],
    };
    assert!(!dead.has_living_tributes());
    assert!(dead.get_living().is_empty());
    let empty = District { file_name: String::new(), name: String::new(), tributes: vec![] };
    assert!(!empty.has_living_tributes());
    let copy = district.clone();
    assert_eq!(copy.name, "District 1");
    assert_eq!(copy.tributes.len(), 3);
}
