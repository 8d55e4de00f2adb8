use hg::event::{Event, EventCategory};
use hg::pronouns::Pronouns;
use hg::tribute::Tribute;
use regex::Regex;

struct Cast {
    name: &'static str,
    pronouns: Pronouns,
}

fn pronoun(form: &str, pronouns: &Pronouns, capital: bool) -> String {
    let word = match (form, pronouns) {
        ("they", Pronouns::He) => "he",
        ("they", Pronouns::She) => "she",
        ("they", Pronouns::They) => "they",
        ("they", Pronouns::It) => "it",
        ("them", Pronouns::He) => "him",
        ("them", Pronouns::She) => "her",
        ("them", Pronouns::They) => "them",
        ("them", Pronouns::It) => "it",
        ("their", Pronouns::He) => "his",
        ("their", Pronouns::She) => "her",
        ("their", Pronouns::They) => "their",
        ("their", Pronouns::It) => "its",
        ("themself", Pronouns::He) => "himself",
        ("themself", Pronouns::She) => "herself",
        ("themself", Pronouns::They) => "themself",
        ("themself", Pronouns::It) => "itself",
        _ => unreachable!(),
    };
    if capital {
        let mut chars = word.chars();
        let first = chars.next().unwrap().to_uppercase().collect::<String>();
        first + chars.as_str()
    } else {
        word.to_string()
    }
}

fn slot(token: &str) -> usize {
    token.chars().rev().nth(1).unwrap().to_digit(10).unwrap() as usize
}

struct Patterns {
    forms: Vec<(&'static str, Regex)>,
    player: Regex,
    compound: Regex,
}

fn patterns() -> Patterns {
    Patterns {
        forms: ["they", "them", "their", "themself"]
            .iter()
            .map(|form| (*form, Regex::new(&format!(r"(?i)\({}[1-9][^)]*\)", form)).unwrap()))
            .collect(),
        player: Regex::new(r"(?i)\(P[1-9][^)]*\)").unwrap(),
        compound: Regex::new(
            r"(?i)\(P[1-9][^)]*\)\([0-9a-zA-Z'_0\-& ]+/[0-9a-zA-Z'_0\-&]+\)",
        )
        .unwrap(),
    }
}

/// The roles of a text, in upper case, in the order in which they first
/// occur.
fn roles_of(text: &str, patterns: &Patterns) -> Vec<String> {
    let mut roles: Vec<String> = Vec::new();
    for found in patterns.player.find_iter(text) {
        let role = found.as_str().to_uppercase();
        if !roles.contains(&role) {
            roles.push(role);
        }
    }
    roles
}

/// Renders a text with the pattern crate: the role of slot 1 stands for the
/// first of the cast, and so on.
fn render_with_patterns(text: &str, cast: &[Cast], patterns: &Patterns) -> String {
    let mut out = text.to_string();
    for (form, pattern) in &patterns.forms {
        let source = out.clone();
        for found in pattern.find_iter(&source) {
            let token = found.as_str();
            let member = &cast[slot(token) - 1];
            let capital = token.chars().nth(1).unwrap().is_uppercase();
            out = out.replace(token, &pronoun(form, &member.pronouns, capital));
        }
    }
    let source = out.clone();
    for found in patterns.compound.find_iter(&source) {
        let whole = found.as_str();
        let token = patterns.player.find(whole).unwrap().as_str();
        let member = &cast[slot(token) - 1];
        let words = whole.replace(token, "").replace('(', "").replace(')', "");
        let pair: Vec<&str> = words.split('/').collect();
        let word = if member.pronouns == Pronouns::They { pair[1] } else { pair[0] };
        out = out.replace(whole, word);
    }
    let mut roles = roles_of(text, patterns);
    roles.sort_by_key(|role| slot(role));
    for role in roles {
        out = out.replace(&role, cast[slot(&role) - 1].name);
    }
    out
}

fn cast_of(pronouns: [Pronouns; 3]) -> Vec<Cast> {
    let [a, b, c] = pronouns;
    vec![
        Cast { name: "Ann", pronouns: a },
        Cast { name: "Bob", pronouns: b },
        Cast { name: "Cyd", pronouns: c },
    ]
}

#[test]
fn rendering_agrees_with_rendering_by_patterns() {
    let templates = [
        "(P1) grabs a shovel.",
        "(P1) and (P2) fight; (P1) kills (P2).",
        "(P1) runs away from (P2) and (P3). (They1) hides (themself1).",
        "(P1) sharpens (their1) spear while (P2) cleans (their2) bow.",
        "(P1) steals from (P2) while (they2) sleep(s); (P3) helps (them1).",
        "(P3), (P2) and (P1) hold hands. (THEY3) lead(s) (them2) and (Them1).",
        "(P1) finds (P2)(his/their) backpack and returns it to (them2).",
        "(P1) is (P2)(brother-in-law/sibling-in-law) and (P3)(someone's son/someone's_child).",
        "(P1) tends to (P2)'s wounds; (they2) thank(s) (them1) (themself2).",
        "(P1)(himself/themself)? No: (themself1). (Their1) choice, says (P2).",
        "(P2) spares (P1), and (P1) thanks (P2) (P2) (P2).",
        "(P1 AND NOBODY ELSE 1) waits for (they1 or 1) and (P2\n2).",
        "Nothing happens to (P1) (P2) (P3), or does it (they3)(them3)(their3)(themself3)?",
    ];
    let patterns = patterns();
    let all = [Pronouns::He, Pronouns::She, Pronouns::They, Pronouns::It];
    for text in templates {
        let roles = roles_of(text, &patterns);
        let slots: Vec<usize> = roles.iter().map(|role| slot(role)).collect();
        let mut sorted = slots.clone();
        sorted.sort();
        assert_eq!(sorted, (1..=roles.len()).collect::<Vec<usize>>());
        for a in &all {
            for b in &all {
                for c in &all {
                    let cast = cast_of([a.clone(), b.clone(), c.clone()]);
                    let ev = Event {
                        file_name: String::new(),
                        text: text.to_string(),
                        killed: Vec::new(),
                        killers: Vec::new(),
                        category: EventCategory::Day,
                        weight: 50,
                    };
                    assert_eq!(ev.get_num_tributes_required(), roles.len());
                    let bound: Vec<Tribute> = slots
                        .iter()
                        .map(|n| {
                            Tribute::new(
                                *n,
                                cast[n - 1].name.to_string(),
                                String::new(),
                                cast[n - 1].pronouns.clone(),
                            )
                        })
                        .collect();
                    let rendered = ev.resolve(bound).unwrap();
                    let expected = render_with_patterns(text, &cast, &patterns);
                    assert_eq!(rendered.text, expected, "for {:?}", text);
                    let ids: Vec<usize> = rendered.tributes.iter().map(|t| t.get_id()).collect();
                    assert_eq!(ids, sorted);
                }
            }
        }
    }
}
