use hg::district::{clone_districts, living_of, name_of_district, District};
use hg::event::EventResult;
use hg::population::{contains_id, strike, strike_district};
use hg::pronouns::Pronouns;
use hg::report::{display_living, report_fallen};
use hg::tribute::Tribute;

fn tribute(id: usize, name: &str) -> Tribute {
    Tribute::new(id, name.to_string(), String::new(), Pronouns::They)
}

fn district(number: usize, tributes: Vec<Tribute>) -> District {
    District {
        file_name: format!("district_{}", number),
        name: format!("District {}", number),
        tributes,
    }
}

fn state(districts: &Vec<District>) -> Vec<(usize, bool, u32)> {
    districts
        .iter()
        .flat_map(|d| d.tributes.iter().map(|t| (t.get_id(), t.is_alive, t.kills)))
        .collect()
}

#[test]
fn identity_is_looked_up_among_identities() {
    assert!(contains_id(&vec![4, 7, 9], 7));
    assert!(!contains_id(&vec![4, 7, 9], 8));
    assert!(!contains_id(&vec![], 0));
}

#[test]
fn event_kills_the_killed_and_credits_the_killers() {
    let mut districts = vec![
        district(1, vec![tribute(1, "Ann"), tribute(2, "Bob")]),
        district(2, vec![tribute(3, "Cyd"), tribute(4, "Dee")]),
    ];
    let mut fallen = vec![tribute(99, "Old")];
    strike(&mut districts, &mut fallen, &vec![4, 2], &vec![1]);
    assert_eq!(
        state(&districts),
        vec![(1, true, 1), (2, false, 0), (3, true, 0), (4, false, 0)]
    );
    let mourned: Vec<(usize, bool)> = fallen.iter().map(|t| (t.get_id(), t.is_alive)).collect();
    assert_eq!(mourned, vec![(99, true), (2, false), (4, false)]);
    assert_eq!(districts[0].name, "District 1");
    assert_eq!(districts[1].tributes[1].name, "Dee");
    let ids: Vec<usize> = living_of(&districts).iter().map(|t| t.get_id()).collect();
    assert_eq!(ids, vec![1, 3]);
}

#[test]
fn tribute_can_die_by_its_own_hand() {
    let mut one = district(1, vec![tribute(1, "Ann"), tribute(2, "Bob")]);
    let mut fallen = Vec::new();
    strike_district(&mut one, &mut fallen, &vec![1], &vec![1]);
    assert!(!one.tributes[0].is_alive);
    assert_eq!(one.tributes[0].kills, 1);
    assert!(one.tributes[1].is_alive);
    assert_eq!(fallen.len(), 1);
    assert_eq!(fallen[0].get_id(), 1);
    assert!(!fallen[0].is_alive);
    assert_eq!(fallen[0].kills, 0);
}

#[test]
fn kills_stop_at_the_highest_number() {
    let mut veteran = tribute(1, "Ann");
    veteran.kills = u32::MAX;
    let mut districts = vec![district(1, vec![veteran, tribute(2, "Bob")])];
    let mut fallen = Vec::new();
    strike(&mut districts, &mut fallen, &vec![2], &vec![1]);
    assert_eq!(state(&districts), vec![(1, true, u32::MAX), (2, false, 0)]);
}

#[test]
fn event_without_killed_changes_nothing() {
    let mut districts = vec![district(1, vec![tribute(1, "Ann"), tribute(2, "Bob")])];
    let mut fallen = Vec::new();
    strike(&mut districts, &mut fallen, &vec![], &vec![]);
    strike(&mut districts, &mut fallen, &vec![7], &vec![8]);
    assert_eq!(state(&districts), vec![(1, true, 0), (2, true, 0)]);
    assert!(fallen.is_empty());
}

#[test]
fn districts_are_copied_whole() {
    let mut ann = tribute(1, "Ann");
    ann.kill();
    let districts = vec![district(1, vec![ann, tribute(2, "Bob")]), district(2, vec![])];
    let copy = clone_districts(&districts);
    assert_eq!(copy.len(), 2);
    assert_eq!(copy[0].file_name, "district_1");
    assert_eq!(state(&copy), state(&districts));
    assert_eq!(name_of_district(&copy, 2), "District 1");
    assert_eq!(name_of_district(&copy, 3), "Unknown District");
}

#[test]
fn report_of_the_fallen_names_each_with_its_district() {
    let districts = vec![
        district(1, vec![tribute(1, "Ann"), tribute(2, "Bob")]),
        district(2, vec![tribute(3, "Cyd")]),
    ];
    let mut bob = tribute(2, "Bob");
    bob.kill();
    let mut cyd = tribute(3, "Cyd");
    cyd.kill();
    let mut zed = tribute(9, "Zed");
    zed.kill();
    let report: Vec<EventResult> = report_fallen(&vec![cyd, bob, zed], &districts);
    let texts: Vec<&str> = report.iter().map(|r| r.text.as_str()).collect();
    assert_eq!(
        texts,
        vec![
            "3 cannon shots can be heard in the distance.\n",
            "Cyd from District 2",
            "Bob from District 1",
            "Zed from Unknown District",
        ]
    );
    assert!(report[0].tributes.is_empty());
    assert_eq!(report[1].tributes[0].get_id(), 3);
    assert_eq!(report[2].tributes.len(), 1);
    let empty = report_fallen(&Vec::new(), &districts);
    assert_eq!(empty.len(), 1);
    assert_eq!(empty[0].text, "No cannon shots can be heard in the distance.\n");
    let many: Vec<Tribute> = (0..12).map(|i| tribute(i, "T")).collect();
    assert_eq!(
        report_fallen(&many, &districts)[0].text,
        "12 cannon shots can be heard in the distance.\n"
    );
}

#[test]
fn list_of_the_living_has_a_line_for_each() {
    let mut bob = tribute(2, "Bob");
    bob.kill();
    let mut ann = tribute(1, "Ann");
    ann.add_kill();
    let districts = vec![district(1, vec![ann, bob]), district(2, vec![tribute(3, "Cyd")])];
    assert_eq!(
        display_living(&districts),
        "Living tributes:\n\tAnn (District 1) [1 kill]\n\tCyd (District 2) [0 kills]\n"
    );
    assert_eq!(display_living(&Vec::new()), "Living tributes:\n");
}
