//! The texts that a game writes itself: the report of the fallen and the
//! list of the living.

use vstd::prelude::*;
use crate::district::{district_name_of, district_views, name_of_district, District, DistrictView};
use crate::event::{result_views, EventResult, EventResultView};
use crate::text::{decimal, push_decimal, push_str, string_of};
use crate::tribute::Tribute;

verus! {

/// The line that tells how many cannon shots are heard for the fallen.
pub open spec fn cannon_line(shots: nat) -> Seq<char> {
    if shots == 0 {
        "No cannon shots can be heard in the distance.\n"@
    } else if shots == 1 {
        "1 cannon shot can be heard in the distance.\n"@
    } else {
        decimal(shots) + " cannon shots can be heard in the distance.\n"@
    }
}

/// The result that names a fallen tribute and its district.
pub open spec fn fallen_entry(t: Tribute, districts: Seq<DistrictView>) -> EventResultView {
    EventResultView {
        text: t.name@ + " from "@ + district_name_of(districts, t.id, 0),
        killed: Seq::empty(),
        killers: Seq::empty(),
        tributes: seq![t],
    }
}

/// The report of the fallen: the line of the cannon shots, then one result
/// for each of the fallen.
pub open spec fn fallen_report(fallen: Seq<Tribute>, districts: Seq<DistrictView>) -> Seq<
    EventResultView,
> {
    seq![
        EventResultView {
            text: cannon_line(fallen.len()),
            killed: Seq::empty(),
            killers: Seq::empty(),
            tributes: Seq::empty(),
        },
    ] + fallen.map_values(|t: Tribute| fallen_entry(t, districts))
}

/// The report of the fallen.
pub fn report_fallen(fallen: &Vec<Tribute>, districts: &Vec<District>) -> (r: Vec<EventResult>)
    ensures
        result_views(r@) == fallen_report(fallen@, district_views(districts@)),
{
    let ghost target = fallen_report(fallen@, district_views(districts@));
    let mut line: Vec<char> = Vec::new();
    if fallen.len() < 1 {
        push_str(&mut line, "No cannon shots can be heard in the distance.\n");
    } else if fallen.len() == 1 {
        push_str(&mut line, "1 cannon shot can be heard in the distance.\n");
    } else {
        push_decimal(&mut line, fallen.len() as u64);
        push_str(&mut line, " cannon shots can be heard in the distance.\n");
    }
    assert(line@ =~= cannon_line(fallen@.len()));
    let mut events: Vec<EventResult> = Vec::new();
    events.push(EventResult::new(string_of(&line).as_str()));
    assert(result_views(events@) =~= target.take(1));
    let mut i: usize = 0;
    while i < fallen.len()
        invariant
            i <= fallen.len(),
            target == fallen_report(fallen@, district_views(districts@)),
            result_views(events@) == target.take(i + 1),
        decreases fallen.len() - i,
    {
        let mut text: Vec<char> = Vec::new();
        push_str(&mut text, fallen[i].name.as_str());
        push_str(&mut text, " from ");
        push_str(&mut text, name_of_district(districts, fallen[i].get_id()).as_str());
        let mut event = EventResult::new(string_of(&text).as_str());
        event.tributes.push(fallen[i].clone());
        let ghost before = result_views(events@);
        proof {
            assert(text@ =~= fallen_entry(fallen@[i as int], district_views(districts@)).text);
            assert(event.tributes@ =~= seq![fallen@[i as int]]);
            assert(event@ == fallen_entry(fallen@[i as int], district_views(districts@)));
        }
        events.push(event);
        assert(result_views(events@) =~= before.push(target[i + 1]));
        assert(target.take(i + 2) =~= target.take(i + 1).push(target[i + 1]));
        i += 1;
    }
    assert(target.take(fallen.len() + 1) =~= target);
    events
}

/// The line of a living tribute of a district in the list of the living.
pub open spec fn living_line(t: Tribute, district: Seq<char>) -> Seq<char> {
    "\t"@ + t.name@ + " ("@ + district + ") ["@ + decimal(t.kills as nat) + " "@ + (if t.kills
        == 1 {
        "kill"@
    } else {
        "kills"@
    }) + "]\n"@
}

/// The lines of the living among the first `n` tributes of a district.
pub open spec fn living_lines(d: DistrictView, n: int) -> Seq<char>
    decreases n,
{
    if n <= 0 {
        Seq::empty()
    } else {
        living_lines(d, n - 1) + if n <= d.tributes.len() && d.tributes[n - 1].is_alive {
            living_line(d.tributes[n - 1], d.name)
        } else {
            Seq::empty()
        }
    }
}

/// The list of the living of the first `n` districts, under its heading.
pub open spec fn display_upto(districts: Seq<DistrictView>, n: int) -> Seq<char>
    decreases n,
{
    if n <= 0 {
        "Living tributes:\n"@
    } else {
        display_upto(districts, n - 1) + if n <= districts.len() {
            living_lines(districts[n - 1], districts[n - 1].tributes.len() as int)
        } else {
            Seq::empty()
        }
    }
}

/// The list of the living of some districts: a heading, then for each of
/// the living a line with its name, its district and its kills.
pub fn display_living(districts: &Vec<District>) -> (r: String)
    ensures
        r@ == display_upto(district_views(districts@), districts.len() as int),
{
    let ghost all = district_views(districts@);
    let mut out: Vec<char> = Vec::new();
    push_str(&mut out, "Living tributes:\n");
    assert(out@ =~= display_upto(all, 0));
    let mut i: usize = 0;
    while i < districts.len()
        invariant
            i <= districts.len(),
            all == district_views(districts@),
            out@ == display_upto(all, i as int),
        decreases districts.len() - i,
    {
        let ghost head = out@;
        let ghost here = all[i as int];
        let mut j: usize = 0;
        assert(out@ =~= head + living_lines(here, 0));
        while j < districts[i].tributes.len()
            invariant
                i < districts.len(),
                j <= districts[i as int].tributes.len(),
                all == district_views(districts@),
                here == all[i as int],
                out@ == head + living_lines(here, j as int),
            decreases districts[i as int].tributes.len() - j,
        {
            let trib = &districts[i].tributes[j];
            if trib.is_alive {
                let ghost before = out@;
                push_str(&mut out, "\t");
                push_str(&mut out, trib.name.as_str());
                push_str(&mut out, " (");
                push_str(&mut out, districts[i].name.as_str());
                push_str(&mut out, ") [");
                push_decimal(&mut out, trib.kills as u64);
                push_str(&mut out, " ");
                if trib.kills == 1 {
                    push_str(&mut out, "kill");
                } else {
                    push_str(&mut out, "kills");
                }
                push_str(&mut out, "]\n");
                assert(out@ =~= before + living_line(*trib, here.name));
                assert(out@ =~= head + living_lines(here, j + 1));
            } else {
                assert(out@ =~= head + living_lines(here, j + 1));
            }
            j += 1;
        }
        i += 1;
    }
    string_of(&out)
}

} // verus!
