//! A district: a named group that owns its tributes.

use vstd::prelude::*;
use crate::tribute::{ids_distinct, ids_of, Tribute};

verus! {

/// A named group of tributes.
#[derive(Debug)]
pub struct District {
    pub file_name: String,
    pub name: String,
    pub tributes: Vec<Tribute>,
}

/// What a district is: its names and its tributes in their order.
pub struct DistrictView {
    pub file_name: Seq<char>,
    pub name: Seq<char>,
    pub tributes: Seq<Tribute>,
}

impl View for District {
    type V = DistrictView;

    open spec fn view(&self) -> DistrictView {
        DistrictView { file_name: self.file_name@, name: self.name@, tributes: self.tributes@ }
    }
}

/// The districts of a sequence as what they are.
pub open spec fn district_views(v: Seq<District>) -> Seq<DistrictView> {
    v.map_values(|d: District| d@)
}

/// The tributes of all the districts, district after district.
pub open spec fn everyone(districts: Seq<DistrictView>) -> Seq<Tribute>
    decreases districts.len(),
{
    if districts.len() == 0 {
        Seq::empty()
    } else {
        everyone(districts.drop_last()) + districts.last().tributes
    }
}

/// The living among some tributes, in their order.
pub open spec fn living(tributes: Seq<Tribute>) -> Seq<Tribute> {
    tributes.filter(|t: Tribute| t.is_alive)
}

/// One more tribute is living if it is alive, and left out if not.
pub proof fn lemma_living_step(tributes: Seq<Tribute>, i: int)
    requires
        0 <= i < tributes.len(),
    ensures
        living(tributes.take(i + 1)) == if tributes[i].is_alive {
            living(tributes.take(i)).push(tributes[i])
        } else {
            living(tributes.take(i))
        },
{
    let pred = |t: Tribute| t.is_alive;
    tributes.take(i).lemma_filter_push(tributes[i], pred);
    assert(tributes.take(i + 1) =~= tributes.take(i).push(tributes[i]));
}

/// Among more tributes no fewer are living.
pub proof fn lemma_living_grows(tributes: Seq<Tribute>, i: int, j: int)
    requires
        0 <= i <= j <= tributes.len(),
    ensures
        living(tributes.take(i)).len() <= living(tributes.take(j)).len(),
    decreases j - i,
{
    if i < j {
        lemma_living_step(tributes, j - 1);
        lemma_living_grows(tributes, i, j - 1);
    }
}

/// The tributes of one more district follow those of the districts before.
pub proof fn lemma_everyone_step(districts: Seq<DistrictView>, i: int)
    requires
        0 <= i < districts.len(),
    ensures
        everyone(districts.take(i + 1)) == everyone(districts.take(i)) + districts[i].tributes,
        living(everyone(districts.take(i + 1))) == living(everyone(districts.take(i))) + living(
            districts[i].tributes,
        ),
{
    assert(districts.take(i + 1).drop_last() =~= districts.take(i));
    Seq::filter_distributes_over_add(
        everyone(districts.take(i)),
        districts[i].tributes,
        |t: Tribute| t.is_alive,
    );
}

/// A copy of some tributes.
pub fn clone_tributes(tributes: &Vec<Tribute>) -> (r: Vec<Tribute>)
    ensures
        r@ == tributes@,
{
    let mut r: Vec<Tribute> = Vec::new();
    let mut i: usize = 0;
    while i < tributes.len()
        invariant
            i <= tributes.len(),
            r@ == tributes@.take(i as int),
        decreases tributes.len() - i,
    {
        r.push(tributes[i].clone());
        i += 1;
    }
    r
}

impl Clone for District {
    fn clone(&self) -> (r: Self)
        ensures
            r@ == self@,
    {
        District {
            file_name: self.file_name.clone(),
            name: self.name.clone(),
            tributes: clone_tributes(&self.tributes),
        }
    }
}

impl District {
    /// Whether at least one tribute of the district is alive.
    pub fn has_living_tributes(&self) -> (r: bool)
        ensures
            r == (living(self.tributes@).len() > 0),
    {
        let mut i: usize = 0;
        while i < self.tributes.len()
            invariant
                i <= self.tributes.len(),
                living(self.tributes@.take(i as int)).len() == 0,
            decreases self.tributes.len() - i,
        {
            proof {
                lemma_living_step(self.tributes@, i as int);
            }
            if self.tributes[i].is_alive {
                proof {
                    lemma_living_grows(self.tributes@, i + 1, self.tributes.len() as int);
                    assert(self.tributes@.take(self.tributes.len() as int) =~= self.tributes@);
                }
                return true;
            }
            i += 1;
        }
        assert(self.tributes@.take(self.tributes.len() as int) =~= self.tributes@);
        false
    }

    /// The living tributes of the district, in their order.
    pub fn get_living(&self) -> (r: Vec<Tribute>)
        ensures
            r@ == living(self.tributes@),
    {
        let mut r: Vec<Tribute> = Vec::new();
        let mut i: usize = 0;
        while i < self.tributes.len()
            invariant
                i <= self.tributes.len(),
                r@ == living(self.tributes@.take(i as int)),
            decreases self.tributes.len() - i,
        {
            proof {
                lemma_living_step(self.tributes@, i as int);
            }
            if self.tributes[i].is_alive {
                r.push(self.tributes[i].clone());
            }
            i += 1;
        }
        assert(self.tributes@.take(self.tributes.len() as int) =~= self.tributes@);
        r
    }
}

/// Whether no identity stands twice among the tributes of some districts.
pub open spec fn distinct_ids(districts: Seq<DistrictView>) -> bool {
    ids_distinct(everyone(districts))
}

/// Whether a tribute with the identity `id` is among some tributes.
pub open spec fn has_id(tributes: Seq<Tribute>, id: usize) -> bool {
    exists|k: int| 0 <= k < tributes.len() && tributes[k].id == id
}

/// The name of the first of the districts `districts[from..]` that has a
/// tribute with the identity `id`, or "Unknown District".
pub open spec fn district_name_of(districts: Seq<DistrictView>, id: usize, from: int) -> Seq<char>
    decreases districts.len() - from,
{
    if from < 0 || from >= districts.len() {
        "Unknown District"@
    } else if has_id(districts[from].tributes, id) {
        districts[from].name
    } else {
        district_name_of(districts, id, from + 1)
    }
}

/// The living among the first tributes stay the first of the living.
pub proof fn lemma_living_prefix(tributes: Seq<Tribute>, n: int)
    requires
        0 <= n <= tributes.len(),
    ensures
        living(tributes.take(n)).len() <= living(tributes).len(),
        forall|k: int|
            0 <= k < living(tributes.take(n)).len() ==> living(tributes.take(n))[k] == living(
                tributes,
            )[k],
    decreases tributes.len() - n,
{
    if n == tributes.len() {
        assert(tributes.take(n) =~= tributes);
    } else {
        lemma_living_prefix(tributes, n + 1);
        lemma_living_step(tributes, n);
    }
}

/// The living of the first districts stay the first of the living.
pub proof fn lemma_alive_prefix(districts: Seq<DistrictView>, n: int)
    requires
        0 <= n <= districts.len(),
    ensures
        living(everyone(districts.take(n))).len() <= living(everyone(districts)).len(),
        forall|k: int|
            0 <= k < living(everyone(districts.take(n))).len() ==> living(
                everyone(districts.take(n)),
            )[k] == living(everyone(districts))[k],
    decreases districts.len() - n,
{
    if n == districts.len() {
        assert(districts.take(n) =~= districts);
    } else {
        lemma_alive_prefix(districts, n + 1);
        lemma_everyone_step(districts, n);
    }
}

/// The living among tributes with distinct identities have distinct
/// identities.
pub proof fn lemma_living_distinct(tributes: Seq<Tribute>)
    requires
        ids_distinct(tributes),
    ensures
        ids_distinct(living(tributes)),
    decreases tributes.len(),
{
    reveal(Seq::filter);
    if tributes.len() > 0 {
        let head = tributes.drop_last();
        let last = tributes.last();
        assert forall|i: int, j: int| 0 <= i < j < head.len() implies head[i].id != head[j].id by {
            assert(head[i] == tributes[i]);
            assert(head[j] == tributes[j]);
        }
        lemma_living_distinct(head);
        if last.is_alive {
            let l = living(tributes);
            assert(l == living(head).push(last));
            assert forall|i: int, j: int| 0 <= i < j < l.len() implies l[i].id != l[j].id by {
                if j == l.len() - 1 {
                    let pred = |t: Tribute| t.is_alive;
                    assert(living(head).contains(l[i]));
                    head.lemma_filter_contains_rev(pred, l[i]);
                    let k = choose|k: int| 0 <= k < head.len() && head[k] == l[i];
                    assert(tributes[k] == l[i]);
                    assert(tributes[k].id != tributes[tributes.len() - 1].id);
                } else {
                    assert(l[i] == living(head)[i]);
                    assert(l[j] == living(head)[j]);
                }
            }
        }
    }
}

/// A copy of some districts.
pub fn clone_districts(districts: &Vec<District>) -> (r: Vec<District>)
    ensures
        district_views(r@) == district_views(districts@),
{
    let mut r: Vec<District> = Vec::new();
    let mut i: usize = 0;
    while i < districts.len()
        invariant
            i <= districts.len(),
            district_views(r@) == district_views(districts@).take(i as int),
        decreases districts.len() - i,
    {
        let ghost before = district_views(r@);
        r.push(districts[i].clone());
        assert(district_views(r@) =~= before.push(districts@[i as int]@));
        assert(district_views(districts@).take(i + 1) =~= district_views(districts@).take(
            i as int,
        ).push(districts@[i as int]@));
        i += 1;
    }
    assert(district_views(districts@).take(districts.len() as int) =~= district_views(
        districts@,
    ));
    r
}

/// The living tributes of some districts, district after district.
pub fn living_of(districts: &Vec<District>) -> (r: Vec<Tribute>)
    ensures
        r@ == living(everyone(district_views(districts@))),
{
    let ghost all = district_views(districts@);
    let mut r: Vec<Tribute> = Vec::new();
    let mut i: usize = 0;
    proof {
        assert(all.take(0) =~= Seq::<DistrictView>::empty());
        reveal(Seq::filter);
    }
    while i < districts.len()
        invariant
            i <= districts.len(),
            all == district_views(districts@),
            r@ == living(everyone(all.take(i as int))),
        decreases districts.len() - i,
    {
        proof {
            lemma_everyone_step(all, i as int);
        }
        if districts[i].has_living_tributes() {
            let mut more = districts[i].get_living();
            r.append(&mut more);
        } else {
            assert(r@ + living(all[i as int].tributes) =~= r@);
        }
        i += 1;
    }
    assert(all.take(districts.len() as int) =~= all);
    r
}

/// The identities of the tributes of some districts, district after
/// district.
pub fn all_ids(districts: &Vec<District>) -> (r: Vec<usize>)
    ensures
        r@ == ids_of(everyone(district_views(districts@))),
{
    let ghost all = district_views(districts@);
    let mut r: Vec<usize> = Vec::new();
    let mut i: usize = 0;
    assert(all.take(0) =~= Seq::<DistrictView>::empty());
    assert(r@ =~= ids_of(everyone(all.take(0))));
    while i < districts.len()
        invariant
            i <= districts.len(),
            all == district_views(districts@),
            r@ == ids_of(everyone(all.take(i as int))),
        decreases districts.len() - i,
    {
        let ghost head = r@;
        let mut j: usize = 0;
        assert(r@ =~= head + ids_of(all[i as int].tributes.take(0)));
        while j < districts[i].tributes.len()
            invariant
                i < districts.len(),
                j <= districts[i as int].tributes.len(),
                all == district_views(districts@),
                r@ == head + ids_of(all[i as int].tributes.take(j as int)),
            decreases districts[i as int].tributes.len() - j,
        {
            r.push(districts[i].tributes[j].get_id());
            assert(r@ =~= head + ids_of(all[i as int].tributes.take(j + 1)));
            j += 1;
        }
        proof {
            lemma_everyone_step(all, i as int);
            assert(all[i as int].tributes.take(all[i as int].tributes.len() as int)
                =~= all[i as int].tributes);
            assert(r@ =~= ids_of(everyone(all.take(i + 1))));
        }
        i += 1;
    }
    assert(all.take(districts.len() as int) =~= all);
    r
}

/// Whether no identity stands twice among the tributes of the districts.
pub fn have_distinct_ids(districts: &Vec<District>) -> (r: bool)
    ensures
        r == distinct_ids(district_views(districts@)),
{
    let ids = all_ids(districts);
    let ghost everybody = everyone(district_views(districts@));
    let mut j: usize = 0;
    while j < ids.len()
        invariant
            j <= ids.len(),
            everybody == everyone(district_views(districts@)),
            ids@ == ids_of(everybody),
            forall|a: int, b: int| 0 <= a < b < j ==> ids[a] != ids[b],
        decreases ids.len() - j,
    {
        let mut i: usize = 0;
        while i < j
            invariant
                i <= j < ids.len(),
                everybody == everyone(district_views(districts@)),
                ids@ == ids_of(everybody),
                forall|a: int| 0 <= a < i ==> ids[a] != ids[j as int],
            decreases j - i,
        {
            if ids[i] == ids[j] {
                proof {
                    assert(ids@[i as int] == everybody[i as int].id);
                    assert(ids@[j as int] == everybody[j as int].id);
                    assert(everybody[i as int].id == everybody[j as int].id);
                    assert(!ids_distinct(everybody));
                }
                return false;
            }
            i += 1;
        }
        j += 1;
    }
    assert forall|a: int, b: int| 0 <= a < b < everybody.len() implies everybody[a].id
        != everybody[b].id by {
        assert(ids[a] == everybody[a].id);
        assert(ids[b] == everybody[b].id);
    }
    true
}

/// Whether a tribute with the identity `id` is among the tributes.
pub fn holds_id(tributes: &Vec<Tribute>, id: usize) -> (r: bool)
    ensures
        r == has_id(tributes@, id),
{
    let mut k: usize = 0;
    while k < tributes.len()
        invariant
            k <= tributes.len(),
            forall|j: int| 0 <= j < k ==> tributes[j].id != id,
        decreases tributes.len() - k,
    {
        if tributes[k].get_id() == id {
            return true;
        }
        k += 1;
    }
    false
}

/// The name of the first district that has a tribute with the identity
/// `id`, or "Unknown District".
pub fn name_of_district(districts: &Vec<District>, id: usize) -> (r: String)
    ensures
        r@ == district_name_of(district_views(districts@), id, 0),
{
    let ghost all = district_views(districts@);
    let mut i: usize = 0;
    while i < districts.len()
        invariant
            i <= districts.len(),
            all == district_views(districts@),
            district_name_of(all, id, 0) == district_name_of(all, id, i as int),
        decreases districts.len() - i,
    {
        if holds_id(&districts[i].tributes, id) {
            return districts[i].name.clone();
        }
        i += 1;
    }
    "Unknown District".to_owned()
}

} // verus!
