//! A tribute: one competitor, with a stable identity, a name, a pronoun
//! category, an alive flag and a count of kills.

use vstd::prelude::*;
use crate::pronouns::Pronouns;

verus! {

/// Hands out identities, each one only once and in rising order.
#[derive(Debug)]
pub struct IdGenerator {
    next: usize,
}

impl IdGenerator {
    /// The identity that the generator hands out next.
    pub closed spec fn upcoming(&self) -> usize {
        self.next
    }

    /// A generator whose first identity is 1.
    pub fn new() -> (r: IdGenerator)
        ensures
            r.upcoming() == 1,
    {
        IdGenerator { next: 1 }
    }

    /// The next identity, or `None` once the identities are used up. Every
    /// identity handed out is greater than all those handed out before.
    pub fn new_id(&mut self) -> (r: Option<usize>)
        ensures
            old(self).upcoming() < usize::MAX ==> r == Some(old(self).upcoming())
                && final(self).upcoming() == old(self).upcoming() + 1,
            old(self).upcoming() == usize::MAX ==> r.is_none() && *final(self) == *old(self),
    {
        if self.next < usize::MAX {
            let id = self.next;
            self.next = id + 1;
            Some(id)
        } else {
            None
        }
    }
}

/// The alive flag that a tribute starts with.
pub fn default_true() -> (r: bool)
    ensures
        r,
{
    true
}

/// One competitor.
#[derive(Debug)]
pub struct Tribute {
    pub name: String,
    pub avatar_url: String,
    pub pronouns: Pronouns,
    pub kills: u32,
    pub is_alive: bool,
    /// Assigned once at creation; the library never changes it.
    pub id: usize,
}

/// The identities of some tributes.
pub open spec fn ids_of(tributes: Seq<Tribute>) -> Seq<usize> {
    tributes.map_values(|t: Tribute| t.id)
}

/// Whether no identity stands twice among some tributes.
pub open spec fn ids_distinct(tributes: Seq<Tribute>) -> bool {
    forall|i: int, j: int| 0 <= i < j < tributes.len() ==> tributes[i].id != tributes[j].id
}

impl Clone for Tribute {
    fn clone(&self) -> (r: Self)
        ensures
            r == *self,
    {
        Tribute {
            name: self.name.clone(),
            avatar_url: self.avatar_url.clone(),
            pronouns: self.pronouns,
            kills: self.kills,
            is_alive: self.is_alive,
            id: self.id,
        }
    }
}

impl Tribute {
    /// The tribute as it is once dead.
    pub open spec fn dead(self) -> Tribute {
        Tribute { is_alive: false, ..self }
    }

    /// The tribute with one more kill to its name.
    pub open spec fn credited(self) -> Tribute {
        Tribute { kills: (self.kills + 1) as u32, ..self }
    }

    /// A living tribute without kills.
    pub fn new(id: usize, name: String, avatar_url: String, pronouns: Pronouns) -> (r: Tribute)
        ensures
            r.id == id,
            r.name == name,
            r.avatar_url == avatar_url,
            r.pronouns == pronouns,
            r.kills == 0,
            r.is_alive,
    {
        Tribute { name, avatar_url, pronouns, kills: 0, is_alive: default_true(), id }
    }

    /// The identity of the tribute.
    pub fn get_id(&self) -> (r: usize)
        ensures
            r == self.id,
    {
        self.id
    }

    /// Marks the tribute dead.
    pub fn kill(&mut self)
        ensures
            *final(self) == old(self).dead(),
    {
        self.is_alive = false;
    }

    /// Credits the tribute with one more kill.
    pub fn add_kill(&mut self)
        requires
            old(self).kills < u32::MAX,
        ensures
            *final(self) == old(self).credited(),
    {
        self.kills += 1;
    }
}

/// Where no identity stands twice among tributes, none stands twice among
/// their identities.
pub proof fn lemma_ids_no_duplicates(tributes: Seq<Tribute>)
    requires
        ids_distinct(tributes),
    ensures
        ids_of(tributes).no_duplicates(),
{
    assert forall|i: int, j: int|
        0 <= i < ids_of(tributes).len() && 0 <= j < ids_of(tributes).len() && i
            != j implies ids_of(tributes)[i] != ids_of(tributes)[j] by {
        if i < j {
            assert(tributes[i].id != tributes[j].id);
        } else {
            assert(tributes[j].id != tributes[i].id);
        }
    }
}

} // verus!
