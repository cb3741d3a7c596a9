//! Lobbies: the fixed groups that the matchmaker forms.

use vstd::prelude::*;
use crate::entity::Entity;
use crate::msg::AsQueue;

verus! {

/// The members of a session, in the order in which the matchmaker took them:
/// the anchor first. Once formed, a lobby keeps its members.
#[derive(Debug)]
pub struct Lobby {
    members: Vec<Entity>,
}

impl View for Lobby {
    type V = Seq<Entity>;

    closed spec fn view(&self) -> Seq<Entity> {
        self.members@
    }
}

impl Clone for Lobby {
    fn clone(&self) -> (copy: Self)
        ensures
            copy@ == self@,
    {
        let mut members: Vec<Entity> = Vec::new();
        let mut k: usize = 0;
        while k < self.members.len()
            invariant
                k <= self.members.len(),
                members@ == self.members@.take(k as int),
            decreases self.members.len() - k,
        {
            members.push(self.members[k]);
            assert(members@ =~= self.members@.take(k + 1));
            k = k + 1;
        }
        assert(self.members@.take(self.members@.len() as int) =~= self.members@);
        Lobby { members }
    }
}

impl Lobby {
    /// The lobby of `entities`, if they are `size` in number.
    pub fn try_from(entities: &Vec<Entity>, size: usize) -> (lobby: Option<Lobby>)
        ensures
            entities.len() == size ==> lobby.is_some() && lobby.unwrap()@ == entities@,
            entities.len() != size ==> lobby.is_none(),
    {
        if entities.len() != size {
            None
        } else {
            Some(Lobby::of(entities))
        }
    }

    /// The lobby of `entities`.
    pub fn of(entities: &Vec<Entity>) -> (lobby: Lobby)
        ensures
            lobby@ == entities@,
    {
        let mut members: Vec<Entity> = Vec::new();
        let mut k: usize = 0;
        while k < entities.len()
            invariant
                k <= entities.len(),
                members@ == entities@.take(k as int),
            decreases entities.len() - k,
        {
            members.push(entities[k]);
            assert(members@ =~= entities@.take(k + 1));
            k = k + 1;
        }
        assert(entities@.take(entities@.len() as int) =~= entities@);
        Lobby { members }
    }

    /// How many members the lobby has.
    pub fn len(&self) -> (n: usize)
        ensures
            n == self@.len(),
    {
        self.members.len()
    }

    pub fn is_empty(&self) -> (empty: bool)
        ensures
            empty == (self@.len() == 0),
    {
        self.len() == 0
    }

    /// The member at place `k`.
    pub fn entity(&self, k: usize) -> (e: Entity)
        requires
            k < self@.len(),
        ensures
            e == self@[k as int],
    {
        self.members[k]
    }

    /// The members, in order.
    pub fn entities(&self) -> (members: Vec<Entity>)
        ensures
            members@ == self@,
    {
        self.clone().members
    }

    /// Where `e` stands in the lobby, if it is a member.
    pub fn place_of(&self, e: Entity) -> (found: Option<usize>)
        ensures
            match found {
                Some(k) => k < self@.len() && self@[k as int] == e,
                None => !self@.contains(e),
            },
    {
        let mut k: usize = 0;
        while k < self.members.len()
            invariant
                k <= self.members.len(),
                forall|j: int| 0 <= j < k ==> self.members@[j] != e,
            decreases self.members.len() - k,
        {
            if self.members[k].bits == e.bits {
                return Some(k);
            }
            k = k + 1;
        }
        None
    }
}

/// A queue that the server runs. The queues of a server are numbered, and
/// each has its own store and its own lobby size.
pub trait Queue: AsQueue {
    /// The number of the queue.
    spec fn slot(&self) -> usize;

    fn index(&self) -> (i: usize)
        ensures
            i == self.slot(),
    ;
}

} // verus!
