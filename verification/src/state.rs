//! The state of a session, and what a game supplies to run one.

use vstd::prelude::*;

verus! {

/// The state of one session as the game's own code sees it: the state that
/// the members share and, keyed by the member's index, the state of each
/// member that has one.
pub struct ActionState<S, P> {
    pub shared: S,
    pub users: Vec<(u64, P)>,
}

/// A session's state as a value: the shared state and the members' states in
/// the order in which they are kept.
pub struct StateView<S, P> {
    pub shared: S,
    pub users: Seq<(u64, P)>,
}

/// What the start of a session yields: the shared state after it, and one
/// state for each member in the order of the lobby.
pub struct Started<S, P> {
    pub shared: S,
    pub states: Seq<P>,
}

impl<S, P> View for ActionState<S, P> {
    type V = StateView<S, P>;

    open spec fn view(&self) -> StateView<S, P> {
        StateView { shared: self.shared, users: self.users@ }
    }
}

impl<S, P> StateView<S, P> {
    /// Where the state of member `i` stands in `users`.
    pub open spec fn slot(self, i: u64) -> Option<int> {
        slot_below(self.users, i, self.users.len() as int)
    }

    /// Whether member `i` has a state.
    pub open spec fn has_user(self, i: u64) -> bool {
        self.slot(i).is_some()
    }

    /// The indices of the members that have a state, in the order of `users`.
    pub open spec fn indices(self) -> Seq<u64> {
        self.users.map_values(|e: (u64, P)| e.0)
    }
}

/// The place of the first of the first `n` entries of `users` that is keyed
/// by `i`.
pub open spec fn slot_below<P>(users: Seq<(u64, P)>, i: u64, n: int) -> Option<int>
    decreases n,
{
    if n <= 0 {
        None
    } else {
        match slot_below(users, i, n - 1) {
            Some(k) => Some(k),
            None => if users[n - 1].0 == i {
                Some(n - 1)
            } else {
                None
            },
        }
    }
}

/// What `slot_below` finds is the first entry with the key, and it finds one
/// where there is one.
pub proof fn slot_below_is_first<P>(users: Seq<(u64, P)>, i: u64, n: int)
    requires
        n <= users.len(),
    ensures
        match slot_below(users, i, n) {
            Some(k) => 0 <= k < n && users[k].0 == i && forall|j: int| 0 <= j < k ==> (#[trigger] users[j]).0 != i,
            None => forall|j: int| 0 <= j < n ==> (#[trigger] users[j]).0 != i,
        },
    decreases n,
{
    if n > 0 {
        slot_below_is_first(users, i, n - 1);
    }
}

impl<S, P> ActionState<S, P> {
    /// A session's state before its members have states of their own.
    pub fn new(shared: S) -> (state: Self)
        ensures
            state@ == (StateView::<S, P> { shared, users: Seq::empty() }),
    {
        ActionState { shared, users: Vec::new() }
    }

    /// Where the state of member `i` stands, if the member has one.
    pub fn find(&self, i: u64) -> (found: Option<usize>)
        ensures
            match found {
                Some(k) => self@.slot(i) == Some(k as int) && k < self.users@.len() && self.users@[k as int].0 == i,
                None => self@.slot(i).is_none(),
            },
    {
        let mut k: usize = 0;
        while k < self.users.len()
            invariant
                k <= self.users.len(),
                slot_below(self.users@, i, k as int).is_none(),
            decreases self.users.len() - k,
        {
            if self.users[k].0 == i {
                proof {
                    let n = self.users@.len() as int;
                    slot_below_is_first(self.users@, i, n);
                    slot_below_is_first(self.users@, i, k as int);
                    assert(slot_below(self.users@, i, k + 1) == Some(k as int));
                    match slot_below(self.users@, i, n) {
                        Some(m) => {
                            if m > k {
                                assert(self.users@[k as int].0 != i);
                            }
                            if m < k {
                                assert(self.users@[m].0 != i);
                            }
                        },
                        None => {
                            assert(self.users@[k as int].0 != i);
                        },
                    }
                }
                return Some(k);
            }
            k = k + 1;
        }
        None
    }

    /// Whether `index` is the member that `i` stands for.
    pub fn index_matches(&self, i: u64, index: u64) -> (same: bool)
        ensures
            same == (i == index),
    {
        i == index
    }

    /// The state of member `i`, if the member has one.
    pub fn user(&self, i: u64) -> (found: Option<&P>)
        ensures
            match found {
                Some(p) => self@.slot(i).is_some() && *p == self.users@[self@.slot(i).unwrap()].1,
                None => self@.slot(i).is_none(),
            },
    {
        match self.find(i) {
            Some(k) => Some(&self.users[k].1),
            None => None,
        }
    }

    /// Gives member `i` the state `state` if the member has one already, and
    /// says whether it had.
    pub fn set_user(&mut self, i: u64, state: P) -> (had: bool)
        ensures
            had == old(self)@.has_user(i),
            final(self).shared == old(self).shared,
            had ==> final(self).users@ == old(self).users@.update(old(self)@.slot(i).unwrap(), (i, state)),
            !had ==> final(self).users@ == old(self).users@,
    {
        match self.find(i) {
            Some(k) => {
                self.users.set(k, (i, state));
                true
            },
            None => false,
        }
    }

    /// The state of member `i`, to be changed, if the member has one.
    pub fn user_mut(&mut self, i: u64) -> (found: Option<&mut P>)
        ensures
            match found {
                Some(p) => old(self)@.slot(i).is_some() && *p == old(self).users@[old(self)@.slot(i).unwrap()].1
                    && final(self).shared == old(self).shared && final(self).users@ == old(self).users@.update(
                    old(self)@.slot(i).unwrap(),
                    (i, *final(p)),
                ),
                None => old(self)@.slot(i).is_none() && *final(self) == *old(self),
            },
    {
        match self.find(i) {
            Some(k) => Some(&mut self.users[k].1),
            None => None,
        }
    }

    /// The state that the members share, to be changed.
    pub fn shared_mut(&mut self) -> (shared: &mut S)
        ensures
            *shared == old(self).shared,
            final(self).shared == *final(shared),
            final(self).users == old(self).users,
    {
        &mut self.shared
    }

    /// The state that the members share.
    pub fn shared(&self) -> (shared: &S)
        ensures
            *shared == self.shared,
    {
        &self.shared
    }

    /// The indices of the members that have a state.
    pub fn indices(&self) -> (indices: Vec<u64>)
        ensures
            indices@ == self@.indices(),
    {
        let mut indices: Vec<u64> = Vec::new();
        let mut k: usize = 0;
        while k < self.users.len()
            invariant
                k <= self.users.len(),
                indices@ == self@.indices().take(k as int),
            decreases self.users.len() - k,
        {
            indices.push(self.users[k].0);
            assert(indices@ =~= self@.indices().take(k + 1));
            k = k + 1;
        }
        assert(self@.indices().take(self.users@.len() as int) =~= self@.indices());
        indices
    }
}

/// The state that the members of a session share. The game supplies the
/// type; `Info` is what a viewer is shown of it. What its methods return is
/// given a name, so that the server's results can be stated; that a method
/// depends on its arguments alone is the implementor's word.
pub trait SharedState: Sized {
    type Info;

    /// The state that each member has for itself.
    type User;

    /// The state that a session starts from, given its seed.
    spec fn seeded(seed: [u8; 32]) -> Self;

    /// What the member `index` is shown of the shared state.
    spec fn shown(index: u64, state: StateView<Self, Self::User>) -> Self::Info;

    fn init(seed: [u8; 32]) -> (shared: Self)
        ensures
            shared == Self::seeded(seed),
    ;

    fn info(index: u64, state: &ActionState<Self, Self::User>) -> (info: Self::Info)
        ensures
            info == Self::shown(index, state@),
    ;
}

/// The state that a member of a session has for itself. The game supplies
/// the type; `Info` is what a viewer is shown of it. As with the shared
/// state, the results of its methods are named, on the implementor's word.
pub trait UserState: Sized {
    type Info;

    /// The state that the members share.
    type Shared;

    /// The shared state and the members' states once a session of `users`
    /// members starts from `shared`.
    spec fn started(shared: Self::Shared, users: usize) -> Started<Self::Shared, Self>;

    /// What the member `viewer` is shown of the state of the member `owner`.
    spec fn shown(viewer: u64, owner: u64, state: StateView<Self::Shared, Self>) -> Self::Info;

    /// One state for each of the `users` members, in the order of the lobby.
    fn init(shared: &mut Self::Shared, users: usize) -> (states: Vec<Self>)
        ensures
            *final(shared) == Self::started(*old(shared), users).shared,
            states@ == Self::started(*old(shared), users).states,
    ;

    fn info(viewer: u64, owner: u64, state: &ActionState<Self::Shared, Self>) -> (info: Self::Info)
        ensures
            info == Self::shown(viewer, owner, state@),
    ;
}

/// What a member can do in a session. The game supplies the type. The
/// results of its methods are named, on the implementor's word.
pub trait Action: Sized {
    type Shared;

    type User;

    /// The session after one tick has passed over `state`.
    spec fn updated(state: StateView<Self::Shared, Self::User>) -> StateView<Self::Shared, Self::User>;

    /// The session after the member `index` has done this action in `state`.
    spec fn resolved(self, index: u64, state: StateView<Self::Shared, Self::User>) -> StateView<
        Self::Shared,
        Self::User,
    >;

    fn update(state: &mut ActionState<Self::Shared, Self::User>)
        ensures
            final(state)@ == Self::updated(old(state)@),
    ;

    fn resolve(self, index: u64, state: &mut ActionState<Self::Shared, Self::User>)
        ensures
            final(state)@ == self.resolved(index, old(state)@),
    ;
}

} // verus!
