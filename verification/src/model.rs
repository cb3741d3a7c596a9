//! The store as a value: the participants and the sessions, what each
//! request makes of them, and the invariant that every request keeps.
//!
//! A participant is queued or placed in a lobby, never both. A lobby keeps
//! the members it was formed with: a member that goes leaves its place
//! empty, and nobody takes it. A lobby with an empty place can no longer
//! collect the consent of all its members, so its session never becomes
//! active; it stays until it is ended.
//!
//! A participant leaves on its own request while it is queued or its session
//! is not active yet; in an active session the request is ignored. A socket
//! that closes removes nobody: the participant stays and may reconnect.
//! Whoever runs the server may remove a participant that it deems gone for
//! good, and may end a session; a session does not end by itself.

use vstd::prelude::*;
use crate::account::Account;
use crate::entity::{Entity, EntityId};
use crate::queue::Lobby;
use crate::state::{ActionState, StateView};

verus! {

/// Where a participant stands: waiting in the queue, or placed in the lobby
/// of a session, having consented to play there or not yet.
#[derive(Clone, Copy, Debug, PartialEq, Eq, Structural)]
pub enum Place {
    Queue,
    Lobby { session: EntityId, accepted: bool },
}

/// A participant's record.
pub struct User<U, C> {
    pub entity: Entity,
    pub account: Account,
    pub user_data: U,
    /// The handles of the participant's live connection.
    pub connection: C,
    pub place: Place,
}

/// A session's record. The session is active once `accepted` is set.
pub struct Session<S, P> {
    pub entity: Entity,
    pub lobby: Lobby,
    pub accepted: bool,
    pub state: ActionState<S, P>,
}

/// A session's record as a value.
pub struct SessionView<S, P> {
    pub entity: Entity,
    pub lobby: Seq<Entity>,
    pub accepted: bool,
    pub state: StateView<S, P>,
}

impl<S, P> View for Session<S, P> {
    type V = SessionView<S, P>;

    open spec fn view(&self) -> SessionView<S, P> {
        SessionView { entity: self.entity, lobby: self.lobby@, accepted: self.accepted, state: self.state@ }
    }
}

/// The place of the first of the first `n` users that has entity `e`.
pub open spec fn position_below<U, C>(users: Seq<User<U, C>>, e: Entity, n: int) -> Option<int>
    decreases n,
{
    if n <= 0 {
        None
    } else {
        match position_below(users, e, n - 1) {
            Some(i) => Some(i),
            None => if users[n - 1].entity == e {
                Some(n - 1)
            } else {
                None
            },
        }
    }
}

/// The place of the first of the first `n` users that plays for `account`.
pub open spec fn registered_below<U, C>(users: Seq<User<U, C>>, account: Account, n: int) -> Option<int>
    decreases n,
{
    if n <= 0 {
        None
    } else {
        match registered_below(users, account, n - 1) {
            Some(i) => Some(i),
            None => if users[n - 1].account == account {
                Some(n - 1)
            } else {
                None
            },
        }
    }
}

/// The place of the first of the first `n` sessions that has entity `e`.
pub open spec fn session_below<S, P>(sessions: Seq<SessionView<S, P>>, e: Entity, n: int) -> Option<int>
    decreases n,
{
    if n <= 0 {
        None
    } else {
        match session_below(sessions, e, n - 1) {
            Some(k) => Some(k),
            None => if sessions[n - 1].entity == e {
                Some(n - 1)
            } else {
                None
            },
        }
    }
}

/// What `position_below` finds is the first user with the entity, and it
/// finds one where there is one.
pub proof fn position_below_is_first<U, C>(users: Seq<User<U, C>>, e: Entity, n: int)
    requires
        n <= users.len(),
    ensures
        match position_below(users, e, n) {
            Some(i) => 0 <= i < n && users[i].entity == e && forall|j: int|
                0 <= j < i ==> (#[trigger] users[j]).entity != e,
            None => forall|j: int| 0 <= j < n ==> (#[trigger] users[j]).entity != e,
        },
    decreases n,
{
    if n > 0 {
        position_below_is_first(users, e, n - 1);
    }
}

/// What `registered_below` finds is the first user with the account, and it
/// finds one where there is one.
pub proof fn registered_below_is_first<U, C>(users: Seq<User<U, C>>, account: Account, n: int)
    requires
        n <= users.len(),
    ensures
        match registered_below(users, account, n) {
            Some(i) => 0 <= i < n && users[i].account == account && forall|j: int|
                0 <= j < i ==> (#[trigger] users[j]).account != account,
            None => forall|j: int| 0 <= j < n ==> (#[trigger] users[j]).account != account,
        },
    decreases n,
{
    if n > 0 {
        registered_below_is_first(users, account, n - 1);
    }
}

/// What `session_below` finds is the first session with the entity, and it
/// finds one where there is one.
pub proof fn session_below_is_first<S, P>(sessions: Seq<SessionView<S, P>>, e: Entity, n: int)
    requires
        n <= sessions.len(),
    ensures
        match session_below(sessions, e, n) {
            Some(k) => 0 <= k < n && sessions[k].entity == e && forall|j: int|
                0 <= j < k ==> (#[trigger] sessions[j]).entity != e,
            None => forall|j: int| 0 <= j < n ==> (#[trigger] sessions[j]).entity != e,
        },
    decreases n,
{
    if n > 0 {
        session_below_is_first(sessions, e, n - 1);
    }
}

/// The numbers of the users' entities, in the order of the users.
pub open spec fn user_bits<U, C>(users: Seq<User<U, C>>) -> Seq<u64> {
    Seq::new(users.len(), |i: int| users[i].entity.bits)
}

/// The numbers of the sessions' entities, in the order of the sessions.
pub open spec fn session_bits<S, P>(sessions: Seq<SessionView<S, P>>) -> Seq<u64> {
    Seq::new(sessions.len(), |k: int| sessions[k].entity.bits)
}

/// The store as a value: the lobby size of its queue, the number that the
/// next entity gets, the participants in the order in which they joined, and
/// the sessions in the order in which they formed.
pub struct Model<U, S, P, C> {
    pub size: usize,
    pub next: u64,
    pub users: Seq<User<U, C>>,
    pub sessions: Seq<SessionView<S, P>>,
}

impl<U, S, P, C> Model<U, S, P, C> {
    /// Where the participant with entity `e` stands among the users.
    pub open spec fn position(self, e: Entity) -> Option<int> {
        position_below(self.users, e, self.users.len() as int)
    }

    /// Where the participant that plays for `account` stands among the users.
    pub open spec fn registered(self, account: Account) -> Option<int> {
        registered_below(self.users, account, self.users.len() as int)
    }

    /// Where the session with entity `e` stands among the sessions.
    pub open spec fn session(self, e: Entity) -> Option<int> {
        session_below(self.sessions, e, self.sessions.len() as int)
    }

    /// Whether the session that `id` refers to is active.
    pub open spec fn is_active(self, id: EntityId) -> bool {
        match self.session(id.0) {
            Some(k) => self.sessions[k].accepted,
            None => false,
        }
    }

    /// The invariant of the store. No two participants share an entity or an
    /// account, no two sessions share an entity, and every entity in use is
    /// below `next`. A lobby has `size` members, each once. A participant
    /// that is placed in a lobby is a member of the session it refers to, and
    /// a member of a lobby that still participates is placed in that lobby:
    /// so no participant is a member of two lobbies.
    pub open spec fn wf(self) -> bool {
        &&& forall|i: int, j: int|
            0 <= i < j < self.users.len() ==> (#[trigger] self.users[i]).entity != (#[trigger] self.users[j]).entity
        &&& forall|i: int, j: int|
            0 <= i < j < self.users.len() ==> (#[trigger] self.users[i]).account != (
            #[trigger] self.users[j]).account
        &&& forall|i: int| 0 <= i < self.users.len() ==> (#[trigger] self.users[i]).entity.bits < self.next
        &&& forall|k: int| 0 <= k < self.sessions.len() ==> (#[trigger] self.sessions[k]).entity.bits < self.next
        &&& forall|k: int, l: int|
            0 <= k < l < self.sessions.len() ==> (#[trigger] self.sessions[k]).entity != (
            #[trigger] self.sessions[l]).entity
        &&& forall|k: int|
            0 <= k < self.sessions.len() ==> (#[trigger] self.sessions[k]).lobby.len() == self.size
                && self.sessions[k].lobby.no_duplicates()
        &&& forall|k: int, m: int|
            0 <= k < self.sessions.len() && 0 <= m < self.sessions[k].lobby.len() ==> (
            #[trigger] self.sessions[k].lobby[m]).bits < self.next
        &&& forall|i: int|
            0 <= i < self.users.len() ==> ((#[trigger] self.users[i]).place matches Place::Lobby { session, .. }
                ==> self.session(session.0).is_some() && self.sessions[self.session(session.0).unwrap()].lobby.contains(
                self.users[i].entity,
            ))
        &&& forall|k: int, m: int, i: int|
            0 <= k < self.sessions.len() && 0 <= m < self.sessions[k].lobby.len() && 0 <= i < self.users.len()
                && #[trigger] self.sessions[k].lobby[m] == (#[trigger] self.users[i]).entity
                ==> self.users[i].place is Lobby && self.users[i].place->session == EntityId(
                self.sessions[k].entity,
            )
    }

    /// The store after `account` has asked to join with `user_data` over
    /// `connection`: a new participant, queued, under the next entity. The
    /// store is as before if the account participates already, or if no
    /// entity is left.
    pub open spec fn joined(self, account: Account, user_data: U, connection: C) -> Self {
        if self.registered(account).is_some() || self.next == u64::MAX {
            self
        } else {
            Model {
                next: (self.next + 1) as u64,
                users: self.users.push(
                    User { entity: Entity { bits: self.next }, account, user_data, connection, place: Place::Queue },
                ),
                ..self
            }
        }
    }

    /// Whether a join of `account` adds a participant.
    pub open spec fn admits(self, account: Account) -> bool {
        self.registered(account).is_none() && self.next < u64::MAX
    }

    /// The store after `account` has consented to its lobby. The store is as
    /// before unless the account's participant is placed in a lobby and has
    /// not consented yet.
    pub open spec fn accepted(self, account: Account) -> Self {
        match self.registered(account) {
            Some(i) => match self.users[i].place {
                Place::Lobby { session, accepted: false } => Model {
                    users: self.users.update(
                        i,
                        User { place: Place::Lobby { session, accepted: true }, ..self.users[i] },
                    ),
                    ..self
                },
                _ => self,
            },
            None => self,
        }
    }

    /// Whether the participant at place `i` may leave: it is queued, or its
    /// session is not active.
    pub open spec fn may_leave(self, i: int) -> bool {
        match self.users[i].place {
            Place::Queue => true,
            Place::Lobby { session, .. } => !self.is_active(session),
        }
    }

    /// The store without the participant of `account`: the others stand as
    /// before, and a lobby that the participant was a member of keeps its
    /// entity, at a place that stays empty from now on. The store is as
    /// before if the account does not participate.
    pub open spec fn dropped(self, account: Account) -> Self {
        match self.registered(account) {
            Some(i) => Model { users: self.users.remove(i), ..self },
            None => self,
        }
    }

    /// The store after `account` has asked to leave: its participant is
    /// gone. The store is as before if the account does not participate or
    /// plays in an active session.
    pub open spec fn left(self, account: Account) -> Self {
        match self.registered(account) {
            Some(i) => if self.may_leave(i) {
                self.dropped(account)
            } else {
                self
            },
            None => self,
        }
    }

    /// The store after `account` has connected anew over `connection`: its
    /// participant has the new connection, if it is placed in a lobby. All
    /// else is as before.
    pub open spec fn reconnected(self, account: Account, connection: C) -> Self {
        match self.registered(account) {
            Some(i) => if self.users[i].place is Lobby {
                Model { users: self.users.update(i, User { connection, ..self.users[i] }), ..self }
            } else {
                self
            },
            None => self,
        }
    }
}

/// An account participates exactly if some user plays for it.
pub proof fn registered_iff_present<U, C>(users: Seq<User<U, C>>, account: Account)
    ensures
        registered_below(users, account, users.len() as int).is_some() <==> exists|i: int|
            0 <= i < users.len() && (#[trigger] users[i]).account == account,
{
    registered_below_is_first(users, account, users.len() as int);
}

impl<U, S, P, C> Model<U, S, P, C> {
    /// A join keeps the invariant.
    pub proof fn joined_keeps_wf(self, account: Account, user_data: U, connection: C)
        requires
            self.wf(),
        ensures
            self.joined(account, user_data, connection).wf(),
    {
        let after = self.joined(account, user_data, connection);
        if self.admits(account) {
            let n = self.users.len() as int;
            registered_below_is_first(self.users, account, n);
            assert forall|i: int| 0 <= i < n implies after.users[i] == self.users[i] by {}
            assert(after.sessions == self.sessions);
            assert forall|e: Entity| after.session(e) == self.session(e) by {}
            assert forall|i: int, j: int| 0 <= i < j < after.users.len() implies (#[trigger] after.users[i]).entity
                != (#[trigger] after.users[j]).entity by {
                if j < n {
                    assert(self.users[i].entity != self.users[j].entity);
                } else {
                    assert(self.users[i].entity.bits < self.next);
                }
            }
            assert forall|i: int, j: int| 0 <= i < j < after.users.len() implies (#[trigger] after.users[i]).account
                != (#[trigger] after.users[j]).account by {
                if j < n {
                    assert(self.users[i].account != self.users[j].account);
                } else {
                    assert(self.users[i].account != account);
                }
            }
            assert forall|i: int| 0 <= i < after.users.len() implies ((#[trigger] after.users[i]).place matches Place::Lobby {
                session,
                ..
            } ==> after.session(session.0).is_some() && after.sessions[after.session(
                session.0,
            ).unwrap()].lobby.contains(after.users[i].entity)) by {
                if i < n {
                    assert(after.users[i] == self.users[i]);
                }
            }
            assert forall|k: int, m: int, i: int|
                0 <= k < after.sessions.len() && 0 <= m < after.sessions[k].lobby.len() && 0 <= i
                    < after.users.len() && #[trigger] after.sessions[k].lobby[m] == (
                #[trigger] after.users[i]).entity implies after.users[i].place is Lobby
                && after.users[i].place->session == EntityId(after.sessions[k].entity) by {
                if i < n {
                    assert(self.sessions[k].lobby[m] == self.users[i].entity);
                } else {
                    assert(self.sessions[k].lobby[m].bits < self.next);
                }
            }
        }
    }

    /// A consent keeps the invariant.
    pub proof fn accepted_keeps_wf(self, account: Account)
        requires
            self.wf(),
        ensures
            self.accepted(account).wf(),
    {
        let after = self.accepted(account);
        if after != self {
            let at = self.registered(account).unwrap();
            registered_below_is_first(self.users, account, self.users.len() as int);
            assert(after.sessions == self.sessions);
            assert forall|e: Entity| after.session(e) == self.session(e) by {}
            assert forall|i: int| 0 <= i < self.users.len() implies (#[trigger] after.users[i]).entity
                == self.users[i].entity && after.users[i].account == self.users[i].account by {}
            assert forall|i: int| 0 <= i < after.users.len() implies ((#[trigger] after.users[i]).place matches Place::Lobby {
                session,
                ..
            } ==> after.session(session.0).is_some() && after.sessions[after.session(
                session.0,
            ).unwrap()].lobby.contains(after.users[i].entity)) by {
                if after.users[i].place is Lobby {
                    assert(self.users[i].place is Lobby);
                    assert(self.users[i].place->session == after.users[i].place->session);
                }
            }
            assert forall|k: int, m: int, i: int|
                0 <= k < after.sessions.len() && 0 <= m < after.sessions[k].lobby.len() && 0 <= i
                    < after.users.len() && #[trigger] after.sessions[k].lobby[m] == (
                #[trigger] after.users[i]).entity implies after.users[i].place is Lobby
                && after.users[i].place->session == EntityId(after.sessions[k].entity) by {
                assert(self.sessions[k].lobby[m] == self.users[i].entity);
            }
        }
    }

    /// A leave keeps the invariant.
    pub proof fn left_keeps_wf(self, account: Account)
        requires
            self.wf(),
        ensures
            self.left(account).wf(),
    {
        self.dropped_keeps_wf(account);
    }

    /// The loss of a participant keeps the invariant.
    pub proof fn dropped_keeps_wf(self, account: Account)
        requires
            self.wf(),
        ensures
            self.dropped(account).wf(),
    {
        let after = self.dropped(account);
        if after != self {
            let at = self.registered(account).unwrap();
            registered_below_is_first(self.users, account, self.users.len() as int);
            assert(after.sessions == self.sessions);
            assert forall|e: Entity| after.session(e) == self.session(e) by {}
            assert forall|i: int| 0 <= i < after.users.len() implies #[trigger] after.users[i] == self.users[if i
                < at {
                i
            } else {
                i + 1
            }] by {}
            assert forall|i: int, j: int| 0 <= i < j < after.users.len() implies (#[trigger] after.users[i]).entity
                != (#[trigger] after.users[j]).entity by {
                let a = if i < at { i } else { i + 1 };
                let b = if j < at { j } else { j + 1 };
                assert(self.users[a].entity != self.users[b].entity);
            }
            assert forall|i: int, j: int| 0 <= i < j < after.users.len() implies (#[trigger] after.users[i]).account
                != (#[trigger] after.users[j]).account by {
                let a = if i < at { i } else { i + 1 };
                let b = if j < at { j } else { j + 1 };
                assert(self.users[a].account != self.users[b].account);
            }
            assert forall|i: int| 0 <= i < after.users.len() implies (#[trigger] after.users[i]).entity.bits
                < after.next by {
                let a = if i < at { i } else { i + 1 };
                assert(self.users[a].entity.bits < self.next);
            }
            assert forall|i: int| 0 <= i < after.users.len() implies ((#[trigger] after.users[i]).place matches Place::Lobby {
                session,
                ..
            } ==> after.session(session.0).is_some() && after.sessions[after.session(
                session.0,
            ).unwrap()].lobby.contains(after.users[i].entity)) by {
                let a = if i < at { i } else { i + 1 };
                assert(after.users[i] == self.users[a]);
            }
            assert forall|k: int, m: int, i: int|
                0 <= k < after.sessions.len() && 0 <= m < after.sessions[k].lobby.len() && 0 <= i
                    < after.users.len() && #[trigger] after.sessions[k].lobby[m] == (
                #[trigger] after.users[i]).entity implies after.users[i].place is Lobby
                && after.users[i].place->session == EntityId(after.sessions[k].entity) by {
                let a = if i < at { i } else { i + 1 };
                assert(self.sessions[k].lobby[m] == self.users[a].entity);
            }
        }
    }

    /// A reconnect keeps the invariant.
    pub proof fn reconnected_keeps_wf(self, account: Account, connection: C)
        requires
            self.wf(),
        ensures
            self.reconnected(account, connection).wf(),
    {
        let after = self.reconnected(account, connection);
        if after != self {
            registered_below_is_first(self.users, account, self.users.len() as int);
            assert(after.sessions == self.sessions);
            assert forall|e: Entity| after.session(e) == self.session(e) by {}
            assert forall|i: int| 0 <= i < self.users.len() implies (#[trigger] after.users[i]).entity
                == self.users[i].entity && after.users[i].account == self.users[i].account
                && after.users[i].place == self.users[i].place by {}
            assert forall|k: int, m: int, i: int|
                0 <= k < after.sessions.len() && 0 <= m < after.sessions[k].lobby.len() && 0 <= i
                    < after.users.len() && #[trigger] after.sessions[k].lobby[m] == (
                #[trigger] after.users[i]).entity implies after.users[i].place is Lobby
                && after.users[i].place->session == EntityId(after.sessions[k].entity) by {
                assert(self.sessions[k].lobby[m] == self.users[i].entity);
            }
        }
    }
}

/// The members' states at the start of a session: the state at each place
/// of `states` for the member at that place of `lobby`, as far as both go.
pub open spec fn seated<P>(lobby: Seq<Entity>, states: Seq<P>) -> Seq<(u64, P)> {
    Seq::new(
        if lobby.len() <= states.len() {
            lobby.len()
        } else {
            states.len()
        },
        |m: int| (lobby[m].bits, states[m]),
    )
}

impl<U, S, P, C> Model<U, S, P, C> {
    /// The store with `state` as the state of the session at place `k`.
    pub open spec fn with_state(self, k: int, state: StateView<S, P>) -> Self {
        Model { sessions: self.sessions.update(k, SessionView { state, ..self.sessions[k] }), ..self }
    }

    /// Whether every member of the lobby at place `k` participates and has
    /// consented.
    pub open spec fn all_accepted(self, k: int) -> bool {
        forall|m: int|
            0 <= m < self.sessions[k].lobby.len() ==> self.position(#[trigger] self.sessions[k].lobby[m]).is_some()
                && self.users[self.position(self.sessions[k].lobby[m]).unwrap()].place == (Place::Lobby {
                session: EntityId(self.sessions[k].entity),
                accepted: true,
            })
    }

    /// Whether the session at place `k` becomes active now: it is not active
    /// yet, and all its members have consented.
    pub open spec fn starts(self, k: int) -> bool {
        !self.sessions[k].accepted && self.all_accepted(k)
    }

    /// The store with the session at place `k` active, its shared state
    /// `shared` and its members seated with `states`.
    pub open spec fn begun(self, k: int, shared: S, states: Seq<P>) -> Self {
        Model {
            sessions: self.sessions.update(
                k,
                SessionView {
                    accepted: true,
                    state: StateView { shared, users: seated(self.sessions[k].lobby, states) },
                    ..self.sessions[k]
                },
            ),
            ..self
        }
    }

    /// Whether `other` has the users of this store, and sessions with the
    /// same entities and lobbies.
    pub open spec fn same_frame(self, other: Self) -> bool {
        &&& other.size == self.size
        &&& other.next == self.next
        &&& other.users == self.users
        &&& other.sessions.len() == self.sessions.len()
        &&& forall|k: int|
            0 <= k < self.sessions.len() ==> (#[trigger] other.sessions[k]).entity == self.sessions[k].entity
                && other.sessions[k].lobby == self.sessions[k].lobby
    }

    /// Sessions are found where they were as long as their entities are what
    /// they were.
    pub proof fn same_frame_sessions(self, other: Self, e: Entity, n: int)
        requires
            self.same_frame(other),
            0 <= n <= self.sessions.len(),
        ensures
            session_below(other.sessions, e, n) == session_below(self.sessions, e, n),
        decreases n,
    {
        if n > 0 {
            self.same_frame_sessions(other, e, n - 1);
        }
    }

    /// The invariant speaks of users, entities and lobbies only: what the
    /// sessions hold besides does not touch it.
    pub proof fn same_frame_keeps_wf(self, other: Self)
        requires
            self.wf(),
            self.same_frame(other),
        ensures
            other.wf(),
    {
        assert forall|e: Entity| other.session(e) == self.session(e) by {
            self.same_frame_sessions(other, e, self.sessions.len() as int);
        }
        assert forall|k: int, l: int| 0 <= k < l < other.sessions.len() implies (#[trigger] other.sessions[k]).entity
            != (#[trigger] other.sessions[l]).entity by {
            assert(self.sessions[k].entity != self.sessions[l].entity);
        }
        assert forall|k: int| 0 <= k < other.sessions.len() implies (#[trigger] other.sessions[k]).entity.bits
            < other.next && other.sessions[k].lobby.len() == other.size
            && other.sessions[k].lobby.no_duplicates() by {
            assert(self.sessions[k].entity.bits < self.next);
        }
        assert forall|k: int, m: int|
            0 <= k < other.sessions.len() && 0 <= m < other.sessions[k].lobby.len() implies (
        #[trigger] other.sessions[k].lobby[m]).bits < other.next by {
            assert(self.sessions[k].lobby[m].bits < self.next);
        }
        assert forall|i: int| 0 <= i < other.users.len() implies ((#[trigger] other.users[i]).place matches Place::Lobby {
            session,
            ..
        } ==> other.session(session.0).is_some() && other.sessions[other.session(
            session.0,
        ).unwrap()].lobby.contains(other.users[i].entity)) by {
            if other.users[i].place is Lobby {
                let session = other.users[i].place->session;
                session_below_is_first(self.sessions, session.0, self.sessions.len() as int);
            }
        }
        assert forall|k: int, m: int, i: int|
            0 <= k < other.sessions.len() && 0 <= m < other.sessions[k].lobby.len() && 0 <= i
                < other.users.len() && #[trigger] other.sessions[k].lobby[m] == (
            #[trigger] other.users[i]).entity implies other.users[i].place is Lobby
            && other.users[i].place->session == EntityId(other.sessions[k].entity) by {
            assert(self.sessions[k].lobby[m] == self.users[i].entity);
        }
    }
}

impl<U, S, P, C> Model<U, S, P, C> {
    /// A join of an account that participates already adds no participant:
    /// the store is as before.
    pub proof fn known_account_joins_nothing(self, account: Account, user_data: U, connection: C)
        requires
            self.registered(account).is_some(),
        ensures
            self.joined(account, user_data, connection) == self,
    {
    }

    /// A join that is admitted adds one participant, queued, and leaves the
    /// others and the sessions as they are.
    pub proof fn admitted_join_adds_one(self, account: Account, user_data: U, connection: C)
        requires
            self.admits(account),
        ensures
            self.joined(account, user_data, connection).users.len() == self.users.len() + 1,
            self.joined(account, user_data, connection).users.last().place is Queue,
            self.joined(account, user_data, connection).users.last().account == account,
            self.joined(account, user_data, connection).users.drop_last() == self.users,
            self.joined(account, user_data, connection).sessions == self.sessions,
    {
        assert(self.joined(account, user_data, connection).users.drop_last() =~= self.users);
    }

    /// A reconnect changes nothing but the connection of the account's
    /// participant: the sessions with their states, every other participant,
    /// and that participant's entity, account, data and place are as before.
    pub proof fn reconnect_keeps_all_but_connection(self, account: Account, connection: C)
        ensures
            self.reconnected(account, connection).size == self.size,
            self.reconnected(account, connection).next == self.next,
            self.reconnected(account, connection).sessions == self.sessions,
            self.reconnected(account, connection).users.len() == self.users.len(),
            forall|i: int|
                0 <= i < self.users.len() ==> {
                    let after = #[trigger] self.reconnected(account, connection).users[i];
                    &&& after.entity == self.users[i].entity
                    &&& after.account == self.users[i].account
                    &&& after.user_data == self.users[i].user_data
                    &&& after.place == self.users[i].place
                    &&& (self.registered(account) != Some(i) ==> after == self.users[i])
                },
    {
        registered_below_is_first(self.users, account, self.users.len() as int);
    }

    /// A second consent changes nothing.
    pub proof fn accept_twice_is_accept_once(self, account: Account)
        ensures
            self.accepted(account).accepted(account) == self.accepted(account),
    {
        let once = self.accepted(account);
        if once != self {
            let at = self.registered(account).unwrap();
            registered_below_is_first(self.users, account, self.users.len() as int);
            registered_below_is_first(once.users, account, once.users.len() as int);
            assert forall|i: int| 0 <= i < self.users.len() implies (#[trigger] once.users[i]).account
                == self.users[i].account by {}
            assert(once.users[at].account == account);
            match once.registered(account) {
                Some(j) => {
                    if j < at {
                        assert(self.users[j].account == once.users[j].account);
                    }
                },
                None => {},
            }
            assert(once.registered(account) == Some(at));
        }
    }

    /// A session that has begun does not start again.
    pub proof fn begun_session_is_active(self, k: int, shared: S, states: Seq<P>)
        requires
            0 <= k < self.sessions.len(),
        ensures
            !self.begun(k, shared, states).starts(k),
            self.begun(k, shared, states).sessions[k].accepted,
            self.same_frame(self.begun(k, shared, states)),
    {
    }
}

/// The ones among the first `n` users that are no members of `lobby`, in
/// their order.
pub open spec fn others_below<U, C>(users: Seq<User<U, C>>, lobby: Seq<Entity>, n: int) -> Seq<User<U, C>>
    decreases n,
{
    if n <= 0 {
        Seq::empty()
    } else {
        let rest = others_below(users, lobby, n - 1);
        if lobby.contains(users[n - 1].entity) {
            rest
        } else {
            rest.push(users[n - 1])
        }
    }
}

/// The ones among the first `n` users that are members of `lobby`, in their
/// order.
pub open spec fn members_below<U, C>(users: Seq<User<U, C>>, lobby: Seq<Entity>, n: int) -> Seq<User<U, C>>
    decreases n,
{
    if n <= 0 {
        Seq::empty()
    } else {
        let rest = members_below(users, lobby, n - 1);
        if lobby.contains(users[n - 1].entity) {
            rest.push(users[n - 1])
        } else {
            rest
        }
    }
}

/// The users that are no members of a lobby are users that are no members
/// of it, all of them, and differ in entity and account where the users do.
pub proof fn others_below_is_rest<U, C>(users: Seq<User<U, C>>, lobby: Seq<Entity>, n: int)
    requires
        n <= users.len(),
        forall|i: int, j: int|
            0 <= i < j < users.len() ==> (#[trigger] users[i]).entity != (#[trigger] users[j]).entity,
        accounts_differ(users),
    ensures
        forall|j: int|
            0 <= j < others_below(users, lobby, n).len() ==> !lobby.contains(
                (#[trigger] others_below(users, lobby, n)[j]).entity,
            ) && exists|i: int| 0 <= i < n && #[trigger] users[i] == others_below(users, lobby, n)[j],
        forall|i: int|
            0 <= i < n && !lobby.contains((#[trigger] users[i]).entity) ==> others_below(users, lobby, n).contains(
                users[i],
            ),
        forall|i: int, j: int|
            0 <= i < j < others_below(users, lobby, n).len() ==> (#[trigger] others_below(users, lobby, n)[i]).entity
                != (#[trigger] others_below(users, lobby, n)[j]).entity,
        accounts_differ(others_below(users, lobby, n)),
    decreases n,
{
    if n > 0 {
        let all = others_below(users, lobby, n);
        let rest = others_below(users, lobby, n - 1);
        others_below_is_rest(users, lobby, n - 1);
        let last = users[n - 1];
        if lobby.contains(last.entity) {
            assert forall|i: int| 0 <= i < n && !lobby.contains((#[trigger] users[i]).entity) implies all.contains(
                users[i],
            ) by {
                assert(rest.contains(users[i]));
            }
        } else {
            assert forall|j: int| 0 <= j < all.len() implies !lobby.contains((#[trigger] all[j]).entity)
                && exists|i: int| 0 <= i < n && #[trigger] users[i] == all[j] by {
                if j < rest.len() {
                    assert(all[j] == rest[j]);
                    let i = choose|i: int| 0 <= i < n - 1 && #[trigger] users[i] == rest[j];
                    assert(users[i] == all[j]);
                } else {
                    assert(users[n - 1] == all[j]);
                }
            }
            assert forall|i: int| 0 <= i < n && !lobby.contains((#[trigger] users[i]).entity) implies all.contains(
                users[i],
            ) by {
                if i < n - 1 {
                    assert(rest.contains(users[i]));
                    let j = choose|j: int| 0 <= j < rest.len() && rest[j] == users[i];
                    assert(all[j] == users[i]);
                } else {
                    assert(all[rest.len() as int] == users[i]);
                }
            }
            assert forall|i: int, j: int| 0 <= i < j < all.len() implies (#[trigger] all[i]).entity != (
            #[trigger] all[j]).entity && all[i].account != all[j].account by {
                assert(all[i] == rest[i]);
                if j < rest.len() {
                    assert(all[j] == rest[j]);
                } else {
                    let w = choose|w: int| 0 <= w < n - 1 && #[trigger] users[w] == rest[i];
                    assert(users[w].entity != users[n - 1].entity);
                    assert(users[w].account != users[n - 1].account);
                }
            }
        }
    }
}

/// Where a session is found once another is gone: where it was, or one
/// place before that; the session that is gone is found no more.
pub proof fn session_below_without<S, P>(sessions: Seq<SessionView<S, P>>, k: int, e: Entity)
    requires
        0 <= k < sessions.len(),
        forall|a: int, b: int|
            0 <= a < b < sessions.len() ==> (#[trigger] sessions[a]).entity != (#[trigger] sessions[b]).entity,
    ensures
        session_below(sessions.remove(k), e, sessions.len() - 1) == (match session_below(
            sessions,
            e,
            sessions.len() as int,
        ) {
            Some(j) => if j == k {
                None
            } else if j < k {
                Some(j)
            } else {
                Some(j - 1)
            },
            None => None,
        }),
{
    let after = sessions.remove(k);
    session_below_is_first(sessions, e, sessions.len() as int);
    session_below_is_first(after, e, after.len() as int);
    assert forall|j: int| 0 <= j < after.len() implies #[trigger] after[j] == sessions[if j < k {
        j
    } else {
        j + 1
    }] by {}
    match session_below(sessions, e, sessions.len() as int) {
        Some(j) => {
            if j == k {
                match session_below(after, e, after.len() as int) {
                    Some(w) => {
                        let from = if w < k { w } else { w + 1 };
                        assert(after[w] == sessions[from]);
                        if from < k {
                            assert(sessions[from].entity != sessions[k].entity);
                        } else {
                            assert(sessions[k].entity != sessions[from].entity);
                        }
                    },
                    None => {},
                }
            } else {
                let to = if j < k { j } else { j - 1 };
                assert(after[to] == sessions[j]);
                match session_below(after, e, after.len() as int) {
                    Some(w) => {
                        let from = if w < k { w } else { w + 1 };
                        assert(after[w] == sessions[from]);
                        if from < j {
                            assert(sessions[from].entity != sessions[j].entity);
                        } else if j < from {
                            assert(sessions[j].entity != sessions[from].entity);
                        }
                    },
                    None => {
                        assert(after[to].entity != e);
                    },
                }
            }
        },
        None => {
            match session_below(after, e, after.len() as int) {
                Some(w) => {
                    let from = if w < k { w } else { w + 1 };
                    assert(after[w] == sessions[from]);
                    assert(sessions[from].entity != e);
                },
                None => {},
            }
        },
    }
}

impl<U, S, P, C> Model<U, S, P, C> {
    /// The store after the session that `id` refers to has been ended: the
    /// session is gone, and so are those of its members that participated;
    /// their accounts are free to join anew. The store is as before if `id`
    /// refers to no session.
    pub open spec fn ended(self, id: EntityId) -> Self {
        match self.session(id.0) {
            Some(k) => Model {
                users: others_below(self.users, self.sessions[k].lobby, self.users.len() as int),
                sessions: self.sessions.remove(k),
                ..self
            },
            None => self,
        }
    }

    /// Whether none of the members of the lobby at place `k` participates.
    pub open spec fn is_deserted(self, k: int) -> bool {
        forall|m: int| 0 <= m < self.sessions[k].lobby.len() ==> self.position(#[trigger] self.sessions[k].lobby[m]).is_none()
    }

    /// The end of a session keeps the invariant.
    pub proof fn ended_keeps_wf(self, id: EntityId)
        requires
            self.wf(),
        ensures
            self.ended(id).wf(),
    {
        let after = self.ended(id);
        if self.session(id.0).is_some() {
            let k = self.session(id.0).unwrap();
            let n = self.users.len() as int;
            session_below_is_first(self.sessions, id.0, self.sessions.len() as int);
            let lobby = self.sessions[k].lobby;
            others_below_is_rest(self.users, lobby, n);
            assert forall|j: int| 0 <= j < after.sessions.len() implies #[trigger] after.sessions[j]
                == self.sessions[if j < k {
                j
            } else {
                j + 1
            }] by {}
            assert forall|e: Entity| #[trigger] after.session(e) == (match self.session(e) {
                Some(j) => if j == k {
                    None
                } else if j < k {
                    Some(j)
                } else {
                    Some(j - 1)
                },
                None => None,
            }) by {
                session_below_without(self.sessions, k, e);
            }
            assert forall|i: int| 0 <= i < after.users.len() implies (#[trigger] after.users[i]).entity.bits
                < after.next by {
                let w = choose|w: int| 0 <= w < n && #[trigger] self.users[w] == after.users[i];
                assert(self.users[w].entity.bits < self.next);
            }
            assert forall|a: int, b: int| 0 <= a < b < after.sessions.len() implies (
            #[trigger] after.sessions[a]).entity != (#[trigger] after.sessions[b]).entity by {
                let x = if a < k { a } else { a + 1 };
                let y = if b < k { b } else { b + 1 };
                assert(self.sessions[x].entity != self.sessions[y].entity);
            }
            assert forall|j: int| 0 <= j < after.sessions.len() implies (#[trigger] after.sessions[j]).entity.bits
                < after.next && after.sessions[j].lobby.len() == after.size
                && after.sessions[j].lobby.no_duplicates() by {
                let x = if j < k { j } else { j + 1 };
                assert(self.sessions[x].entity.bits < self.next);
            }
            assert forall|j: int, m: int|
                0 <= j < after.sessions.len() && 0 <= m < after.sessions[j].lobby.len() implies (
            #[trigger] after.sessions[j].lobby[m]).bits < after.next by {
                let x = if j < k { j } else { j + 1 };
                assert(self.sessions[x].lobby[m].bits < self.next);
            }
            assert forall|i: int| 0 <= i < after.users.len() implies ((#[trigger] after.users[i]).place matches Place::Lobby {
                session,
                ..
            } ==> after.session(session.0).is_some() && after.sessions[after.session(
                session.0,
            ).unwrap()].lobby.contains(after.users[i].entity)) by {
                if after.users[i].place is Lobby {
                    let session = after.users[i].place->session;
                    let w = choose|w: int| 0 <= w < n && #[trigger] self.users[w] == after.users[i];
                    session_below_is_first(self.sessions, session.0, self.sessions.len() as int);
                    let j = self.session(session.0).unwrap();
                    assert(self.sessions[j].lobby.contains(self.users[w].entity));
                    assert(j != k);
                    let to = if j < k { j } else { j - 1 };
                    assert(after.session(session.0) == Some(to));
                    assert(after.sessions[to] == self.sessions[j]);
                }
            }
            assert forall|j: int, m: int, i: int|
                0 <= j < after.sessions.len() && 0 <= m < after.sessions[j].lobby.len() && 0 <= i
                    < after.users.len() && #[trigger] after.sessions[j].lobby[m] == (
                #[trigger] after.users[i]).entity implies after.users[i].place is Lobby
                && after.users[i].place->session == EntityId(after.sessions[j].entity) by {
                let x = if j < k { j } else { j + 1 };
                let w = choose|w: int| 0 <= w < n && #[trigger] self.users[w] == after.users[i];
                assert(self.sessions[x].lobby[m] == self.users[w].entity);
            }
        }
    }
}

/// Whether `registry` holds the account of each of `users`, for the user's
/// entity, and no other account.
pub open spec fn agrees<U, C>(registry: Map<Account, Entity>, users: Seq<User<U, C>>) -> bool {
    &&& forall|a: Account| #[trigger]
        registry.dom().contains(a) <==> registered_below(users, a, users.len() as int).is_some()
    &&& forall|i: int| 0 <= i < users.len() ==> registry[(#[trigger] users[i]).account] == users[i].entity
}

/// Whether no two of `users` share an account.
pub open spec fn accounts_differ<U, C>(users: Seq<User<U, C>>) -> bool {
    forall|i: int, j: int| 0 <= i < j < users.len() ==> (#[trigger] users[i]).account != (#[trigger] users[j]).account
}

/// A registry that agrees with the users agrees with them still when one of
/// them goes and its account is freed.
pub proof fn agrees_without<U, C>(registry: Map<Account, Entity>, users: Seq<User<U, C>>, i: int)
    requires
        0 <= i < users.len(),
        agrees(registry, users),
        accounts_differ(users),
    ensures
        agrees(registry.remove(users[i].account), users.remove(i)),
        accounts_differ(users.remove(i)),
{
    let account = users[i].account;
    let after = users.remove(i);
    let freed = registry.remove(account);
    assert forall|a: Account| #[trigger]
        freed.dom().contains(a) <==> registered_below(after, a, after.len() as int).is_some() by {
        registered_iff_present(after, a);
        registered_iff_present(users, a);
        if registered_below(users, a, users.len() as int).is_some() && a != account {
            let j = choose|j: int| 0 <= j < users.len() && (#[trigger] users[j]).account == a;
            let to = if j < i { j } else { j - 1 };
            assert(after[to].account == a);
        }
        if registered_below(after, a, after.len() as int).is_some() {
            let j = choose|j: int| 0 <= j < after.len() && (#[trigger] after[j]).account == a;
            let from = if j < i { j } else { j + 1 };
            assert(users[from].account == a);
            if a == account {
                if from < i {
                    assert(users[from].account != users[i].account);
                } else {
                    assert(users[i].account != users[from].account);
                }
            }
        }
    }
    assert forall|j: int| 0 <= j < after.len() implies freed[(#[trigger] after[j]).account] == after[j].entity by {
        let from = if j < i { j } else { j + 1 };
        assert(after[j] == users[from]);
        if from < i {
            assert(users[from].account != users[i].account);
        } else {
            assert(users[i].account != users[from].account);
        }
    }
    assert forall|a: int, b: int| 0 <= a < b < after.len() implies (#[trigger] after[a]).account != (
    #[trigger] after[b]).account by {
        let x = if a < i { a } else { a + 1 };
        let y = if b < i { b } else { b + 1 };
        assert(users[x].account != users[y].account);
    }
}

} // verus!
