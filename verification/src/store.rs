//! The entity store: the participants and sessions that the server keeps,
//! with the registry of their accounts. It changes only inside a tick.

use vstd::prelude::*;
use core::time::Duration;
use crate::account::{Account, AccountMap};
use crate::entity::{Entity, EntityId};
use crate::model::{
    accounts_differ, agrees, agrees_without, members_below, others_below, position_below_is_first,
    registered_below_is_first, registered_iff_present, seated, session_below_is_first, session_bits, user_bits, Model,
    Place, Session, SessionView, User,
};
use crate::places::{indexes, indexes_more, Places};
use crate::queue::Lobby;
use crate::state::{Action, ActionState, StateView, UserState};
use crate::time::AsStopwatch;

verus! {

/// The store.
pub struct Store<U, S, P, C> {
    size: usize,
    next: u64,
    users: Vec<User<U, C>>,
    sessions: Vec<Session<S, P>>,
    accounts: AccountMap,
    user_places: Places,
    session_places: Places,
}

impl<U, S, P, C> View for Store<U, S, P, C> {
    type V = Model<U, S, P, C>;

    closed spec fn view(&self) -> Model<U, S, P, C> {
        Model {
            size: self.size,
            next: self.next,
            users: self.users@,
            sessions: self.sessions@.map_values(|s: Session<S, P>| s@),
        }
    }
}

impl<U, S, P, C> Store<U, S, P, C> {
    /// Whether the registry holds each participant's account, for the
    /// participant's entity, and no other account.
    pub closed spec fn registry_agrees(&self) -> bool {
        agrees(self.accounts@, self.users@)
    }

    /// Whether the index of the participants holds, for each of them, where
    /// its record stands, and nothing else.
    pub closed spec fn users_indexed(&self) -> bool {
        indexes(self.user_places@, user_bits(self.users@))
    }

    /// Whether the index of the sessions holds, for each of them, where its
    /// record stands, and nothing else.
    pub closed spec fn sessions_indexed(&self) -> bool {
        indexes(self.session_places@, session_bits(self@.sessions))
    }

    /// Whether both indexes hold what they are to hold.
    pub open spec fn indexed(&self) -> bool {
        self.users_indexed() && self.sessions_indexed()
    }

    /// The invariant of the store, of its registry and of its indexes.
    pub open spec fn wf(&self) -> bool {
        self@.wf() && self.registry_agrees() && self.indexed()
    }

    /// A store without participants, for a queue whose lobbies have `size`
    /// members.
    pub fn new(size: usize) -> (store: Self)
        ensures
            store.wf(),
            store@.size == size,
            store@.next == 0,
            store@.users.len() == 0,
            store@.sessions.len() == 0,
    {
        let store = Store {
            size,
            next: 0,
            users: Vec::new(),
            sessions: Vec::new(),
            accounts: AccountMap::new(),
            user_places: Places::new(),
            session_places: Places::new(),
        };
        assert(store@.sessions =~= Seq::empty());
        store
    }

    /// The lobby size of the store's queue.
    pub fn lobby_size(&self) -> (size: usize)
        ensures
            size == self@.size,
    {
        self.size
    }

    /// Where the participant with entity `e` stands.
    pub fn position_of(&self, e: Entity) -> (found: Option<usize>)
        requires
            self.wf(),
        ensures
            match found {
                Some(i) => self@.position(e) == Some(i as int) && i < self@.users.len() && self@.users[i as int].entity
                    == e,
                None => self@.position(e).is_none(),
            },
    {
        let found = self.user_places.get(&e.bits);
        proof {
            let n = self.users@.len() as int;
            position_below_is_first(self.users@, e, n);
            match found {
                Some(i) => {
                    assert(user_bits(self.users@)[i as int] == e.bits);
                    assert(self.users@[i as int].entity == e);
                    match self@.position(e) {
                        Some(m) => {
                            if m < i {
                                assert(self.users@[m].entity != self.users@[i as int].entity);
                            }
                        },
                        None => {},
                    }
                },
                None => {
                    match self@.position(e) {
                        Some(m) => {
                            assert(user_bits(self.users@)[m] == e.bits);
                        },
                        None => {},
                    }
                },
            }
        }
        found
    }

    /// Where the session with entity `e` stands.
    pub fn session_of(&self, e: Entity) -> (found: Option<usize>)
        requires
            self.wf(),
        ensures
            match found {
                Some(k) => self@.session(e) == Some(k as int) && k < self@.sessions.len()
                    && self@.sessions[k as int].entity == e,
                None => self@.session(e).is_none(),
            },
    {
        let found = self.session_places.get(&e.bits);
        proof {
            let sessions = self@.sessions;
            session_below_is_first(sessions, e, sessions.len() as int);
            match found {
                Some(k) => {
                    assert(session_bits(sessions)[k as int] == e.bits);
                    assert(sessions[k as int].entity == e);
                    match self@.session(e) {
                        Some(m) => {
                            if m < k {
                                assert(sessions[m].entity != sessions[k as int].entity);
                            }
                        },
                        None => {},
                    }
                },
                None => {
                    match self@.session(e) {
                        Some(m) => {
                            assert(session_bits(sessions)[m] == e.bits);
                        },
                        None => {},
                    }
                },
            }
        }
        found
    }

    /// Where the participant that plays for `account` stands.
    pub fn lookup(&self, account: &Account) -> (found: Option<usize>)
        requires
            self.wf(),
        ensures
            match found {
                Some(i) => self@.registered(*account) == Some(i as int) && i < self@.users.len()
                    && self@.users[i as int].account == *account,
                None => self@.registered(*account).is_none(),
            },
    {
        match self.accounts.get(account) {
            Some(e) => {
                proof {
                    registered_below_is_first(self.users@, *account, self.users@.len() as int);
                    let i = self@.registered(*account).unwrap();
                    assert(self.users@[i].entity == e);
                    position_below_is_first(self.users@, e, self.users@.len() as int);
                    let p = self@.position(e);
                    if p.is_none() {
                        assert(self.users@[i].entity != e);
                    } else if p.unwrap() != i {
                        // two users with one entity
                        if p.unwrap() < i {
                            assert(self.users@[p.unwrap()].entity != self.users@[i].entity);
                        } else {
                            assert(self.users@[i].entity != e);
                        }
                    }
                }
                self.position_of(e)
            },
            None => None,
        }
    }
    /// Takes `account` into the queue, with `user_data` and over `connection`,
    /// unless the account participates already or no entity is left. The
    /// result is the new participant's entity.
    pub fn join(&mut self, account: Account, user_data: U, connection: C) -> (entity: Option<Entity>)
        requires
            old(self).wf(),
        ensures
            final(self).wf(),
            final(self)@ == old(self)@.joined(account, user_data, connection),
            entity == (if old(self)@.admits(account) {
                Some(Entity { bits: old(self)@.next })
            } else {
                None
            }),
    {
        if self.accounts.contains(&account) || self.next == u64::MAX {
            return None;
        }
        let entity = Entity { bits: self.next };
        let at: usize = self.users.len();
        proof {
            assert forall|i: int| 0 <= i < self.users@.len() implies user_bits(self.users@)[i] != entity.bits by {
                assert(self.users@[i].entity.bits < self.next);
            }
            indexes_more(self.user_places@, user_bits(self.users@), entity.bits);
        }
        self.users.push(User { entity, account, user_data, connection, place: Place::Queue });
        self.accounts.insert(account, entity);
        let _ = self.user_places.insert(entity.bits, at);
        self.next = self.next + 1;
        proof {
            assert(user_bits(self.users@) =~= user_bits(old(self).users@).push(entity.bits));
            old(self)@.joined_keeps_wf(account, user_data, connection);
            self.sessions_survive(*old(self));
            assert(self@.sessions == old(self)@.sessions);
            assert(self@ == old(self)@.joined(account, user_data, connection));
            let n = old(self).users@.len() as int;
            assert forall|a: Account| #[trigger] self.accounts@.dom().contains(a) <==> self@.registered(a).is_some() by {
                registered_iff_present(self.users@, a);
                registered_iff_present(old(self).users@, a);
                if a != account {
                    if old(self)@.registered(a).is_some() {
                        let i = choose|i: int| 0 <= i < n && (#[trigger] old(self).users@[i]).account == a;
                        assert(self.users@[i].account == a);
                    }
                    if self@.registered(a).is_some() {
                        let i = choose|i: int| 0 <= i < n + 1 && (#[trigger] self.users@[i]).account == a;
                        assert(old(self).users@[i].account == a);
                    }
                } else {
                    assert(self.users@[n].account == a);
                }
            }
            assert forall|i: int| 0 <= i < self.users@.len() implies self.accounts@[(
            #[trigger] self.users@[i]).account] == self.users@[i].entity by {
                if i < n {
                    assert(self.users@[i] == old(self).users@[i]);
                    registered_iff_present(old(self).users@, account);
                }
            }
        }
        Some(entity)
    }

    /// Records the consent of `account` to its lobby, and says whether this
    /// changed anything.
    pub fn accept(&mut self, account: &Account) -> (changed: bool)
        requires
            old(self).wf(),
        ensures
            final(self).wf(),
            final(self)@ == old(self)@.accepted(*account),
            changed == (final(self)@ != old(self)@),
    {
        match self.lookup(account) {
            Some(i) => match self.users[i].place {
                Place::Lobby { session, accepted: false } => {
                    self.users[i].place = Place::Lobby { session, accepted: true };
                    proof {
                        old(self)@.accepted_keeps_wf(*account);
                        assert(self@.sessions == old(self)@.sessions);
                        assert(self@.users =~= old(self)@.accepted(*account).users);
                        assert(self@ == old(self)@.accepted(*account));
                        assert(self@.users[i as int] != old(self)@.users[i as int]);
                        self.registry_survives(*old(self));
                        self.sessions_survive(*old(self));
                    }
                    true
                },
                _ => false,
            },
            None => false,
        }
    }

    /// The registry and the indexes agree with the records as long as the
    /// accounts and entities are what they were.
    proof fn registry_survives(&self, before: Self)
        requires
            before.registry_agrees(),
            before.users_indexed(),
            self.accounts == before.accounts,
            self.user_places == before.user_places,
            self.users@.len() == before.users@.len(),
            forall|i: int|
                0 <= i < self.users@.len() ==> (#[trigger] self.users@[i]).account == before.users@[i].account
                    && self.users@[i].entity == before.users@[i].entity,
        ensures
            self.registry_agrees(),
            self.users_indexed(),
    {
        assert(user_bits(self.users@) =~= user_bits(before.users@));
        assert forall|a: Account| #[trigger] self.accounts@.dom().contains(a) <==> self@.registered(a).is_some() by {
            registered_iff_present(self.users@, a);
            registered_iff_present(before.users@, a);
            if before@.registered(a).is_some() {
                let i = choose|i: int| 0 <= i < before.users@.len() && (#[trigger] before.users@[i]).account == a;
                assert(self.users@[i].account == a);
            }
            if self@.registered(a).is_some() {
                let i = choose|i: int| 0 <= i < self.users@.len() && (#[trigger] self.users@[i]).account == a;
                assert(before.users@[i].account == a);
            }
        }
        assert forall|i: int| 0 <= i < self.users@.len() implies self.accounts@[(
        #[trigger] self.users@[i]).account] == self.users@[i].entity by {
            assert(before.users@[i].account == self.users@[i].account);
        }
    }

    /// The index of the sessions agrees with them as long as their entities
    /// are what they were.
    proof fn sessions_survive(&self, before: Self)
        requires
            before.sessions_indexed(),
            self.session_places == before.session_places,
            self@.sessions.len() == before@.sessions.len(),
            forall|k: int|
                0 <= k < self@.sessions.len() ==> (#[trigger] self@.sessions[k]).entity == before@.sessions[k].entity,
        ensures
            self.sessions_indexed(),
    {
        assert(session_bits(self@.sessions) =~= session_bits(before@.sessions));
    }

    /// Whether the session that `id` refers to is active.
    pub fn is_active(&self, id: EntityId) -> (active: bool)
        requires
            self.wf(),
        ensures
            active == self@.is_active(id),
    {
        match self.session_of(id.0) {
            Some(k) => {
                assert(self@.sessions[k as int] == self.sessions@[k as int]@);
                self.sessions[k].accepted
            },
            None => false,
        }
    }

    /// Removes the participant of `account`, wherever it stands, and frees
    /// the account: for a client that is gone for good. In its session, if
    /// it has one, its place stays empty and its state stays as it is.
    /// The result is the participant's record.
    pub fn remove(&mut self, account: &Account) -> (gone: Option<User<U, C>>)
        requires
            old(self).wf(),
        ensures
            final(self).wf(),
            final(self)@ == old(self)@.dropped(*account),
            gone == (match old(self)@.registered(*account) {
                Some(i) => Some(old(self)@.users[i]),
                None => None,
            }),
    {
        match self.lookup(account) {
            Some(i) => {
                let user = self.users.remove(i);
                self.accounts.remove(account);
                proof {
                    old(self)@.dropped_keeps_wf(*account);
                    assert(self@.sessions == old(self)@.sessions);
                    assert(self@ == old(self)@.dropped(*account));
                    agrees_without(old(self).accounts@, old(self).users@, i as int);
                    self.sessions_survive(*old(self));
                }
                self.user_places = index_users(&self.users);
                Some(user)
            },
            None => None,
        }
    }

    /// Removes the participant of `account`, unless it plays in an active
    /// session, and says whether it did.
    pub fn leave(&mut self, account: &Account) -> (gone: bool)
        requires
            old(self).wf(),
        ensures
            final(self).wf(),
            final(self)@ == old(self)@.left(*account),
            gone == (old(self)@.registered(*account).is_some() && old(self)@.may_leave(
                old(self)@.registered(*account).unwrap(),
            )),
    {
        match self.lookup(account) {
            Some(i) => {
                let free = match self.users[i].place {
                    Place::Queue => true,
                    Place::Lobby { session, .. } => !self.is_active(session),
                };
                if free {
                    let _ = self.remove(account);
                    true
                } else {
                    false
                }
            },
            None => false,
        }
    }

    /// Gives the participant of `account` the new `connection`, if it is
    /// placed in a lobby, and says whether it did.
    pub fn reconnect(&mut self, account: &Account, connection: C) -> (changed: bool)
        requires
            old(self).wf(),
        ensures
            final(self).wf(),
            final(self)@ == old(self)@.reconnected(*account, connection),
            changed == (old(self)@.registered(*account).is_some() && old(self)@.users[old(self)@.registered(
                *account,
            ).unwrap()].place is Lobby),
    {
        match self.lookup(account) {
            Some(i) => match self.users[i].place {
                Place::Lobby { .. } => {
                    self.users[i].connection = connection;
                    proof {
                        old(self)@.reconnected_keeps_wf(*account, connection);
                        assert(self@.sessions == old(self)@.sessions);
                        assert(self@.users =~= old(self)@.reconnected(*account, connection).users);
                        assert(self@ == old(self)@.reconnected(*account, connection));
                        self.registry_survives(*old(self));
                        self.sessions_survive(*old(self));
                    }
                    true
                },
                Place::Queue => false,
            },
            None => false,
        }
    }
    /// The participants, in the order in which they joined.
    pub fn users(&self) -> (users: &Vec<User<U, C>>)
        ensures
            users@ == self@.users,
    {
        &self.users
    }

    /// The sessions, in the order in which they formed.
    pub fn sessions(&self) -> (sessions: &Vec<Session<S, P>>)
        ensures
            sessions@.len() == self@.sessions.len(),
            forall|k: int| 0 <= k < sessions@.len() ==> (#[trigger] sessions@[k])@ == self@.sessions[k],
    {
        &self.sessions
    }

    /// How many sessions can still form before the entities run out.
    pub fn entities_left(&self) -> (left: u64)
        ensures
            left == u64::MAX - self@.next,
    {
        u64::MAX - self.next
    }

    /// Places `members`, queued users all, in the lobby of a new session that
    /// starts from `shared`. The result refers to the session.
    pub(crate) fn form(&mut self, members: &Vec<Entity>, shared: S) -> (session: EntityId)
        requires
            old(self).wf(),
            old(self)@.next < u64::MAX,
            members@.len() == old(self)@.size,
            members@.no_duplicates(),
            old(self)@.all_queued(members@),
        ensures
            final(self).wf(),
            final(self)@ == old(self)@.with_lobby(members@, shared),
            session == EntityId(Entity { bits: old(self)@.next }),
    {
        let id = Entity { bits: self.next };
        let session = EntityId(id);
        let lobby = Lobby::of(members);
        let mut i: usize = 0;
        while i < self.users.len()
            invariant
                i <= self.users.len(),
                self.users@.len() == old(self).users@.len(),
                self.size == old(self).size,
                self.next == old(self).next,
                self.sessions == old(self).sessions,
                self.accounts == old(self).accounts,
                self.user_places == old(self).user_places,
                self.session_places == old(self).session_places,
                session == EntityId(Entity { bits: old(self).next }),
                forall|j: int|
                    0 <= j < i ==> #[trigger] self.users@[j] == (if members@.contains(old(self).users@[j].entity) {
                        User { place: Place::Lobby { session, accepted: false }, ..old(self).users@[j] }
                    } else {
                        old(self).users@[j]
                    }),
                forall|j: int| i <= j < self.users@.len() ==> #[trigger] self.users@[j] == old(self).users@[j],
            decreases self.users.len() - i,
        {
            if holds(members, self.users[i].entity) {
                self.users[i].place = Place::Lobby { session, accepted: false };
            }
            i = i + 1;
        }
        let fresh = Session { entity: id, lobby, accepted: false, state: ActionState::new(shared) };
        assert(fresh@ == (SessionView {
            entity: id,
            lobby: members@,
            accepted: false,
            state: StateView::<S, P> { shared, users: Seq::empty() },
        }));
        let at: usize = self.sessions.len();
        proof {
            let bits = session_bits(self@.sessions);
            assert forall|k: int| 0 <= k < bits.len() implies bits[k] != id.bits by {
                assert(self@.sessions[k].entity.bits < self.next);
            }
            indexes_more(self.session_places@, bits, id.bits);
        }
        self.sessions.push(fresh);
        let _ = self.session_places.insert(id.bits, at);
        self.next = self.next + 1;
        proof {
            let want = old(self)@.with_lobby(members@, shared);
            old(self)@.with_lobby_keeps_wf(members@, shared);
            assert(self@.users =~= want.users);
            assert forall|k: int| 0 <= k < old(self).sessions@.len() implies #[trigger] self@.sessions[k]
                == want.sessions[k] by {
                assert(self.sessions@[k] == old(self).sessions@[k]);
            }
            assert(self@.sessions =~= want.sessions);
            assert(self@ == want);
            self.registry_survives(*old(self));
            assert(session_bits(self@.sessions) =~= session_bits(old(self)@.sessions).push(id.bits));
        }
        session
    }
    /// The store keeps its invariant when the sessions keep their entities
    /// and lobbies and nothing else changes.
    proof fn frame_survives(&self, before: Self)
        requires
            before.wf(),
            before@.same_frame(self@),
            self.accounts == before.accounts,
            self.user_places == before.user_places,
            self.session_places == before.session_places,
            self.users == before.users,
        ensures
            self.wf(),
    {
        before@.same_frame_keeps_wf(self@);
        self.registry_survives(before);
        self.sessions_survive(before);
    }

    /// Whether every member of the lobby at place `k` participates and has
    /// consented.
    pub(crate) fn all_accepted(&self, k: usize) -> (all: bool)
        requires
            self.wf(),
            k < self@.sessions.len(),
        ensures
            all == self@.all_accepted(k as int),
    {
        let ghost session = self@.sessions[k as int];
        assert(session == self.sessions@[k as int]@);
        let id = EntityId(self.sessions[k].entity);
        let mut m: usize = 0;
        while m < self.sessions[k].lobby.len()
            invariant
                k < self.sessions@.len(),
                self.wf(),
                session == self.sessions@[k as int]@,
                session == self@.sessions[k as int],
                id == EntityId(session.entity),
                m <= session.lobby.len(),
                forall|w: int|
                    0 <= w < m ==> self@.position(#[trigger] session.lobby[w]).is_some() && self@.users[self@.position(
                        session.lobby[w],
                    ).unwrap()].place == (Place::Lobby { session: id, accepted: true }),
            decreases session.lobby.len() - m,
        {
            let e = self.sessions[k].lobby.entity(m);
            let consented = match self.position_of(e) {
                Some(i) => match self.users[i].place {
                    Place::Lobby { session, accepted } => accepted && session.0.bits == id.0.bits,
                    Place::Queue => false,
                },
                None => false,
            };
            if !consented {
                return false;
            }
            m = m + 1;
        }
        true
    }

    /// Makes the session at place `k` active if all its members have
    /// consented: the game starts the shared state and gives each member its
    /// state. Says whether the session became active.
    pub(crate) fn activate(&mut self, k: usize) -> (began: bool) where P: UserState<Shared = S>
        requires
            old(self).wf(),
            k < old(self)@.sessions.len(),
        ensures
            final(self).wf(),
            began == old(self)@.starts(k as int),
            began ==> final(self)@ == old(self)@.begun(
                k as int,
                P::started(old(self)@.sessions[k as int].state.shared, old(self)@.size).shared,
                P::started(old(self)@.sessions[k as int].state.shared, old(self)@.size).states,
            ),
            !began ==> final(self)@ == old(self)@,
    {
        assert(self@.sessions[k as int] == self.sessions@[k as int]@);
        if self.sessions[k].accepted || !self.all_accepted(k) {
            return false;
        }
        let n: usize = self.sessions[k].lobby.len();
        let states = P::init(&mut self.sessions[k].state.shared, n);
        let ghost lobby = self.sessions@[k as int].lobby@;
        let mut users: Vec<(u64, P)> = Vec::new();
        for state in it: states
            invariant
                it.seq() == states@,
                k < self.sessions@.len(),
                lobby == self.sessions@[k as int].lobby@,
                users@ == seated(lobby, states@.take(it.index() as int)),
        {
            let m: usize = users.len();
            let ghost so_far = users@;
            if m < self.sessions[k].lobby.len() {
                users.push((self.sessions[k].lobby.entity(m).bits, state));
                assert(users@ =~= seated(lobby, states@.take(it.index() + 1)));
            } else {
                assert(so_far =~= seated(lobby, states@.take(it.index() + 1)));
            }
        }
        assert(states@.take(states@.len() as int) =~= states@);
        self.sessions[k].state.users = users;
        self.sessions[k].accepted = true;
        proof {
            let old_session = old(self)@.sessions[k as int];
            let started = P::started(old_session.state.shared, old(self)@.size);
            let want = old(self)@.begun(k as int, started.shared, started.states);
            assert(old_session == old(self).sessions@[k as int]@);
            assert(old_session.lobby.len() == old(self)@.size);
            assert forall|j: int| 0 <= j < self.sessions@.len() implies #[trigger] self@.sessions[j]
                == want.sessions[j] by {
                if j != k {
                    assert(self.sessions@[j] == old(self).sessions@[j]);
                    assert(old(self)@.sessions[j] == old(self).sessions@[j]@);
                }
            }
            assert(self@.sessions =~= want.sessions);
            assert(self@ == want);
            self.frame_survives(*old(self));
        }
        true
    }

    /// Lets the member `index` do `action` in the session at place `k`.
    pub(crate) fn resolve<A: Action<Shared = S, User = P>>(&mut self, k: usize, index: u64, action: A)
        requires
            old(self).wf(),
            k < old(self)@.sessions.len(),
        ensures
            final(self).wf(),
            final(self)@ == old(self)@.with_state(
                k as int,
                action.resolved(index, old(self)@.sessions[k as int].state),
            ),
    {
        assert(self@.sessions[k as int] == self.sessions@[k as int]@);
        action.resolve(index, &mut self.sessions[k].state);
        proof {
            self.state_changed(*old(self), k as int);
        }
    }

    /// Lets one tick pass over the session at place `k`.
    pub(crate) fn update<A: Action<Shared = S, User = P>>(&mut self, k: usize)
        requires
            old(self).wf(),
            k < old(self)@.sessions.len(),
        ensures
            final(self).wf(),
            final(self)@ == old(self)@.with_state(k as int, A::updated(old(self)@.sessions[k as int].state)),
    {
        assert(self@.sessions[k as int] == self.sessions@[k as int]@);
        A::update(&mut self.sessions[k].state);
        proof {
            self.state_changed(*old(self), k as int);
        }
    }

    /// Lets `delta` pass over the timers of the session at place `k`.
    pub(crate) fn advance(&mut self, k: usize, delta: Duration) where S: AsStopwatch
        requires
            old(self).wf(),
            k < old(self)@.sessions.len(),
        ensures
            final(self).wf(),
            final(self)@ == old(self)@.with_state(
                k as int,
                StateView {
                    shared: old(self)@.sessions[k as int].state.shared.ticked(delta),
                    ..old(self)@.sessions[k as int].state
                },
            ),
    {
        assert(self@.sessions[k as int] == self.sessions@[k as int]@);
        self.sessions[k].state.shared.tick(delta);
        proof {
            self.state_changed(*old(self), k as int);
        }
    }

    /// A store that differs from `before` in the state of the session at
    /// place `k` only is `before` with that state, and keeps the invariant.
    proof fn state_changed(&self, before: Self, k: int)
        requires
            before.wf(),
            0 <= k < before.sessions@.len(),
            self.size == before.size,
            self.next == before.next,
            self.users == before.users,
            self.accounts == before.accounts,
            self.user_places == before.user_places,
            self.session_places == before.session_places,
            self.sessions@.len() == before.sessions@.len(),
            forall|j: int| 0 <= j < self.sessions@.len() && j != k ==> #[trigger] self.sessions@[j] == before.sessions@[j],
            self.sessions@[k].entity == before.sessions@[k].entity,
            self.sessions@[k].lobby == before.sessions@[k].lobby,
            self.sessions@[k].accepted == before.sessions@[k].accepted,
        ensures
            self@ == before@.with_state(k, self.sessions@[k].state@),
            self.wf(),
    {
        let want = before@.with_state(k, self.sessions@[k].state@);
        assert forall|j: int| 0 <= j < self.sessions@.len() implies #[trigger] self@.sessions[j] == want.sessions[j] by {
            if j != k {
                assert(self.sessions@[j] == before.sessions@[j]);
            }
        }
        assert(self@.sessions =~= want.sessions);
        self.frame_survives(before);
    }
    /// Whether `id` refers to a session none of whose members participates:
    /// such a session can be ended without loss.
    pub fn is_deserted(&self, id: EntityId) -> (deserted: bool)
        requires
            self.wf(),
        ensures
            deserted == (match self@.session(id.0) {
                Some(k) => self@.is_deserted(k),
                None => false,
            }),
    {
        let k = match self.session_of(id.0) {
            Some(k) => k,
            None => {
                return false;
            },
        };
        let ghost session = self@.sessions[k as int];
        assert(session == self.sessions@[k as int]@);
        let mut m: usize = 0;
        while m < self.sessions[k].lobby.len()
            invariant
                k < self.sessions@.len(),
                self.wf(),
                self@.session(id.0) == Some(k as int),
                session == self.sessions@[k as int]@,
                session == self@.sessions[k as int],
                m <= session.lobby.len(),
                forall|w: int| 0 <= w < m ==> self@.position(#[trigger] session.lobby[w]).is_none(),
            decreases session.lobby.len() - m,
        {
            if self.position_of(self.sessions[k].lobby.entity(m)).is_some() {
                return false;
            }
            m = m + 1;
        }
        true
    }

    /// Ends the session that `id` refers to, whether it is active or not.
    /// The session goes, and with it those of its members that participate;
    /// their accounts are free to join anew. The result is `None` if `id`
    /// refers to no session; else it holds the records of the members that
    /// went, so that they can be told.
    #[verifier::rlimit(40)]
    pub fn end(&mut self, id: EntityId) -> (gone: Option<Vec<User<U, C>>>)
        requires
            old(self).wf(),
        ensures
            final(self).wf(),
            final(self)@ == old(self)@.ended(id),
            match gone {
                Some(members) => old(self)@.session(id.0).is_some() && members@ == members_below(
                    old(self)@.users,
                    old(self)@.sessions[old(self)@.session(id.0).unwrap()].lobby,
                    old(self)@.users.len() as int,
                ),
                None => old(self)@.session(id.0).is_none(),
            },
    {
        let k = match self.session_of(id.0) {
            Some(k) => k,
            None => {
                return None;
            },
        };
        assert(self@.sessions[k as int] == self.sessions@[k as int]@);
        let session = self.sessions.remove(k);
        let ghost lobby = session.lobby@;
        let ghost before = old(self).users@;
        let mut members: Vec<User<U, C>> = Vec::new();
        let mut i: usize = 0;
        let ghost mut j: int = 0;
        proof {
            assert(before.skip(0) =~= before);
            assert(self.users@ =~= others_below(before, lobby, 0) + before.skip(0));
        }
        while i < self.users.len()
            invariant
                0 <= j <= before.len(),
                i <= self.users.len(),
                lobby == session.lobby@,
                self.size == old(self).size,
                self.next == old(self).next,
                self.sessions@ == old(self).sessions@.remove(k as int),
                self.users@ == others_below(before, lobby, j) + before.skip(j),
                i == others_below(before, lobby, j).len(),
                members@ == members_below(before, lobby, j),
                agrees(self.accounts@, self.users@),
                accounts_differ(self.users@),
            decreases before.len() - j,
        {
            let ghost kept = others_below(before, lobby, j);
            assert(self.users@[i as int] == before[j]);
            assert(before.skip(j).skip(1) =~= before.skip(j + 1));
            if session.lobby.place_of(self.users[i].entity).is_some() {
                proof {
                    agrees_without(self.accounts@, self.users@, i as int);
                }
                let member = self.users.remove(i);
                self.accounts.remove(&member.account);
                members.push(member);
                proof {
                    assert(self.users@ =~= kept + before.skip(j + 1));
                    j = j + 1;
                }
            } else {
                proof {
                    assert(self.users@ =~= kept.push(before[j]) + before.skip(j + 1));
                    j = j + 1;
                }
                i = i + 1;
            }
        }
        proof {
            assert(j == before.len());
            assert(before.skip(j) =~= Seq::<User<U, C>>::empty());
            assert(self.users@ =~= others_below(before, lobby, j));
            let want = old(self)@.ended(id);
            assert(self@.sessions =~= want.sessions);
            assert(self@ == want);
            old(self)@.ended_keeps_wf(id);
        }
        proof {
            assert forall|a: int, b: int| 0 <= a < b < self.sessions@.len() implies (#[trigger] self.sessions@[a]).entity
                != (#[trigger] self.sessions@[b]).entity by {
                assert(self@.sessions[a].entity != self@.sessions[b].entity);
            }
        }
        self.user_places = index_users(&self.users);
        self.session_places = index_sessions(&self.sessions);
        Some(members)
    }
}

/// An index of `users`, no two of which share an entity.
fn index_users<U, C>(users: &Vec<User<U, C>>) -> (places: Places)
    requires
        forall|i: int, j: int|
            0 <= i < j < users@.len() ==> (#[trigger] users@[i]).entity != (#[trigger] users@[j]).entity,
    ensures
        indexes(places@, user_bits(users@)),
{
    let ghost bits = user_bits(users@);
    let mut places = Places::new();
    let mut t: usize = 0;
    while t < users.len()
        invariant
            t <= users.len(),
            bits == user_bits(users@),
            forall|i: int, j: int|
                0 <= i < j < users@.len() ==> (#[trigger] users@[i]).entity != (#[trigger] users@[j]).entity,
            indexes(places@, bits.take(t as int)),
        decreases users.len() - t,
    {
        proof {
            assert forall|i: int| 0 <= i < t implies bits.take(t as int)[i] != users@[t as int].entity.bits by {
                assert(users@[i].entity != users@[t as int].entity);
            }
            indexes_more(places@, bits.take(t as int), users@[t as int].entity.bits);
            assert(bits.take(t + 1) =~= bits.take(t as int).push(users@[t as int].entity.bits));
        }
        let _ = places.insert(users[t].entity.bits, t);
        t = t + 1;
    }
    assert(bits.take(users@.len() as int) =~= bits);
    places
}

/// An index of `sessions`, no two of which share an entity.
fn index_sessions<S, P>(sessions: &Vec<Session<S, P>>) -> (places: Places)
    requires
        forall|i: int, j: int|
            0 <= i < j < sessions@.len() ==> (#[trigger] sessions@[i]).entity != (#[trigger] sessions@[j]).entity,
    ensures
        indexes(places@, session_bits(sessions@.map_values(|s: Session<S, P>| s@))),
{
    let ghost bits = session_bits(sessions@.map_values(|s: Session<S, P>| s@));
    let mut places = Places::new();
    let mut t: usize = 0;
    while t < sessions.len()
        invariant
            t <= sessions.len(),
            bits == session_bits(sessions@.map_values(|s: Session<S, P>| s@)),
            forall|i: int, j: int|
                0 <= i < j < sessions@.len() ==> (#[trigger] sessions@[i]).entity != (#[trigger] sessions@[j]).entity,
            indexes(places@, bits.take(t as int)),
        decreases sessions.len() - t,
    {
        proof {
            assert forall|i: int| 0 <= i < t implies bits.take(t as int)[i] != sessions@[t as int].entity.bits by {
                assert(sessions@[i].entity != sessions@[t as int].entity);
            }
            indexes_more(places@, bits.take(t as int), sessions@[t as int].entity.bits);
            assert(bits.take(t + 1) =~= bits.take(t as int).push(sessions@[t as int].entity.bits));
        }
        let _ = places.insert(sessions[t].entity.bits, t);
        t = t + 1;
    }
    assert(bits.take(sessions@.len() as int) =~= bits);
    places
}

/// Whether `e` is one of `members`.
pub fn holds(members: &Vec<Entity>, e: Entity) -> (held: bool)
    ensures
        held == members@.contains(e),
{
    let mut k: usize = 0;
    while k < members.len()
        invariant
            k <= members.len(),
            forall|j: int| 0 <= j < k ==> members@[j] != e,
        decreases members.len() - k,
    {
        if members[k].bits == e.bits {
            return true;
        }
        k = k + 1;
    }
    false
}

} // verus!
