//! Lobbies are kept: whatever happens to the store, a session that has
//! formed stays at its place, with its entity and with the members that its
//! lobby was formed with.

use vstd::prelude::*;
use core::time::Duration;
use crate::data::UserData;
use crate::entity::Entity;
use crate::send::{ActionSignal, QueueSignal, ReconnectSignal};
use crate::state::{Action, SharedState, StateView, UserState};
use crate::model::{registered_below_is_first, session_below_is_first, Model};
use crate::time::AsStopwatch;

verus! {

impl<U, S, P, C> Model<U, S, P, C> {
    /// Whether `later` has every session of this store at its place, with
    /// its entity and lobby.
    pub open spec fn keeps_lobbies(self, later: Self) -> bool {
        &&& self.sessions.len() <= later.sessions.len()
        &&& forall|k: int|
            0 <= k < self.sessions.len() ==> (#[trigger] later.sessions[k]).entity == self.sessions[k].entity
                && later.sessions[k].lobby == self.sessions[k].lobby
    }

    /// What keeps the lobbies of a store that kept the lobbies of another
    /// keeps the lobbies of that other.
    pub proof fn keeps_lobbies_on(self, between: Self, later: Self)
        requires
            self.keeps_lobbies(between),
            between.keeps_lobbies(later),
        ensures
            self.keeps_lobbies(later),
    {
        assert forall|k: int| 0 <= k < self.sessions.len() implies (#[trigger] later.sessions[k]).entity
            == self.sessions[k].entity && later.sessions[k].lobby == self.sessions[k].lobby by {
            assert(between.sessions[k].entity == self.sessions[k].entity);
        }
    }

    /// Signals to the queue leave the sessions as they are.
    pub proof fn signals_keep_sessions(self, signals: Seq<QueueSignal<U, C>>)
        ensures
            self.after_signals(signals).sessions == self.sessions,
        decreases signals.len(),
    {
        if signals.len() > 0 {
            self.signals_keep_sessions(signals.drop_last());
        }
    }

    /// Reconnects leave the sessions as they are.
    pub proof fn reconnects_keep_sessions(self, signals: Seq<ReconnectSignal<C>>)
        ensures
            self.after_reconnects(signals).sessions == self.sessions,
        decreases signals.len(),
    {
        if signals.len() > 0 {
            self.reconnects_keep_sessions(signals.drop_last());
        }
    }

    /// New lobbies come behind the sessions that were there.
    pub proof fn new_lobbies_keep_lobbies(self, lobbies: Seq<Seq<Entity>>, shareds: Seq<S>)
        ensures
            self.keeps_lobbies(self.with_lobbies(lobbies, shareds)),
            self.with_lobbies(lobbies, shareds).sessions.len() == self.sessions.len() + lobbies.len(),
        decreases lobbies.len(),
    {
        if lobbies.len() > 0 {
            let before = self.with_lobbies(lobbies.drop_last(), shareds.drop_last());
            self.new_lobbies_keep_lobbies(lobbies.drop_last(), shareds.drop_last());
            let after = before.with_lobby(lobbies.last(), shareds.last());
            assert forall|k: int| 0 <= k < before.sessions.len() implies #[trigger] after.sessions[k]
                == before.sessions[k] by {}
            before.keeps_lobbies_same(after);
            self.keeps_lobbies_on(before, after);
        }
    }

    /// Forming lobbies changes the place of their members and nothing else
    /// of any participant: who is a member of none of them stays as it is,
    /// queued if it was queued.
    pub proof fn new_lobbies_touch_members_only(self, lobbies: Seq<Seq<Entity>>, shareds: Seq<S>)
        ensures
            self.with_lobbies(lobbies, shareds).users.len() == self.users.len(),
            forall|i: int|
                0 <= i < self.users.len() ==> {
                    let after = #[trigger] self.with_lobbies(lobbies, shareds).users[i];
                    &&& after.entity == self.users[i].entity
                    &&& after.account == self.users[i].account
                    &&& after.user_data == self.users[i].user_data
                    &&& after.connection == self.users[i].connection
                    &&& ((forall|l: int| 0 <= l < lobbies.len() ==> !(#[trigger] lobbies[l]).contains(self.users[i].entity))
                        ==> after == self.users[i])
                },
        decreases lobbies.len(),
    {
        if lobbies.len() > 0 {
            let fewer = lobbies.drop_last();
            let before = self.with_lobbies(fewer, shareds.drop_last());
            self.new_lobbies_touch_members_only(fewer, shareds.drop_last());
            let after = before.with_lobby(lobbies.last(), shareds.last());
            assert forall|i: int| 0 <= i < self.users.len() implies {
                let last = #[trigger] self.with_lobbies(lobbies, shareds).users[i];
                &&& last.entity == self.users[i].entity
                &&& last.account == self.users[i].account
                &&& last.user_data == self.users[i].user_data
                &&& last.connection == self.users[i].connection
                &&& ((forall|l: int| 0 <= l < lobbies.len() ==> !(#[trigger] lobbies[l]).contains(self.users[i].entity))
                    ==> last == self.users[i])
            } by {
                assert(before.users[i].entity == self.users[i].entity);
                if forall|l: int| 0 <= l < lobbies.len() ==> !(#[trigger] lobbies[l]).contains(self.users[i].entity) {
                    assert forall|l: int| 0 <= l < fewer.len() implies !(#[trigger] fewer[l]).contains(
                        self.users[i].entity,
                    ) by {
                        assert(fewer[l] == lobbies[l]);
                    }
                    assert(!lobbies[lobbies.len() - 1].contains(self.users[i].entity));
                }
            }
        }
    }

    /// A store whose first sessions are those of this store keeps its
    /// lobbies.
    pub proof fn keeps_lobbies_same(self, later: Self)
        requires
            self.sessions.len() <= later.sessions.len(),
            forall|k: int| 0 <= k < self.sessions.len() ==> #[trigger] later.sessions[k] == self.sessions[k],
        ensures
            self.keeps_lobbies(later),
    {
    }

    /// A change of a session's state keeps the lobbies.
    pub proof fn state_keeps_lobbies(self, k: int, state: StateView<S, P>)
        requires
            0 <= k < self.sessions.len(),
        ensures
            self.keeps_lobbies(self.with_state(k, state)),
            self.with_state(k, state).sessions.len() == self.sessions.len(),
            self.with_state(k, state).users == self.users,
    {
    }

    /// The actions of a tick keep the lobbies.
    pub proof fn actions_keep_lobbies<A: Action<Shared = S, User = P>>(self, signals: Seq<ActionSignal<A>>)
        ensures
            self.keeps_lobbies(self.resolved_all(signals)),
            self.resolved_all(signals).sessions.len() == self.sessions.len(),
        decreases signals.len(),
    {
        if signals.len() > 0 {
            let before = self.resolved_all(signals.drop_last());
            self.actions_keep_lobbies(signals.drop_last());
            let signal = signals.last();
            match before.seat(signal.account) {
                Some((k, index)) => {
                    let i = before.registered(signal.account).unwrap();
                    registered_below_is_first(before.users, signal.account, before.users.len() as int);
                    let session = before.users[i].place->session;
                    session_below_is_first(before.sessions, session.0, before.sessions.len() as int);
                    before.state_keeps_lobbies(k, signal.action.resolved(index, before.sessions[k].state));
                },
                None => {},
            }
            self.keeps_lobbies_on(before, before.resolved(signal));
        }
    }

    /// The game's steps keep the lobbies.
    pub proof fn updates_keep_lobbies<A: Action<Shared = S, User = P>>(self, n: int)
        requires
            n <= self.sessions.len(),
        ensures
            self.keeps_lobbies(self.updated_below::<A>(n)),
            self.updated_below::<A>(n).sessions.len() == self.sessions.len(),
        decreases n,
    {
        if n > 0 {
            let before = self.updated_below::<A>(n - 1);
            self.updates_keep_lobbies::<A>(n - 1);
            if before.sessions[n - 1].accepted {
                before.state_keeps_lobbies(n - 1, A::updated(before.sessions[n - 1].state));
            }
            self.keeps_lobbies_on(before, self.updated_below::<A>(n));
        }
    }
}

impl<U, S: AsStopwatch, P, C> Model<U, S, P, C> {
    /// The timers keep the lobbies.
    pub proof fn timers_keep_lobbies(self, n: int, delta: Duration)
        requires
            n <= self.sessions.len(),
        ensures
            self.keeps_lobbies(self.ticked_below(n, delta)),
            self.ticked_below(n, delta).sessions.len() == self.sessions.len(),
        decreases n,
    {
        if n > 0 {
            let before = self.ticked_below(n - 1, delta);
            self.timers_keep_lobbies(n - 1, delta);
            if before.sessions[n - 1].accepted {
                before.state_keeps_lobbies(
                    n - 1,
                    StateView {
                        shared: before.sessions[n - 1].state.shared.ticked(delta),
                        ..before.sessions[n - 1].state
                    },
                );
            }
            self.keeps_lobbies_on(before, self.ticked_below(n, delta));
        }
    }
}

impl<U, S, P: UserState<Shared = S>, C> Model<U, S, P, C> {
    /// The start of sessions keeps the lobbies.
    pub proof fn starts_keep_lobbies(self, n: int)
        requires
            n <= self.sessions.len(),
        ensures
            self.keeps_lobbies(self.initiated_below(n)),
            self.initiated_below(n).sessions.len() == self.sessions.len(),
        decreases n,
    {
        if n > 0 {
            let before = self.initiated_below(n - 1);
            self.starts_keep_lobbies(n - 1);
            before.session_starts_once(n - 1);
            self.keeps_lobbies_on(before, before.initiated(n - 1));
        }
    }
}

impl<U: UserData, S: SharedState<User = P> + AsStopwatch, P: UserState<Shared = S>, C> Model<U, S, P, C> {
    /// A tick keeps the lobbies: every session that had formed before it is
    /// at its place after it, with its entity and with the same members.
    pub proof fn tick_keeps_lobbies<A: Action<Shared = S, User = P>>(
        self,
        queue: Seq<QueueSignal<U, C>>,
        reconnects: Seq<ReconnectSignal<C>>,
        seeds: Seq<[u8; 32]>,
        actions: Seq<ActionSignal<A>>,
        delta: Duration,
    )
        ensures
            self.keeps_lobbies(self.after_tick(queue, reconnects, seeds, actions, delta)),
    {
        let signalled = self.after_signals(queue);
        let reconnected = signalled.after_reconnects(reconnects);
        let matched = reconnected.matched(seeds);
        let n = matched.sessions.len() as int;
        let started = matched.initiated_below(n);
        let resolved = started.resolved_all(actions);
        let updated = resolved.updated_below::<A>(n);
        let ticked = updated.ticked_below(n, delta);
        self.signals_keep_sessions(queue);
        signalled.reconnects_keep_sessions(reconnects);
        self.keeps_lobbies_same(reconnected);
        let k = reconnected.formable(seeds.len() as int);
        reconnected.new_lobbies_keep_lobbies(
            reconnected.plan().take(k),
            crate::matchmaking::seeded_all::<S>(seeds.take(k)),
        );
        self.keeps_lobbies_on(reconnected, matched);
        matched.starts_keep_lobbies(n);
        self.keeps_lobbies_on(matched, started);
        started.actions_keep_lobbies(actions);
        self.keeps_lobbies_on(started, resolved);
        resolved.updates_keep_lobbies::<A>(n);
        self.keeps_lobbies_on(resolved, updated);
        updated.timers_keep_lobbies(n, delta);
        self.keeps_lobbies_on(updated, ticked);
        assert(ticked == self.after_tick(queue, reconnects, seeds, actions, delta));
    }
}

} // verus!
