//! The invariant of the store holds after every tick, whatever the signals
//! and the seeds.

use vstd::prelude::*;
use core::time::Duration;
use crate::data::UserData;
use crate::entity::Entity;
use crate::matchmaking::seeded_all;
use crate::model::{registered_below_is_first, session_below_is_first, Model};
use crate::send::{ActionSignal, QueueSignal, ReconnectSignal};
use crate::state::{Action, SharedState, StateView, UserState};
use crate::time::AsStopwatch;

verus! {

impl<U, S, P, C> Model<U, S, P, C> {
    /// What has the frame of a store that has the frame of another has the
    /// frame of that other.
    pub proof fn same_frame_on(self, between: Self, later: Self)
        requires
            self.same_frame(between),
            between.same_frame(later),
        ensures
            self.same_frame(later),
    {
        assert forall|k: int| 0 <= k < self.sessions.len() implies (#[trigger] later.sessions[k]).entity
            == self.sessions[k].entity && later.sessions[k].lobby == self.sessions[k].lobby by {
            assert(between.sessions[k].entity == self.sessions[k].entity);
        }
    }

    /// Reconnects keep the invariant.
    pub proof fn after_reconnects_keeps_wf(self, signals: Seq<ReconnectSignal<C>>)
        requires
            self.wf(),
        ensures
            self.after_reconnects(signals).wf(),
        decreases signals.len(),
    {
        if signals.len() > 0 {
            self.after_reconnects_keeps_wf(signals.drop_last());
            self.after_reconnects(signals.drop_last()).reconnected_keeps_wf(
                signals.last().account,
                signals.last().connection,
            );
        }
    }

    /// Whether the lobbies `lobbies` can form one after the other: each has
    /// `size` members, queued users all, no entity is a member twice, and
    /// entities enough are left.
    pub open spec fn can_form(self, lobbies: Seq<Seq<Entity>>) -> bool {
        &&& lobbies.len() <= u64::MAX - self.next
        &&& forall|l: int|
            0 <= l < lobbies.len() ==> (#[trigger] lobbies[l]).len() == self.size && lobbies[l].no_duplicates()
                && self.all_queued(lobbies[l])
        &&& forall|l: int, t: int, m: int, w: int|
            0 <= l < t < lobbies.len() && 0 <= m < self.size && 0 <= w < self.size ==> #[trigger] lobbies[l][m]
                != #[trigger] lobbies[t][w]
    }

    /// Lobbies that can form one after the other keep the invariant when
    /// they do, and leave queued whoever is a member of none of them.
    pub proof fn with_lobbies_keeps_wf(self, lobbies: Seq<Seq<Entity>>, shareds: Seq<S>, others: Seq<Entity>)
        requires
            self.wf(),
            self.can_form(lobbies),
            self.all_queued(others),
            forall|l: int, m: int, w: int|
                0 <= l < lobbies.len() && 0 <= m < self.size && 0 <= w < others.len() ==> #[trigger] lobbies[l][m]
                    != #[trigger] others[w],
        ensures
            self.with_lobbies(lobbies, shareds).wf(),
            self.with_lobbies(lobbies, shareds).next == self.next + lobbies.len(),
            self.with_lobbies(lobbies, shareds).size == self.size,
            self.with_lobbies(lobbies, shareds).all_queued(others),
        decreases lobbies.len(),
    {
        if lobbies.len() > 0 {
            let fewer = lobbies.drop_last();
            let last = lobbies.last();
            let before = self.with_lobbies(fewer, shareds.drop_last());
            assert forall|l: int| 0 <= l < fewer.len() implies (#[trigger] fewer[l]).len() == self.size
                && fewer[l].no_duplicates() && self.all_queued(fewer[l]) by {
                assert(fewer[l] == lobbies[l]);
            }
            assert forall|l: int, t: int, m: int, w: int|
                0 <= l < t < fewer.len() && 0 <= m < self.size && 0 <= w < self.size implies #[trigger] fewer[l][m]
                != #[trigger] fewer[t][w] by {
                assert(lobbies[l][m] != lobbies[t][w]);
            }
            assert(self.can_form(fewer));
            // the lobbies before the last leave the last one's members and
            // the others queued
            let both = last + others;
            assert forall|w: int| 0 <= w < both.len() implies self.position(#[trigger] both[w]).is_some()
                && self.users[self.position(both[w]).unwrap()].place is Queue by {
                if w < last.len() {
                    assert(both[w] == last[w]);
                    assert(self.all_queued(lobbies[lobbies.len() - 1]));
                } else {
                    assert(both[w] == others[w - last.len()]);
                }
            }
            assert forall|l: int, m: int, w: int|
                0 <= l < fewer.len() && 0 <= m < self.size && 0 <= w < both.len() implies #[trigger] fewer[l][m]
                != #[trigger] both[w] by {
                if w < last.len() {
                    assert(both[w] == lobbies[lobbies.len() - 1][w]);
                    assert(lobbies[l][m] != lobbies[lobbies.len() - 1][w]);
                } else {
                    assert(both[w] == others[w - last.len()]);
                    assert(lobbies[l][m] != others[w - last.len()]);
                }
            }
            self.with_lobbies_keeps_wf(fewer, shareds.drop_last(), both);
            assert forall|m: int| 0 <= m < last.len() implies before.position(#[trigger] last[m]).is_some()
                && before.users[before.position(last[m]).unwrap()].place is Queue by {
                assert(both[m] == last[m]);
            }
            assert forall|w: int| 0 <= w < others.len() implies before.position(#[trigger] others[w]).is_some()
                && before.users[before.position(others[w]).unwrap()].place is Queue by {
                assert(both[w + last.len()] == others[w]);
            }
            before.with_lobby_keeps_wf(last, shareds.last());
            assert forall|m: int, w: int| 0 <= m < last.len() && 0 <= w < others.len() implies last[m]
                != others[w] by {
                assert(lobbies[lobbies.len() - 1][m] != others[w]);
            }
            before.with_lobby_leaves_queued(last, shareds.last(), others);
        }
    }

    /// A change of a session's state keeps the frame.
    pub proof fn state_keeps_frame(self, k: int, state: StateView<S, P>)
        requires
            0 <= k < self.sessions.len(),
        ensures
            self.same_frame(self.with_state(k, state)),
    {
    }

    /// The actions of a tick keep the frame.
    pub proof fn actions_keep_frame<A: Action<Shared = S, User = P>>(self, signals: Seq<ActionSignal<A>>)
        ensures
            self.same_frame(self.resolved_all(signals)),
        decreases signals.len(),
    {
        if signals.len() > 0 {
            let before = self.resolved_all(signals.drop_last());
            self.actions_keep_frame(signals.drop_last());
            let signal = signals.last();
            match before.seat(signal.account) {
                Some((k, index)) => {
                    let i = before.registered(signal.account).unwrap();
                    registered_below_is_first(before.users, signal.account, before.users.len() as int);
                    let session = before.users[i].place->session;
                    session_below_is_first(before.sessions, session.0, before.sessions.len() as int);
                    before.state_keeps_frame(k, signal.action.resolved(index, before.sessions[k].state));
                },
                None => {},
            }
            self.same_frame_on(before, before.resolved(signal));
        }
    }

    /// The game's steps keep the frame.
    pub proof fn updates_keep_frame<A: Action<Shared = S, User = P>>(self, n: int)
        requires
            n <= self.sessions.len(),
        ensures
            self.same_frame(self.updated_below::<A>(n)),
        decreases n,
    {
        if n > 0 {
            let before = self.updated_below::<A>(n - 1);
            self.updates_keep_frame::<A>(n - 1);
            if before.sessions[n - 1].accepted {
                before.state_keeps_frame(n - 1, A::updated(before.sessions[n - 1].state));
            }
            self.same_frame_on(before, self.updated_below::<A>(n));
        }
    }
}

impl<U, S: AsStopwatch, P, C> Model<U, S, P, C> {
    /// The timers keep the frame.
    pub proof fn timers_keep_frame(self, n: int, delta: Duration)
        requires
            n <= self.sessions.len(),
        ensures
            self.same_frame(self.ticked_below(n, delta)),
        decreases n,
    {
        if n > 0 {
            let before = self.ticked_below(n - 1, delta);
            self.timers_keep_frame(n - 1, delta);
            if before.sessions[n - 1].accepted {
                before.state_keeps_frame(
                    n - 1,
                    StateView {
                        shared: before.sessions[n - 1].state.shared.ticked(delta),
                        ..before.sessions[n - 1].state
                    },
                );
            }
            self.same_frame_on(before, self.ticked_below(n, delta));
        }
    }

    /// The actions, the game's steps and the timers of a tick keep the
    /// invariant.
    pub proof fn after_actions_keeps_wf<A: Action<Shared = S, User = P>>(
        self,
        signals: Seq<ActionSignal<A>>,
        delta: Duration,
    )
        requires
            self.wf(),
        ensures
            self.after_actions(signals, delta).wf(),
    {
        let n = self.sessions.len() as int;
        let resolved = self.resolved_all(signals);
        let updated = resolved.updated_below::<A>(n);
        self.actions_keep_frame(signals);
        resolved.updates_keep_frame::<A>(n);
        self.same_frame_on(resolved, updated);
        updated.timers_keep_frame(n, delta);
        self.same_frame_on(updated, updated.ticked_below(n, delta));
        self.same_frame_keeps_wf(self.after_actions(signals, delta));
    }
}

impl<U, S, P: UserState<Shared = S>, C> Model<U, S, P, C> {
    /// The start of sessions keeps the frame, and so the invariant.
    pub proof fn starts_keep_frame(self, n: int)
        requires
            n <= self.sessions.len(),
        ensures
            self.same_frame(self.initiated_below(n)),
        decreases n,
    {
        if n > 0 {
            let before = self.initiated_below(n - 1);
            self.starts_keep_frame(n - 1);
            before.session_starts_once(n - 1);
            self.same_frame_on(before, before.initiated(n - 1));
        }
    }
}

impl<U: UserData, S: SharedState, P, C> Model<U, S, P, C> {
    /// Matchmaking keeps the invariant.
    pub proof fn matched_keeps_wf(self, seeds: Seq<[u8; 32]>)
        requires
            self.wf(),
        ensures
            self.matched(seeds).wf(),
    {
        let k = self.formable(seeds.len() as int);
        let lobbies = self.plan().take(k);
        self.plan_is_sound();
        assert forall|l: int| 0 <= l < lobbies.len() implies (#[trigger] lobbies[l]).len() == self.size
            && lobbies[l].no_duplicates() && self.all_queued(lobbies[l]) by {
            assert(lobbies[l] == self.plan()[l]);
        }
        assert forall|l: int, t: int, m: int, w: int|
            0 <= l < t < lobbies.len() && 0 <= m < self.size && 0 <= w < self.size implies #[trigger] lobbies[l][m]
            != #[trigger] lobbies[t][w] by {
            assert(self.plan()[l][m] != self.plan()[t][w]);
        }
        self.with_lobbies_keeps_wf(lobbies, seeded_all::<S>(seeds.take(k)), Seq::empty());
    }
}

impl<U: UserData, S: SharedState<User = P> + AsStopwatch, P: UserState<Shared = S>, C> Model<U, S, P, C> {
    /// A tick keeps the invariant: no two participants share an entity or
    /// an account, every participant stands in one place, and no
    /// participant is a member of two lobbies, after every tick as before
    /// it.
    pub proof fn after_tick_keeps_wf<A: Action<Shared = S, User = P>>(
        self,
        queue: Seq<QueueSignal<U, C>>,
        reconnects: Seq<ReconnectSignal<C>>,
        seeds: Seq<[u8; 32]>,
        actions: Seq<ActionSignal<A>>,
        delta: Duration,
    )
        requires
            self.wf(),
        ensures
            self.after_tick(queue, reconnects, seeds, actions, delta).wf(),
    {
        let signalled = self.after_signals(queue);
        self.after_signals_keeps_wf(queue);
        let reconnected = signalled.after_reconnects(reconnects);
        signalled.after_reconnects_keeps_wf(reconnects);
        let matched = reconnected.matched(seeds);
        reconnected.matched_keeps_wf(seeds);
        let n = matched.sessions.len() as int;
        let started = matched.initiated_below(n);
        matched.starts_keep_frame(n);
        matched.same_frame_keeps_wf(started);
        started.after_actions_keeps_wf(actions, delta);
    }
}

} // verus!
