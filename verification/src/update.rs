//! What happens in the sessions during a tick: the members' actions, the
//! game's own step, the timers, and the snapshots that go out.

use vstd::prelude::*;
use core::time::Duration;
use crate::account::Account;
use crate::entity::Entity;
use crate::info::{Info, InfoView};
use crate::send::ActionSignal;
use crate::state::{Action, ActionState, SharedState, StateView, UserState};
use crate::model::{Model, Place};
use crate::store::Store;
use crate::time::AsStopwatch;

verus! {

/// What the member `viewer` is shown of a session in `state`: of each member
/// that has a state what the viewer may see of it, and of the shared state
/// what the viewer may see of it.
pub open spec fn snapshot_of<S: SharedState<User = P>, P: UserState<Shared = S>>(
    state: StateView<S, P>,
    viewer: u64,
) -> InfoView<P::Info, S::Info> {
    InfoView {
        users: state.users.map_values(|e: (u64, P)| (e.0, P::shown(viewer, e.0, state))),
        shared: S::shown(viewer, state),
        index: viewer,
    }
}

/// Snapshots with their receivers as values.
pub open spec fn outbox_view<U, S>(out: Seq<(Entity, Info<U, S>)>) -> Seq<(Entity, InfoView<U, S>)> {
    out.map_values(|o: (Entity, Info<U, S>)| (o.0, o.1@))
}

impl<U, S, P, C> Model<U, S, P, C> {
    /// Where `account` plays: the place of its session and its index there,
    /// if its participant is placed in an active session and has a state in
    /// it.
    pub open spec fn seat(self, account: Account) -> Option<(int, u64)> {
        match self.registered(account) {
            Some(i) => match self.users[i].place {
                Place::Lobby { session, .. } => match self.session(session.0) {
                    Some(k) => if self.sessions[k].accepted && self.sessions[k].state.has_user(
                        self.users[i].entity.bits,
                    ) {
                        Some((k, self.users[i].entity.bits))
                    } else {
                        None
                    },
                    None => None,
                },
                Place::Queue => None,
            },
            None => None,
        }
    }

    /// The store after one action: the game resolves it in the session of the
    /// member that did it, and in no other. An action of an account that
    /// plays nowhere is dropped.
    pub open spec fn resolved<A: Action<Shared = S, User = P>>(self, signal: ActionSignal<A>) -> Self {
        match self.seat(signal.account) {
            Some((k, index)) => self.with_state(k, signal.action.resolved(index, self.sessions[k].state)),
            None => self,
        }
    }

    /// The store after the actions `signals`, taken in turn.
    pub open spec fn resolved_all<A: Action<Shared = S, User = P>>(self, signals: Seq<ActionSignal<A>>) -> Self
        decreases signals.len(),
    {
        if signals.len() == 0 {
            self
        } else {
            self.resolved_all(signals.drop_last()).resolved(signals.last())
        }
    }

    /// The store after the game has let one tick pass over each active one of
    /// the first `n` sessions.
    pub open spec fn updated_below<A: Action<Shared = S, User = P>>(self, n: int) -> Self
        decreases n,
    {
        if n <= 0 {
            self
        } else {
            let before = self.updated_below::<A>(n - 1);
            if before.sessions[n - 1].accepted {
                before.with_state(n - 1, A::updated(before.sessions[n - 1].state))
            } else {
                before
            }
        }
    }

    /// Whether the member at place `m` of the lobby at place `k` gets a
    /// snapshot: it participates and has a state in the session.
    pub open spec fn receives(self, k: int, m: int) -> bool {
        self.position(self.sessions[k].lobby[m]).is_some() && self.sessions[k].state.has_user(
            self.sessions[k].lobby[m].bits,
        )
    }
}

impl<U, S: AsStopwatch, P, C> Model<U, S, P, C> {
    /// The store after `delta` has passed over the shared state of each
    /// active one of the first `n` sessions.
    pub open spec fn ticked_below(self, n: int, delta: Duration) -> Self
        decreases n,
    {
        if n <= 0 {
            self
        } else {
            let before = self.ticked_below(n - 1, delta);
            if before.sessions[n - 1].accepted {
                before.with_state(
                    n - 1,
                    StateView {
                        shared: before.sessions[n - 1].state.shared.ticked(delta),
                        ..before.sessions[n - 1].state
                    },
                )
            } else {
                before
            }
        }
    }

    /// The store after the actions of a tick: each action resolved in turn,
    /// then one step of the game in every active session, then the passing of
    /// `delta` over every active session's timers.
    pub open spec fn after_actions<A: Action<Shared = S, User = P>>(
        self,
        signals: Seq<ActionSignal<A>>,
        delta: Duration,
    ) -> Self {
        let n = self.sessions.len() as int;
        self.resolved_all(signals).updated_below::<A>(n).ticked_below(n, delta)
    }
}

impl<U, S: SharedState<User = P>, P: UserState<Shared = S>, C> Model<U, S, P, C> {
    /// The snapshots for the first `m` members of the lobby at place `k`.
    pub open spec fn outbox_of(self, k: int, m: int) -> Seq<(Entity, InfoView<P::Info, S::Info>)>
        decreases m,
    {
        if m <= 0 {
            Seq::empty()
        } else {
            let rest = self.outbox_of(k, m - 1);
            if self.receives(k, m - 1) {
                rest.push(
                    (self.sessions[k].lobby[m - 1], snapshot_of(self.sessions[k].state, self.sessions[k].lobby[m - 1].bits)),
                )
            } else {
                rest
            }
        }
    }

    /// The snapshots for the members of the active ones of the first `n`
    /// sessions.
    pub open spec fn outbox_below(self, n: int) -> Seq<(Entity, InfoView<P::Info, S::Info>)>
        decreases n,
    {
        if n <= 0 {
            Seq::empty()
        } else {
            let rest = self.outbox_below(n - 1);
            if self.sessions[n - 1].accepted {
                rest + self.outbox_of(n - 1, self.sessions[n - 1].lobby.len() as int)
            } else {
                rest
            }
        }
    }

    /// The snapshots that go out: for every active session in turn, for
    /// every member of its lobby in turn that participates and has a state,
    /// what that member may see of the session.
    pub open spec fn outbox(self) -> Seq<(Entity, InfoView<P::Info, S::Info>)> {
        self.outbox_below(self.sessions.len() as int)
    }
}

impl<U, S, P, C> Model<U, S, P, C> {
    /// An action touches the state of one session, that of the member that
    /// did it: the participants, every other session, and that session's
    /// entity, lobby and activity are as before.
    pub proof fn action_touches_one_session<A: Action<Shared = S, User = P>>(self, signal: ActionSignal<A>)
        requires
            self.wf(),
        ensures
            self.same_frame(self.resolved(signal)),
            forall|j: int|
                0 <= j < self.sessions.len() && (self.seat(signal.account) matches Some((k, _)) ==> j != k)
                    ==> #[trigger] self.resolved(signal).sessions[j] == self.sessions[j],
            self.seat(signal.account) matches Some((k, _)) ==> self.resolved(signal).sessions[k].accepted,
    {
        match self.seat(signal.account) {
            Some((k, index)) => {
                let i = self.registered(signal.account).unwrap();
                let session = self.users[i].place->session;
                crate::model::registered_below_is_first(self.users, signal.account, self.users.len() as int);
                crate::model::session_below_is_first(self.sessions, session.0, self.sessions.len() as int);
            },
            None => {},
        }
    }
}

/// Where `account` plays, if it plays in an active session.
pub fn seat_of<U, S, P, C>(store: &Store<U, S, P, C>, account: &Account) -> (seat: Option<(usize, u64)>)
    requires
        store.wf(),
    ensures
        match seat {
            Some((k, index)) => store@.seat(*account) == Some((k as int, index)) && k < store@.sessions.len(),
            None => store@.seat(*account).is_none(),
        },
{
    match store.lookup(account) {
        Some(i) => {
            let user = &store.users()[i];
            match user.place {
                Place::Lobby { session, .. } => match store.session_of(session.0) {
                    Some(k) => {
                        let found = &store.sessions()[k];
                        if found.accepted && found.state.find(user.entity.bits).is_some() {
                            Some((k, user.entity.bits))
                        } else {
                            None
                        }
                    },
                    None => None,
                },
                Place::Queue => None,
            }
        },
        None => None,
    }
}

/// Runs the sessions for one tick. Each action is resolved, in turn, in the
/// session of the member that did it; an action of an account that plays in
/// no active session is dropped. Then the game takes one step in every
/// active session, and `delta` passes over every active session's timers.
pub fn process_actions<U, S: AsStopwatch, P, C, A: Action<Shared = S, User = P>>(
    store: &mut Store<U, S, P, C>,
    signals: Vec<ActionSignal<A>>,
    delta: Duration,
)
    requires
        old(store).wf(),
    ensures
        final(store).wf(),
        final(store)@ == old(store)@.after_actions(signals@, delta),
{
    let ghost start = store@;
    for signal in it: signals
        invariant
            it.seq() == signals@,
            store.wf(),
            store@.sessions.len() == start.sessions.len(),
            store@ == start.resolved_all(signals@.take(it.index() as int)),
    {
        proof {
            let longer = signals@.take(it.index() + 1);
            assert(longer.drop_last() =~= signals@.take(it.index() as int));
            assert(longer.last() == signal);
        }
        let ActionSignal { action, account } = signal;
        match seat_of(store, &account) {
            Some((k, index)) => {
                store.resolve(k, index, action);
            },
            None => {},
        }
    }
    assert(signals@.take(signals@.len() as int) =~= signals@);
    let ghost resolved = store@;
    let n: usize = store.sessions().len();
    let mut k: usize = 0;
    while k < n
        invariant
            k <= n,
            n == resolved.sessions.len(),
            store.wf(),
            store@.sessions.len() == n,
            store@ == resolved.updated_below::<A>(k as int),
        decreases n - k,
    {
        if store.sessions()[k].accepted {
            store.update::<A>(k);
        }
        k = k + 1;
    }
    let ghost updated = store@;
    let mut k: usize = 0;
    while k < n
        invariant
            k <= n,
            n == updated.sessions.len(),
            store.wf(),
            store@.sessions.len() == n,
            store@ == updated.ticked_below(k as int, delta),
        decreases n - k,
    {
        if store.sessions()[k].accepted {
            store.advance(k, delta);
        }
        k = k + 1;
    }
}

/// What the member `viewer` is shown of a session in `state`.
pub fn snapshot<S: SharedState<User = P>, P: UserState<Shared = S>>(state: &ActionState<S, P>, viewer: u64) -> (info:
    Info<P::Info, S::Info>)
    ensures
        info@ == snapshot_of(state@, viewer),
{
    let mut users: Vec<(u64, P::Info)> = Vec::new();
    let mut j: usize = 0;
    while j < state.users.len()
        invariant
            j <= state.users.len(),
            users@ == snapshot_of(state@, viewer).users.take(j as int),
        decreases state.users.len() - j,
    {
        let owner: u64 = state.users[j].0;
        users.push((owner, P::info(viewer, owner, state)));
        assert(users@ =~= snapshot_of(state@, viewer).users.take(j + 1));
        j = j + 1;
    }
    assert(snapshot_of(state@, viewer).users.take(state.users@.len() as int) =~= snapshot_of(state@, viewer).users);
    Info { users, shared: S::info(viewer, state), index: viewer }
}

/// The snapshots that go out after a tick: for every member of every active
/// session that participates and has a state, what that member may see of
/// its session.
pub fn update_client<U, S: SharedState<User = P>, P: UserState<Shared = S>, C>(store: &Store<U, S, P, C>) -> (out:
    Vec<(Entity, Info<P::Info, S::Info>)>)
    requires
        store.wf(),
    ensures
        outbox_view(out@) == store@.outbox(),
{
    let sessions = store.sessions();
    let mut out: Vec<(Entity, Info<P::Info, S::Info>)> = Vec::new();
    let mut k: usize = 0;
    assert(outbox_view(out@) =~= store@.outbox_below(0));
    while k < sessions.len()
        invariant
            k <= sessions.len(),
            store.wf(),
            sessions@.len() == store@.sessions.len(),
            forall|j: int| 0 <= j < sessions@.len() ==> (#[trigger] sessions@[j])@ == store@.sessions[j],
            outbox_view(out@) == store@.outbox_below(k as int),
        decreases sessions.len() - k,
    {
        let session = &sessions[k];
        assert(session@ == store@.sessions[k as int]);
        if session.accepted {
            let ghost before = outbox_view(out@);
            let mut m: usize = 0;
            assert(outbox_view(out@) =~= before + store@.outbox_of(k as int, 0));
            while m < session.lobby.len()
                invariant
                    m <= session.lobby@.len(),
                    store.wf(),
                    k < store@.sessions.len(),
                    session@ == store@.sessions[k as int],
                    outbox_view(out@) == before + store@.outbox_of(k as int, m as int),
                decreases session.lobby@.len() - m,
            {
                let e = session.lobby.entity(m);
                let ghost so_far = outbox_view(out@);
                if store.position_of(e).is_some() && session.state.find(e.bits).is_some() {
                    let info = snapshot(&session.state, e.bits);
                    out.push((e, info));
                    assert(outbox_view(out@) =~= so_far.push((e, snapshot_of(session.state@, e.bits))));
                    assert(outbox_view(out@) =~= before + store@.outbox_of(k as int, m + 1));
                } else {
                    assert(store@.outbox_of(k as int, m + 1) == store@.outbox_of(k as int, m as int));
                }
                m = m + 1;
            }
        }
        k = k + 1;
    }
    out
}

} // verus!
