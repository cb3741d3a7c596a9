//! One tick of the server: the fixed order in which signals, matchmaking,
//! sessions and snapshots take their turn.

use vstd::prelude::*;
use core::time::Duration;
use crate::data::UserData;
use crate::entity::Entity;
use crate::info::Info;
use crate::matchmaking::{init_session, lobbies_view, matchmake, matchmake_with, process_queue, reconnect};
use crate::send::{ActionSignal, QueueSignal, ReconnectSignal};
use crate::state::{Action, SharedState, UserState};
use crate::model::Model;
use crate::store::Store;
use crate::time::AsStopwatch;
use crate::update::{outbox_view, process_actions, update_client};

verus! {

/// What a tick has to tell the clients.
pub struct Outgoing<U, S> {
    /// The participants that joined the queue.
    pub queued: Vec<Entity>,
    /// The lobbies that formed, each with its members.
    pub lobbies: Vec<Vec<Entity>>,
    /// The sessions that became active.
    pub started: Vec<Entity>,
    /// For each member of an active session, what it may see of the session.
    pub snapshots: Vec<(Entity, Info<U, S>)>,
}

impl<U: UserData, S: SharedState<User = P> + AsStopwatch, P: UserState<Shared = S>, C> Model<U, S, P, C> {
    /// The store once the signals of a tick are applied and its lobbies have
    /// formed: first the signals to the queue, then the reconnects, then
    /// matchmaking with `seeds`.
    pub open spec fn after_matchmaking(
        self,
        queue: Seq<QueueSignal<U, C>>,
        reconnects: Seq<ReconnectSignal<C>>,
        seeds: Seq<[u8; 32]>,
    ) -> Self {
        self.after_signals(queue).after_reconnects(reconnects).matched(seeds)
    }

    /// The store after a tick: the signals, matchmaking, the start of the
    /// sessions whose members have all consented, and then the actions, the
    /// game's step and the timers.
    pub open spec fn after_tick<A: Action<Shared = S, User = P>>(
        self,
        queue: Seq<QueueSignal<U, C>>,
        reconnects: Seq<ReconnectSignal<C>>,
        seeds: Seq<[u8; 32]>,
        actions: Seq<ActionSignal<A>>,
        delta: Duration,
    ) -> Self {
        let matched = self.after_matchmaking(queue, reconnects, seeds);
        matched.initiated_below(matched.sessions.len() as int).after_actions(actions, delta)
    }

    /// Whether `seeds` are what a tick draws from a random source that
    /// gives a seed for every planned lobby or fails: one seed for each
    /// lobby of the plan, or none at all.
    pub open spec fn draws(
        self,
        queue: Seq<QueueSignal<U, C>>,
        reconnects: Seq<ReconnectSignal<C>>,
        seeds: Seq<[u8; 32]>,
    ) -> bool {
        seeds.len() == 0 || seeds.len() == self.after_signals(queue).after_reconnects(reconnects).plan().len()
    }

    /// Whether a tick with `seeds` takes this store to `after`, forming
    /// `lobbies` and starting the sessions `started`.
    pub open spec fn ticks_to<A: Action<Shared = S, User = P>>(
        self,
        queue: Seq<QueueSignal<U, C>>,
        reconnects: Seq<ReconnectSignal<C>>,
        seeds: Seq<[u8; 32]>,
        actions: Seq<ActionSignal<A>>,
        delta: Duration,
        after: Self,
        lobbies: Seq<Seq<Entity>>,
        started: Seq<Entity>,
    ) -> bool {
        let ready = self.after_signals(queue).after_reconnects(reconnects);
        let matched = self.after_matchmaking(queue, reconnects, seeds);
        &&& after == self.after_tick(queue, reconnects, seeds, actions, delta)
        &&& lobbies == ready.plan().take(ready.formable(seeds.len() as int))
        &&& started == matched.starting_below(matched.sessions.len() as int)
    }
}

/// Runs one tick with the seeds given. The order is fixed: the signals to
/// the queue, the reconnects, matchmaking, the start of sessions, the actions
/// with the game's step and the timers, and last the snapshots, which show
/// the store as the tick leaves it.
pub fn run_tick_with<U, S, P, C, A>(
    store: &mut Store<U, S, P, C>,
    queue: Vec<QueueSignal<U, C>>,
    reconnects: Vec<ReconnectSignal<C>>,
    seeds: &Vec<[u8; 32]>,
    actions: Vec<ActionSignal<A>>,
    delta: Duration,
) -> (out: Outgoing<P::Info, S::Info>) where
    U: UserData,
    S: SharedState<User = P> + AsStopwatch,
    P: UserState<Shared = S>,
    A: Action<Shared = S, User = P>,

    requires
        old(store).wf(),
    ensures
        final(store).wf(),
        final(store)@ == old(store)@.after_tick(queue@, reconnects@, seeds@, actions@, delta),
        out.queued@ == old(store)@.admitted(queue@),
        lobbies_view(out.lobbies@) == old(store)@.after_signals(queue@).after_reconnects(reconnects@).plan().take(
            old(store)@.after_signals(queue@).after_reconnects(reconnects@).formable(seeds@.len() as int),
        ),
        out.started@ == old(store)@.after_matchmaking(queue@, reconnects@, seeds@).starting_below(
            old(store)@.after_matchmaking(queue@, reconnects@, seeds@).sessions.len() as int,
        ),
        outbox_view(out.snapshots@) == final(store)@.outbox(),
{
    let queued = process_queue(store, queue);
    reconnect(store, reconnects);
    let lobbies = matchmake_with(store, seeds);
    let started = init_session(store);
    process_actions(store, actions, delta);
    let snapshots = update_client(store);
    Outgoing { queued, lobbies, started, snapshots }
}

/// Runs one tick, seeding each new session from the operating system's
/// random source. If that source fails, no lobby forms in this tick; the
/// tick goes on with the rest.
pub fn run_tick<U, S, P, C, A>(
    store: &mut Store<U, S, P, C>,
    queue: Vec<QueueSignal<U, C>>,
    reconnects: Vec<ReconnectSignal<C>>,
    actions: Vec<ActionSignal<A>>,
    delta: Duration,
) -> (out: Outgoing<P::Info, S::Info>) where
    U: UserData,
    S: SharedState<User = P> + AsStopwatch,
    P: UserState<Shared = S>,
    A: Action<Shared = S, User = P>,

    requires
        old(store).wf(),
    ensures
        final(store).wf(),
        exists|seeds: Seq<[u8; 32]>|
            old(store)@.draws(queue@, reconnects@, seeds) && #[trigger] old(store)@.ticks_to(
                queue@,
                reconnects@,
                seeds,
                actions@,
                delta,
                final(store)@,
                lobbies_view(out.lobbies@),
                out.started@,
            ),
        out.queued@ == old(store)@.admitted(queue@),
        outbox_view(out.snapshots@) == final(store)@.outbox(),
{
    let queued = process_queue(store, queue);
    reconnect(store, reconnects);
    let ghost ready = store@;
    let lobbies = match matchmake(store) {
        Ok(lobbies) => lobbies,
        Err(_) => {
            let none: Vec<Vec<Entity>> = Vec::new();
            proof {
                let seeds = Seq::<[u8; 32]>::empty();
                assert(ready.plan().take(0) =~= Seq::<Seq<Entity>>::empty());
                assert(ready.matched(seeds) == ready);
                assert(lobbies_view(none@) =~= ready.plan().take(ready.formable(seeds.len() as int)));
            }
            none
        },
    };
    let ghost seeds = choose|seeds: Seq<[u8; 32]>|
        (seeds.len() == 0 || seeds.len() == ready.plan().len()) && store@ == ready.matched(seeds) && lobbies_view(
            lobbies@,
        ) == ready.plan().take(ready.formable(seeds.len() as int));
    let started = init_session(store);
    process_actions(store, actions, delta);
    let snapshots = update_client(store);
    let out = Outgoing { queued, lobbies, started, snapshots };
    assert(old(store)@.draws(queue@, reconnects@, seeds));
    assert(old(store)@.ticks_to(
        queue@,
        reconnects@,
        seeds,
        actions@,
        delta,
        store@,
        lobbies_view(out.lobbies@),
        out.started@,
    ));
    out
}

} // verus!
