//! The queues of a server: each with its store and with the signals that
//! wait for its next tick.

use vstd::prelude::*;
use core::time::Duration;
use crate::data::UserData;
use crate::matchmaking::lobbies_view;
use crate::model::Model;
use crate::msg::Routed;
use crate::queue::Queue;
use crate::schedule::{run_tick, Outgoing};
use crate::send::{signal_of, signalled, Inbox, InboxView};
use crate::state::{Action, SharedState, UserState};
use crate::store::Store;
use crate::time::AsStopwatch;
use crate::update::outbox_view;

verus! {

/// Whether a tick takes a queue from `before`, with `inbox` waiting, to
/// `after`, and has `out` to tell: the signals are applied in the order of
/// a tick, each new session seeded with some seed.
pub open spec fn is_tick<U, S, P, C, A>(
    before: Model<U, S, P, C>,
    inbox: InboxView<U, C, A>,
    delta: Duration,
    after: Model<U, S, P, C>,
    out: Outgoing<P::Info, S::Info>,
) -> bool where
    U: UserData,
    S: SharedState<User = P> + AsStopwatch,
    P: UserState<Shared = S>,
    A: Action<Shared = S, User = P>,
 {
    &&& exists|seeds: Seq<[u8; 32]>|
        before.draws(inbox.queue, inbox.reconnect, seeds) && #[trigger] before.ticks_to(
            inbox.queue,
            inbox.reconnect,
            seeds,
            inbox.action,
            delta,
            after,
            lobbies_view(out.lobbies@),
            out.started@,
        )
    &&& out.queued@ == before.admitted(inbox.queue)
    &&& outbox_view(out.snapshots@) == after.outbox()
}

/// The queues of a server, by their numbers.
pub struct Hub<U, S, P, C, A> {
    stores: Vec<Store<U, S, P, C>>,
    inboxes: Vec<Inbox<U, C, A>>,
}

impl<U, S, P, C, A> Hub<U, S, P, C, A> {
    /// The stores of the queues.
    pub closed spec fn stores(&self) -> Seq<Store<U, S, P, C>> {
        self.stores@
    }

    /// The signals that wait, for each queue.
    pub closed spec fn inboxes(&self) -> Seq<InboxView<U, C, A>> {
        self.inboxes@.map_values(|inbox: Inbox<U, C, A>| inbox@)
    }

    /// The invariant of the hub: every queue has a store and an inbox, and
    /// every store keeps its own invariant.
    pub open spec fn wf(&self) -> bool {
        &&& self.stores().len() == self.inboxes().len()
        &&& forall|q: int| 0 <= q < self.stores().len() ==> (#[trigger] self.stores()[q]).wf()
    }

    /// A hub with one queue for each of `sizes`, which gives the lobby size
    /// of the queue, and nothing in it.
    pub fn new(sizes: &Vec<usize>) -> (hub: Self)
        ensures
            hub.wf(),
            hub.stores().len() == sizes@.len(),
            forall|q: int|
                0 <= q < sizes@.len() ==> (#[trigger] hub.stores()[q])@.size == sizes@[q] && hub.stores()[q]@.users.len()
                    == 0 && hub.stores()[q]@.sessions.len() == 0 && hub.inboxes()[q].is_empty(),
    {
        let mut stores: Vec<Store<U, S, P, C>> = Vec::new();
        let mut inboxes: Vec<Inbox<U, C, A>> = Vec::new();
        let mut q: usize = 0;
        while q < sizes.len()
            invariant
                q <= sizes.len(),
                stores.len() == q,
                inboxes.len() == q,
                forall|j: int|
                    0 <= j < q ==> (#[trigger] stores@[j]).wf() && stores@[j]@.size == sizes@[j]
                        && stores@[j]@.users.len() == 0 && stores@[j]@.sessions.len() == 0,
                forall|j: int| 0 <= j < q ==> (#[trigger] inboxes@[j])@.is_empty(),
            decreases sizes.len() - q,
        {
            stores.push(Store::new(sizes[q]));
            inboxes.push(Inbox::new());
            q = q + 1;
        }
        Hub { stores, inboxes }
    }

    /// How many queues the hub has.
    pub fn len(&self) -> (n: usize)
        ensures
            n == self.stores().len(),
    {
        self.stores.len()
    }

    /// The store of the queue with number `q`.
    pub fn store(&self, q: usize) -> (store: Option<&Store<U, S, P, C>>)
        ensures
            store == (if q < self.stores().len() {
                Some(&self.stores()[q as int])
            } else {
                None
            }),
    {
        if q < self.stores.len() {
            Some(&self.stores[q])
        } else {
            None
        }
    }

    /// Takes the message `routed`, which came over `connection` from a
    /// sender of whom `user_data` is known, into the inbox of its queue, and
    /// says whether it did. A message for a queue that the hub does not
    /// have is dropped, and so is a join of a sender of whom nothing is
    /// known.
    pub fn deliver<Q: Queue<Action = A>>(&mut self, routed: Routed<Q>, connection: C, user_data: Option<U>) -> (taken:
        bool)
        requires
            old(self).wf(),
        ensures
            final(self).wf(),
            final(self).stores() == old(self).stores(),
            taken == (routed.queue.slot() < old(self).stores().len() && signalled(
                routed,
                connection,
                user_data,
            ).is_some()),
            taken ==> final(self).inboxes() == old(self).inboxes().update(
                routed.queue.slot() as int,
                old(self).inboxes()[routed.queue.slot() as int].with(signalled(routed, connection, user_data).unwrap()),
            ),
            !taken ==> final(self).inboxes() == old(self).inboxes(),
    {
        let q = routed.queue.index();
        if q >= self.inboxes.len() {
            return false;
        }
        match signal_of(routed, connection, user_data) {
            Some(signal) => {
                self.inboxes[q].push(signal);
                assert(self.inboxes() =~= old(self).inboxes().update(
                    q as int,
                    old(self).inboxes()[q as int].with(signal),
                ));
                true
            },
            None => false,
        }
    }
}

impl<U, S, P, C, A> Hub<U, S, P, C, A> where
    U: UserData,
    S: SharedState<User = P> + AsStopwatch,
    P: UserState<Shared = S>,
    A: Action<Shared = S, User = P>,
 {
    /// Runs one tick of every queue, in the order of their numbers, with
    /// the signals that wait for it. No signal waits afterwards. The result
    /// holds, for each queue, what its tick has to tell.
    pub fn run_tick(&mut self, delta: Duration) -> (out: Vec<Outgoing<P::Info, S::Info>>)
        requires
            old(self).wf(),
        ensures
            final(self).wf(),
            final(self).stores().len() == old(self).stores().len(),
            out@.len() == old(self).stores().len(),
            forall|q: int|
                0 <= q < old(self).stores().len() ==> #[trigger] is_tick(
                    old(self).stores()[q]@,
                    old(self).inboxes()[q],
                    delta,
                    final(self).stores()[q]@,
                    out@[q],
                ),
            forall|q: int| 0 <= q < old(self).stores().len() ==> (#[trigger] final(self).inboxes()[q]).is_empty(),
    {
        let n: usize = self.stores.len();
        let mut out: Vec<Outgoing<P::Info, S::Info>> = Vec::new();
        let mut q: usize = 0;
        while q < n
            invariant
                q <= n,
                n == old(self).stores@.len(),
                n == old(self).inboxes@.len(),
                self.stores@.len() == n,
                self.inboxes@.len() == n,
                out@.len() == q,
                forall|j: int| 0 <= j < n ==> (#[trigger] self.stores@[j]).wf(),
                forall|j: int| q <= j < n ==> #[trigger] self.stores@[j] == old(self).stores@[j],
                forall|j: int| q <= j < n ==> #[trigger] self.inboxes@[j] == old(self).inboxes@[j],
                forall|j: int| 0 <= j < q ==> (#[trigger] self.inboxes@[j])@.is_empty(),
                forall|j: int|
                    0 <= j < q ==> #[trigger] is_tick(
                        old(self).stores@[j]@,
                        old(self).inboxes@[j]@,
                        delta,
                        self.stores@[j]@,
                        out@[j],
                    ),
            decreases n - q,
        {
            let ghost stores = self.stores@;
            let ghost so_far = out@;
            let mut inbox = Inbox::new();
            core::mem::swap(&mut self.inboxes[q], &mut inbox);
            let ghost waiting = inbox@;
            let Inbox { queue, reconnect, action } = inbox;
            assert(waiting == (InboxView { queue: queue@, reconnect: reconnect@, action: action@ }));
            let told = run_tick(&mut self.stores[q], queue, reconnect, action, delta);
            proof {
                let seeds = choose|seeds: Seq<[u8; 32]>|
                    stores[q as int]@.draws(waiting.queue, waiting.reconnect, seeds) && #[trigger] stores[q as int]@.ticks_to(
                        waiting.queue,
                        waiting.reconnect,
                        seeds,
                        waiting.action,
                        delta,
                        self.stores@[q as int]@,
                        lobbies_view(told.lobbies@),
                        told.started@,
                    );
                assert(stores[q as int]@.ticks_to(
                    waiting.queue,
                    waiting.reconnect,
                    seeds,
                    waiting.action,
                    delta,
                    self.stores@[q as int]@,
                    lobbies_view(told.lobbies@),
                    told.started@,
                ));
            }
            assert(waiting == old(self).inboxes@[q as int]@);
            assert(is_tick(stores[q as int]@, waiting, delta, self.stores@[q as int]@, told));
            out.push(told);
            assert forall|j: int| 0 <= j < q + 1 implies #[trigger] is_tick(
                old(self).stores@[j]@,
                old(self).inboxes@[j]@,
                delta,
                self.stores@[j]@,
                out@[j],
            ) by {
                if j < q {
                    assert(self.stores@[j] == stores[j]);
                    assert(out@[j] == so_far[j]);
                }
            }
            q = q + 1;
        }
        proof {
            assert forall|j: int| 0 <= j < n implies #[trigger] is_tick(
                old(self).stores()[j]@,
                old(self).inboxes()[j],
                delta,
                self.stores()[j]@,
                out@[j],
            ) by {
                assert(old(self).inboxes()[j] == old(self).inboxes@[j]@);
            }
            assert forall|j: int| 0 <= j < n implies (#[trigger] self.inboxes()[j]).is_empty() by {
                assert(self.inboxes()[j] == self.inboxes@[j]@);
            }
        }
        out
    }
}

} // verus!
