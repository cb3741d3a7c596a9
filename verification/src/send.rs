//! The signals that connections send to the tick.

use vstd::prelude::*;
use crate::account::Account;
use crate::msg::{AsQueue, Channel, MsgType, Routed};

verus! {

/// What a client asks of the queue: to join it, with its data and over its
/// connection; to consent to the lobby it was placed in; or to leave.
pub enum QueueSignal<U, C> {
    Join { connection: C, user_data: U, account: Account },
    Accept { account: Account },
    Leave { account: Account },
}

/// A client that has connected anew.
pub struct ReconnectSignal<C> {
    pub connection: C,
    pub account: Account,
}

/// What a client does in its session.
pub struct ActionSignal<A> {
    pub action: A,
    pub account: Account,
}

/// A signal on its way to the tick.
pub enum Signal<U, C, A> {
    Queue(QueueSignal<U, C>),
    Reconnect(ReconnectSignal<C>),
    Action(ActionSignal<A>),
}

impl<U, C, A> Signal<U, C, A> {
    /// The channel that the signal travels on.
    pub open spec fn channel(self) -> Channel {
        match self {
            Signal::Queue(_) => Channel::Queue,
            Signal::Reconnect(_) => Channel::Reconnect,
            Signal::Action(_) => Channel::Action,
        }
    }
}

/// What `signal_of` yields.
pub open spec fn signalled<Q: AsQueue, U, C>(routed: Routed<Q>, connection: C, user_data: Option<U>) -> Option<
    Signal<U, C, Q::Action>,
> {
    match routed.msg_type {
        MsgType::Join => match user_data {
            Some(data) => Some(
                Signal::Queue(QueueSignal::Join { connection, user_data: data, account: routed.account }),
            ),
            None => None,
        },
        MsgType::Accept => Some(Signal::Queue(QueueSignal::Accept { account: routed.account })),
        MsgType::Leave => Some(Signal::Queue(QueueSignal::Leave { account: routed.account })),
        MsgType::Reconnect => Some(Signal::Reconnect(ReconnectSignal { connection, account: routed.account })),
        MsgType::Action(action) => Some(Signal::Action(ActionSignal { action, account: routed.account })),
    }
}

/// The signal that the message `routed` becomes, when it came over
/// `connection` and `user_data` is what is known of its sender. A join
/// carries the data and the connection, a reconnect the connection; a join
/// of a sender of whom nothing is known is dropped.
pub fn signal_of<Q: AsQueue, U, C>(routed: Routed<Q>, connection: C, user_data: Option<U>) -> (signal: Option<
    Signal<U, C, Q::Action>,
>)
    ensures
        signal == signalled(routed, connection, user_data),
        signal matches Some(s) ==> s.channel() == routed.channel_spec(),
{
    let Routed { queue: _, account, msg_type } = routed;
    match msg_type {
        MsgType::Join => match user_data {
            Some(data) => Some(Signal::Queue(QueueSignal::Join { connection, user_data: data, account })),
            None => None,
        },
        MsgType::Accept => Some(Signal::Queue(QueueSignal::Accept { account })),
        MsgType::Leave => Some(Signal::Queue(QueueSignal::Leave { account })),
        MsgType::Reconnect => Some(Signal::Reconnect(ReconnectSignal { connection, account })),
        MsgType::Action(action) => Some(Signal::Action(ActionSignal { action, account })),
    }
}

/// The signals that wait for the next tick of one queue, each kind in the
/// order in which it came.
pub struct Inbox<U, C, A> {
    pub queue: Vec<QueueSignal<U, C>>,
    pub reconnect: Vec<ReconnectSignal<C>>,
    pub action: Vec<ActionSignal<A>>,
}

/// An inbox as a value.
pub struct InboxView<U, C, A> {
    pub queue: Seq<QueueSignal<U, C>>,
    pub reconnect: Seq<ReconnectSignal<C>>,
    pub action: Seq<ActionSignal<A>>,
}

impl<U, C, A> View for Inbox<U, C, A> {
    type V = InboxView<U, C, A>;

    open spec fn view(&self) -> InboxView<U, C, A> {
        InboxView { queue: self.queue@, reconnect: self.reconnect@, action: self.action@ }
    }
}

impl<U, C, A> InboxView<U, C, A> {
    /// Whether nothing waits.
    pub open spec fn is_empty(self) -> bool {
        self.queue.len() == 0 && self.reconnect.len() == 0 && self.action.len() == 0
    }

    /// The inbox with `signal` behind the signals of its kind.
    pub open spec fn with(self, signal: Signal<U, C, A>) -> Self {
        match signal {
            Signal::Queue(s) => InboxView { queue: self.queue.push(s), ..self },
            Signal::Reconnect(s) => InboxView { reconnect: self.reconnect.push(s), ..self },
            Signal::Action(s) => InboxView { action: self.action.push(s), ..self },
        }
    }
}

impl<U, C, A> Inbox<U, C, A> {
    /// An inbox in which nothing waits.
    pub fn new() -> (inbox: Self)
        ensures
            inbox@.is_empty(),
    {
        Inbox { queue: Vec::new(), reconnect: Vec::new(), action: Vec::new() }
    }

    /// Puts `signal` behind the signals of its kind.
    pub fn push(&mut self, signal: Signal<U, C, A>)
        ensures
            final(self)@ == old(self)@.with(signal),
    {
        match signal {
            Signal::Queue(s) => {
                self.queue.push(s);
            },
            Signal::Reconnect(s) => {
                self.reconnect.push(s);
            },
            Signal::Action(s) => {
                self.action.push(s);
            },
        }
    }
}

} // verus!
