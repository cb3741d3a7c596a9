//! The messages that clients send.

use vstd::prelude::*;
use crate::account::{auth, Account, PeerAddr};
use crate::token::ClientToken;

verus! {

/// A queue that clients can name: it fixes what an action is.
pub trait AsQueue {
    type Action;
}

/// What a message asks for.
pub enum MsgType<Q: AsQueue> {
    Join,
    Reconnect,
    Accept,
    Leave,
    Action(Q::Action),
}

/// A message of a client: who sends it, to which queue, and what it asks
/// for.
pub struct Msg<Q: AsQueue> {
    pub token: ClientToken,
    pub queue: Q,
    pub msg_type: MsgType<Q>,
}

impl<Q: AsQueue> Msg<Q> {
    /// A request to join `queue`.
    pub fn join(token: ClientToken, queue: Q) -> (msg: Self)
        ensures
            msg.token == token,
            msg.queue == queue,
            msg.msg_type is Join,
    {
        Msg { token, queue, msg_type: MsgType::Join }
    }

    /// A consent to the lobby that `queue` placed the sender in.
    pub fn accept(token: ClientToken, queue: Q) -> (msg: Self)
        ensures
            msg.token == token,
            msg.queue == queue,
            msg.msg_type is Accept,
    {
        Msg { token, queue, msg_type: MsgType::Accept }
    }

    /// A request to leave `queue`.
    pub fn leave(token: ClientToken, queue: Q) -> (msg: Self)
        ensures
            msg.token == token,
            msg.queue == queue,
            msg.msg_type is Leave,
    {
        Msg { token, queue, msg_type: MsgType::Leave }
    }
}

/// The channel that a signal travels on to the tick. Each queue has its own
/// three.
#[derive(Clone, Copy, Debug, PartialEq, Eq, Structural)]
pub enum Channel {
    /// Joins, consents and leaves.
    Queue,
    Reconnect,
    Action,
}

/// A message on its way to the tick: the queue it is for, the account that
/// its sender resolved to, and what it asks for.
pub struct Routed<Q: AsQueue> {
    pub queue: Q,
    pub account: Account,
    pub msg_type: MsgType<Q>,
}

impl<Q: AsQueue> Routed<Q> {
    /// What `channel` yields.
    pub open spec fn channel_spec(&self) -> Channel {
        match self.msg_type {
            MsgType::Join => Channel::Queue,
            MsgType::Accept => Channel::Queue,
            MsgType::Leave => Channel::Queue,
            MsgType::Reconnect => Channel::Reconnect,
            MsgType::Action(_) => Channel::Action,
        }
    }

    /// The channel that the message travels on.
    pub fn channel(&self) -> (channel: Channel)
        ensures
            channel == self.channel_spec(),
    {
        match &self.msg_type {
            MsgType::Join => Channel::Queue,
            MsgType::Accept => Channel::Queue,
            MsgType::Leave => Channel::Queue,
            MsgType::Reconnect => Channel::Reconnect,
            MsgType::Action(_) => Channel::Action,
        }
    }
}

/// Resolves the sender of `msg`, which came from `ip`, and hands the message
/// on for its queue. Neither the queue nor the request is touched.
pub fn route<Q: AsQueue>(msg: Msg<Q>, ip: PeerAddr) -> (routed: Routed<Q>)
    ensures
        routed.queue == msg.queue,
        routed.msg_type == msg.msg_type,
        routed.account == (Account::Guest { ip }),
{
    let Msg { token, queue, msg_type } = msg;
    Routed { queue, account: auth(token, ip), msg_type }
}

} // verus!
