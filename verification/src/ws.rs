//! The server's side of one connection: what to make of each frame, and
//! when to let the connection go.

use vstd::prelude::*;
use crate::msg::{AsQueue, Msg};
use crate::token::ClientToken;

verus! {

/// How long the server waits between two pings, in milliseconds.
pub const HEARTBEAT_INTERVAL: u64 = 3000;

/// How many frames may wait to be written to one client.
pub const OUTBOUND_CAPACITY: usize = 100;

/// The kind of a frame.
#[derive(Clone, Copy, Debug, PartialEq, Eq, Structural)]
pub enum OpCode {
    Continuation,
    Text,
    Binary,
    Close,
    Ping,
    Pong,
}

/// What the reader does with a frame.
pub enum Reading<Q: AsQueue> {
    /// The client has closed: stop reading. The client's participant stays
    /// where it is; it goes when it leaves or is removed.
    Stop,
    /// Hand the message on to the tick.
    Forward(Msg<Q>),
    /// The frame could not be read: drop it and read on.
    Dropped,
    /// The round trip of the last ping took so many milliseconds.
    Latency(u128),
    /// Nothing to do.
    Ignored,
}

/// What the heartbeat does next.
#[derive(Clone, Copy, Debug, PartialEq, Eq, Structural)]
pub enum Beat {
    /// Ping again after so many milliseconds.
    Sleep { millis: u64 },
    /// The connection is dead: let it go.
    Stop,
}

/// One connection as the server sees it.
pub struct Bridge {
    token: Option<ClientToken>,
    pinged: Option<u128>,
    latency: Option<u128>,
    open: bool,
}

/// One connection as a value: the token that its last readable message
/// carried, when the last ping went out, the round trip measured last, and
/// whether its tasks still run. Times are in milliseconds.
pub struct BridgeView {
    pub token: Option<ClientToken>,
    pub pinged: Option<u128>,
    pub latency: Option<u128>,
    pub open: bool,
}

impl View for Bridge {
    type V = BridgeView;

    closed spec fn view(&self) -> BridgeView {
        BridgeView { token: self.token, pinged: self.pinged, latency: self.latency, open: self.open }
    }
}

impl BridgeView {
    /// The round trip that a pong at `now` measures: the time since the last
    /// ping went out, or nothing if none did.
    pub open spec fn round_trip(self, now: u128) -> Option<u128> {
        match self.pinged {
            Some(sent) => Some(if now >= sent { (now - sent) as u128 } else { 0 }),
            None => None,
        }
    }

    /// The connection after a frame of kind `opcode` has come in at `now`;
    /// `token` is the token of the message that a binary frame held, if it
    /// could be read.
    pub open spec fn after_frame(self, opcode: OpCode, token: Option<ClientToken>, now: u128) -> Self {
        match opcode {
            OpCode::Binary => match token {
                Some(t) => BridgeView { token: Some(t), ..self },
                None => self,
            },
            OpCode::Pong => match self.round_trip(now) {
                Some(elapsed) => BridgeView { latency: Some(elapsed), ..self },
                None => self,
            },
            _ => self,
        }
    }
}

impl Bridge {
    /// A connection that has just been accepted.
    pub fn new() -> (bridge: Bridge)
        ensures
            bridge@ == (BridgeView { token: None, pinged: None, latency: None, open: true }),
    {
        Bridge { token: None, pinged: None, latency: None, open: true }
    }

    /// The token that the last readable message carried.
    pub fn token(&self) -> (token: Option<ClientToken>)
        ensures
            token == self@.token,
    {
        self.token
    }

    /// The round trip measured last.
    pub fn latency(&self) -> (latency: Option<u128>)
        ensures
            latency == self@.latency,
    {
        self.latency
    }

    /// Whether the tasks of the connection still run.
    pub fn is_open(&self) -> (open: bool)
        ensures
            open == self@.open,
    {
        self.open
    }

    /// Takes a frame of kind `opcode` that came in at `now`. For a binary frame
    /// `message` is what it held, `None` if it could not be read. A frame that
    /// cannot be read is dropped and leaves the connection as it is; so does
    /// any frame but a readable message and a pong.
    pub fn read<Q: AsQueue>(&mut self, opcode: OpCode, message: Option<Msg<Q>>, now: u128) -> (reading: Reading<Q>)
        ensures
            final(self)@ == old(self)@.after_frame(
                opcode,
                match message {
                    Some(m) => Some(m.token),
                    None => None,
                },
                now,
            ),
            final(self)@.open == old(self)@.open,
            match opcode {
                OpCode::Close => reading is Stop,
                OpCode::Binary => match message {
                    Some(m) => reading == Reading::Forward(m),
                    None => reading is Dropped,
                },
                OpCode::Pong => match old(self)@.round_trip(now) {
                    Some(elapsed) => reading == Reading::<Q>::Latency(elapsed),
                    None => reading is Ignored,
                },
                _ => reading is Ignored,
            },
    {
        match opcode {
            OpCode::Close => Reading::Stop,
            OpCode::Binary => match message {
                Some(m) => {
                    self.token = Some(m.token);
                    Reading::Forward(m)
                },
                None => Reading::Dropped,
            },
            OpCode::Pong => match self.pinged {
                Some(sent) => {
                    let elapsed: u128 = if now >= sent {
                        now - sent
                    } else {
                        0
                    };
                    self.latency = Some(elapsed);
                    Reading::Latency(elapsed)
                },
                None => Reading::Ignored,
            },
            _ => Reading::Ignored,
        }
    }

    /// A ping goes out at `now`.
    pub fn ping(&mut self, now: u128)
        ensures
            final(self)@ == (BridgeView { pinged: Some(now), ..old(self)@ }),
    {
        self.pinged = Some(now);
    }

    /// What the heartbeat does after it has tried to queue a ping: it sleeps
    /// if the ping was queued, and lets the connection go if it was not.
    pub fn after_ping(&mut self, queued: bool) -> (beat: Beat)
        ensures
            final(self)@ == (BridgeView { open: old(self)@.open && queued, ..old(self)@ }),
            beat == (if queued {
                Beat::Sleep { millis: HEARTBEAT_INTERVAL }
            } else {
                Beat::Stop
            }),
    {
        if queued {
            Beat::Sleep { millis: HEARTBEAT_INTERVAL }
        } else {
            self.open = false;
            Beat::Stop
        }
    }

    /// One of the tasks of the connection has ended: the others end with it.
    pub fn task_ended(&mut self)
        ensures
            final(self)@ == (BridgeView { open: false, ..old(self)@ }),
    {
        self.open = false;
    }
}

} // verus!
