//! The client's side of the connection: whether the socket is open, what the
//! server said last, and when to dial again.

use vstd::prelude::*;
use crate::info::StateInfo;
use crate::url::{normalize_url, normalized, Location};

verus! {

/// How long the client waits before it dials again, in milliseconds.
pub const RECONNECT_INTERVAL: u64 = 3000;

/// How often the client dials again of its own accord.
pub const RECONNECT_LIMIT: u64 = 3;

/// The state of the socket.
#[derive(Debug, PartialEq, Eq, Clone, Hash, Copy, Structural)]
pub enum Ready {
    Connecting,
    Open,
    Closed,
}

/// What the transport has to do after an event.
#[derive(Debug, PartialEq, Eq, Clone, Copy, Structural)]
pub enum Task {
    Nothing,
    /// Drop the socket, if there is one, and dial.
    Connect,
    /// Close the socket.
    Close,
    /// Call `on_timer` after so many milliseconds.
    Wait { millis: u64 },
    /// Send the message at hand over the socket.
    Send,
}

/// The client's connection.
pub struct Handle<I> {
    url: String,
    ready: Ready,
    reconnect: u64,
    waiting: bool,
    info: StateInfo<I>,
}

/// The client's connection as a value: the address it dials, the state of
/// the socket, how often it has dialled again since it was last opened,
/// whether it waits to dial again, and what the server said last.
pub struct HandleView<I> {
    pub url: Seq<char>,
    pub ready: Ready,
    pub reconnect: u64,
    pub waiting: bool,
    pub info: StateInfo<I>,
}

impl<I> View for Handle<I> {
    type V = HandleView<I>;

    closed spec fn view(&self) -> HandleView<I> {
        HandleView {
            url: self.url@,
            ready: self.ready,
            reconnect: self.reconnect,
            waiting: self.waiting,
            info: self.info,
        }
    }
}

impl<I> HandleView<I> {
    /// The invariant of a connection: it has not dialled again more often
    /// than it may, and it waits to dial again only while it still may.
    pub open spec fn wf(self) -> bool {
        self.reconnect <= RECONNECT_LIMIT && (self.waiting ==> self.reconnect < RECONNECT_LIMIT)
    }

    /// After the application has asked to open: a closed connection dials,
    /// and counts its own attempts anew.
    pub open spec fn opened(self) -> Self {
        if self.ready == Ready::Closed {
            HandleView { ready: Ready::Connecting, reconnect: 0, waiting: false, ..self }
        } else {
            self
        }
    }

    /// After the application has asked to close: the connection will not
    /// dial again of its own accord.
    pub open spec fn closed(self) -> Self {
        HandleView { reconnect: RECONNECT_LIMIT, waiting: false, ..self }
    }

    /// After the socket has opened.
    pub open spec fn on_open(self) -> Self {
        HandleView { ready: Ready::Open, ..self }
    }

    /// After the socket has closed or failed: the application is told so,
    /// and the connection waits to dial again if it still may.
    pub open spec fn on_close(self) -> Self {
        HandleView { ready: Ready::Closed, waiting: self.reconnect < RECONNECT_LIMIT, info: StateInfo::Closed, ..self }
    }

    /// After the wait is over: the connection dials again, if it waited.
    pub open spec fn on_timer(self) -> Self {
        if self.waiting {
            HandleView { ready: Ready::Connecting, reconnect: (self.reconnect + 1) as u64, waiting: false, ..self }
        } else {
            self
        }
    }
}

/// The connection of a client on a page at `location` to the socket that
/// `url` means. The transport dials at once.
pub fn ws_handle<I>(url: &str, location: &Location) -> (handle: Handle<I>)
    ensures
        handle@ == (HandleView::<I> {
            url: normalized(url@, location.protocol@, location.host@, location.pathname@),
            ready: Ready::Connecting,
            reconnect: 0,
            waiting: false,
            info: StateInfo::Closed,
        }),
        handle@.wf(),
{
    Handle { url: normalize_url(url, location), ready: Ready::Connecting, reconnect: 0, waiting: false, info: StateInfo::Closed }
}

impl<I> Handle<I> {
    /// The address that the connection dials.
    pub fn url(&self) -> (url: &String)
        ensures
            url@ == self@.url,
    {
        &self.url
    }

    /// The state of the socket.
    pub fn ready(&self) -> (ready: Ready)
        ensures
            ready == self@.ready,
    {
        self.ready
    }

    /// What the server said last.
    pub fn info(&self) -> (info: &StateInfo<I>)
        ensures
            *info == self@.info,
    {
        &self.info
    }

    /// How often the connection has dialled again since it was last opened.
    pub fn attempts(&self) -> (attempts: u64)
        ensures
            attempts == self@.reconnect,
    {
        self.reconnect
    }

    /// Opens a closed connection.
    pub fn open(&mut self) -> (task: Task)
        requires
            old(self)@.wf(),
        ensures
            final(self)@ == old(self)@.opened(),
            final(self)@.wf(),
            task == (if old(self)@.ready == Ready::Closed {
                Task::Connect
            } else {
                Task::Nothing
            }),
    {
        match self.ready {
            Ready::Closed => {
                self.reconnect = 0;
                self.waiting = false;
                self.ready = Ready::Connecting;
                Task::Connect
            },
            _ => Task::Nothing,
        }
    }

    /// Closes the connection for good: it does not dial again until it is
    /// opened.
    pub fn close(&mut self) -> (task: Task)
        requires
            old(self)@.wf(),
        ensures
            final(self)@ == old(self)@.closed(),
            final(self)@.wf(),
            task == Task::Close,
    {
        self.reconnect = RECONNECT_LIMIT;
        self.waiting = false;
        Task::Close
    }

    /// Asks to send a message. An open connection sends it. A closed one
    /// dials instead, as if opened, and the message is lost; one that is
    /// dialling loses it too.
    pub fn send(&mut self) -> (task: Task)
        requires
            old(self)@.wf(),
        ensures
            final(self)@ == old(self)@.opened(),
            final(self)@.wf(),
            task == (match old(self)@.ready {
                Ready::Closed => Task::Connect,
                Ready::Open => Task::Send,
                Ready::Connecting => Task::Nothing,
            }),
    {
        match self.ready {
            Ready::Open => Task::Send,
            _ => self.open(),
        }
    }

    /// The socket has opened.
    pub fn on_open(&mut self)
        requires
            old(self)@.wf(),
        ensures
            final(self)@ == old(self)@.on_open(),
            final(self)@.wf(),
    {
        self.ready = Ready::Open;
    }

    /// The server has sent `info`; `None` stands for a frame that could not
    /// be read, which changes nothing.
    pub fn on_message(&mut self, info: Option<StateInfo<I>>)
        requires
            old(self)@.wf(),
        ensures
            final(self)@ == (match info {
                Some(i) => HandleView { info: i, ..old(self)@ },
                None => old(self)@,
            }),
            final(self)@.wf(),
    {
        match info {
            Some(i) => {
                self.info = i;
            },
            None => {},
        }
    }

    /// The socket has closed or failed.
    pub fn on_close(&mut self) -> (task: Task)
        requires
            old(self)@.wf(),
        ensures
            final(self)@ == old(self)@.on_close(),
            final(self)@.wf(),
            task == (if old(self)@.reconnect < RECONNECT_LIMIT {
                Task::Wait { millis: RECONNECT_INTERVAL }
            } else {
                Task::Nothing
            }),
    {
        self.info = StateInfo::Closed;
        self.ready = Ready::Closed;
        if self.reconnect < RECONNECT_LIMIT {
            self.waiting = true;
            Task::Wait { millis: RECONNECT_INTERVAL }
        } else {
            self.waiting = false;
            Task::Nothing
        }
    }

    /// The wait is over.
    pub fn on_timer(&mut self) -> (task: Task)
        requires
            old(self)@.wf(),
        ensures
            final(self)@ == old(self)@.on_timer(),
            final(self)@.wf(),
            task == (if old(self)@.waiting {
                Task::Connect
            } else {
                Task::Nothing
            }),
    {
        if self.waiting {
            self.waiting = false;
            self.reconnect = self.reconnect + 1;
            self.ready = Ready::Connecting;
            Task::Connect
        } else {
            Task::Nothing
        }
    }
}

/// A connection that the application has closed does not dial again when
/// its socket closes.
pub proof fn close_suppresses_reconnection<I>(handle: HandleView<I>)
    requires
        handle.wf(),
    ensures
        !handle.closed().on_close().waiting,
        handle.closed().on_close().on_timer() == handle.closed().on_close(),
        handle.closed().on_close().ready == Ready::Closed,
{
}

/// Each time the socket closes and the wait passes, the connection has
/// dialled once more; it never dials more often than it may.
pub proof fn reconnects_are_bounded<I>(handle: HandleView<I>)
    requires
        handle.wf(),
    ensures
        handle.on_close().on_timer().wf(),
        handle.reconnect < RECONNECT_LIMIT ==> handle.on_close().on_timer().reconnect == handle.reconnect + 1,
        handle.reconnect == RECONNECT_LIMIT ==> handle.on_close().on_timer() == handle.on_close(),
{
}

} // verus!
