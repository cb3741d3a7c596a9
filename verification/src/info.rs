//! What a client is told of where it stands.

use vstd::prelude::*;

verus! {

/// The state of a client as the server reports it: not connected, waiting in
/// a queue, placed in a lobby that awaits its members' consent, or playing,
/// with the snapshot `I` of the session as this client may see it.
#[derive(Clone, Debug)]
pub enum StateInfo<I> {
    Closed,
    Queue,
    Lobby,
    Session(I),
}

/// The snapshot of a session for one viewer: each member's state and the
/// shared state, as far as the viewer may see them, and the viewer's own
/// index.
#[derive(Clone, Debug)]
pub struct Info<U, S> {
    /// One entry for each member that has a state, keyed by the member's
    /// index, in the order in which the session keeps the states.
    pub users: Vec<(u64, U)>,
    pub shared: S,
    pub index: u64,
}

/// A snapshot as a value.
pub struct InfoView<U, S> {
    pub users: Seq<(u64, U)>,
    pub shared: S,
    pub index: u64,
}

impl<U, S> View for Info<U, S> {
    type V = InfoView<U, S>;

    open spec fn view(&self) -> InfoView<U, S> {
        InfoView { users: self.users@, shared: self.shared, index: self.index }
    }
}

} // verus!
