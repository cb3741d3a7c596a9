//! What the matchmaker needs to know of a user.

use vstd::prelude::*;

verus! {

/// Data associated with a user account. The game supplies the type; the
/// matchmaker reads from it the user's priority and whom the user accepts
/// as a lobby mate. What the two methods return is given a name here, so
/// that the matchmaker's results can be stated; that a method returns the
/// same for the same user is the implementor's word.
pub trait UserData: Sized {
    /// The priority of the user: lower goes first.
    spec fn priority(&self) -> u64;

    /// Whether this user accepts `other` in a lobby that it anchors. The
    /// relation need not be symmetric.
    spec fn accepts(&self, other: &Self) -> bool;

    fn matchmake_priority(&self) -> (p: u64)
        ensures
            p == self.priority(),
    ;

    fn matchmake_valid(&self, other: &Self) -> (ok: bool)
        ensures
            ok == self.accepts(other),
    ;
}

} // verus!
