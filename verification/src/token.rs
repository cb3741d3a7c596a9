//! The tokens by which clients identify themselves.

use vstd::prelude::*;

verus! {

/// What a client presents to identify itself.
#[derive(Clone, Copy, Debug, PartialEq, Eq, Structural)]
pub enum ClientToken {
    Guest,
}

} // verus!
