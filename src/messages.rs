//! Request templates that a lookup sends to every node it queries.

use vstd::prelude::*;

use crate::common::Id;

verus! {

/// The query a lookup sends: opaque to the lookup, copied into every request.
#[derive(Clone, Copy, Debug, PartialEq, Eq)]
pub enum Request {
    /// Ask for the nodes nearest to `target`.
    FindNode { target: Id },
    /// Ask for peers of a torrent, or the nodes nearest to its info hash.
    GetPeers { info_hash: Id },
}

} // verus!
