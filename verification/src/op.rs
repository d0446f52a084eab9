//! The operations of a journal.

use vstd::prelude::*;

verus! {

/// What is done to a key.
#[derive(Clone, Copy, Debug, PartialEq, Eq, Structural)]
pub enum BtreeOp {
    Insert,
    Delete,
    Whiteout,
}

} // verus!
