//! Transactions: what makes one start over.

use crate::error::{Fault, StorageError};
use vstd::prelude::*;

verus! {

/// How often a transaction may start over.
pub const TRANS_RESTART_LIMIT: u32 = 100;

/// Why a transaction has to start over.
#[derive(Clone, Copy, Debug, PartialEq, Eq, Structural)]
pub enum RestartReason {
    /// A key was not in the key cache.
    KeyCacheMiss,
    /// A node on a path was split.
    NodeSplit,
}

/// A transaction.
pub struct BtreeTrans {
    pub active: bool,
    /// Why the transaction has to start over, if it has to.
    pub restart: Option<RestartReason>,
    pub restart_count: u32,
}

impl BtreeTrans {
    pub fn new() -> (r: BtreeTrans)
        ensures
            r == (BtreeTrans { active: false, restart: None, restart_count: 0 }),
    {
        BtreeTrans { active: false, restart: None, restart_count: 0 }
    }

    /// Starts, or starts over.
    pub fn begin(&mut self)
        ensures
            *final(self) == (BtreeTrans { active: true, restart: None, ..*old(self) }),
    {
        self.active = true;
        self.restart = None;
    }

    /// The transaction after it was told to start over; the count stays at its
    /// maximum.
    pub open spec fn told(self, why: RestartReason) -> BtreeTrans {
        BtreeTrans {
            restart: Some(why),
            restart_count: if self.restart_count < u32::MAX {
                (self.restart_count + 1) as u32
            } else {
                u32::MAX
            },
            ..self
        }
    }

    pub fn trigger_key_cache_miss(&mut self)
        ensures
            *final(self) == old(self).told(RestartReason::KeyCacheMiss),
    {
        self.restart = Some(RestartReason::KeyCacheMiss);
        self.restart_count = self.restart_count.saturating_add(1);
    }

    pub fn trigger_node_split(&mut self)
        ensures
            *final(self) == old(self).told(RestartReason::NodeSplit),
    {
        self.restart = Some(RestartReason::NodeSplit);
        self.restart_count = self.restart_count.saturating_add(1);
    }

    /// Ends the transaction; an error where it was told to start over too often.
    pub fn commit(&mut self) -> (r: Result<(), StorageError>)
        ensures
            final(self).restart_count == old(self).restart_count,
            final(self).restart == old(self).restart,
            !final(self).active,
            r == (if old(self).restart_count > TRANS_RESTART_LIMIT {
                Err::<(), StorageError>(StorageError::Transaction(Fault::RestartLimit))
            } else {
                Ok::<(), StorageError>(())
            }),
    {
        self.active = false;
        if self.restart_count > TRANS_RESTART_LIMIT {
            Err(StorageError::Transaction(Fault::RestartLimit))
        } else {
            Ok(())
        }
    }
}

} // verus!
