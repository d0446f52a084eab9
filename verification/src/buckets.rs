//! Buckets: the units in which space is handed out.

use vstd::prelude::*;

verus! {

/// The number of blocks in a bucket.
pub const BLOCKS_PER_BUCKET: u64 = 256;

/// What a bucket is used for.
#[derive(Clone, Copy, Debug, PartialEq, Eq, Hash, Structural)]
pub enum BchDataType {
    Free,
    Sb,
    Journal,
    Btree,
    User,
    Cached,
    Parity,
    Stripe,
    NeedGcGens,
    NeedDiscard,
    Reserved,
}

/// A bucket.
#[derive(Clone, Copy, Debug, PartialEq, Eq, Structural)]
pub struct Bucket {
    pub state: BchDataType,
    /// The generation: how often the bucket changed hands.
    pub version: u32,
    pub journal_seq: u64,
    pub dirty_sectors: u32,
    pub cached_sectors: u32,
    pub stripe: u32,
    pub group: u32,
}

/// What the alloc tree has about a bucket.
#[derive(Clone, Copy, Debug, PartialEq, Eq, Structural)]
pub struct BchAllocEntry {
    pub journal_seq: u64,
    pub dirty_sectors: u32,
    pub cached_sectors: u32,
    pub stripe: u16,
    pub state: BchDataType,
    pub version: u32,
    pub io_time_read: u64,
    pub nr_external_backpointers: u32,
    pub group: u32,
}

impl Bucket {
    pub open spec fn spec_free() -> Bucket {
        Bucket {
            state: BchDataType::Free,
            version: 0,
            journal_seq: 0,
            dirty_sectors: 0,
            cached_sectors: 0,
            stripe: 0,
            group: 0,
        }
    }

    /// A bucket that was never used.
    pub fn free() -> (r: Bucket)
        ensures
            r == Bucket::spec_free(),
    {
        Bucket {
            state: BchDataType::Free,
            version: 0,
            journal_seq: 0,
            dirty_sectors: 0,
            cached_sectors: 0,
            stripe: 0,
            group: 0,
        }
    }

    /// Whether the bucket is in use: neither free nor waiting for a discard.
    pub open spec fn spec_in_use(self) -> bool {
        self.state != BchDataType::Free && self.state != BchDataType::NeedDiscard
    }

    pub fn in_use(&self) -> (r: bool)
        ensures
            r == self.spec_in_use(),
    {
        self.state != BchDataType::Free && self.state != BchDataType::NeedDiscard
    }

    /// What the alloc tree should have about this bucket.
    pub open spec fn spec_entry(self) -> BchAllocEntry {
        BchAllocEntry {
            journal_seq: self.journal_seq,
            dirty_sectors: self.dirty_sectors,
            cached_sectors: self.cached_sectors,
            stripe: (self.stripe % 0x1_0000) as u16,
            state: self.state,
            version: self.version,
            io_time_read: 0,
            nr_external_backpointers: 0,
            group: self.group,
        }
    }

    pub fn entry(&self) -> (r: BchAllocEntry)
        ensures
            r == self.spec_entry(),
    {
        BchAllocEntry {
            journal_seq: self.journal_seq,
            dirty_sectors: self.dirty_sectors,
            cached_sectors: self.cached_sectors,
            stripe: (self.stripe % 0x1_0000) as u16,
            state: self.state,
            version: self.version,
            io_time_read: 0,
            nr_external_backpointers: 0,
            group: self.group,
        }
    }
}

/// The buckets of a device.
pub struct BchAllocator {
    pub buckets: Vec<Bucket>,
}

impl BchAllocator {
    /// Free buckets for as many whole buckets as `blocks` make up.
    pub fn new(blocks: u64) -> (r: BchAllocator)
        requires
            blocks / BLOCKS_PER_BUCKET <= usize::MAX,
        ensures
            r.buckets@.len() == blocks / BLOCKS_PER_BUCKET,
            forall|i: int| 0 <= i < r.buckets@.len() ==> #[trigger] r.buckets@[i] == Bucket::spec_free(),
    {
        let n: usize = (blocks / BLOCKS_PER_BUCKET) as usize;
        let mut buckets: Vec<Bucket> = Vec::new();
        let mut i: usize = 0;
        while i < n
            invariant
                i <= n,
                buckets@.len() == i,
                forall|j: int| 0 <= j < i ==> #[trigger] buckets@[j] == Bucket::spec_free(),
            decreases n - i,
        {
            buckets.push(Bucket::free());
            i = i + 1;
        }
        BchAllocator { buckets }
    }

    /// Sets what a bucket is used for.
    pub fn set_state(&mut self, bucket: u64, state: BchDataType)
        requires
            bucket < old(self).buckets@.len(),
        ensures
            final(self).buckets@ == old(self).buckets@.update(
                bucket as int,
                Bucket { state, ..old(self).buckets@[bucket as int] },
            ),
    {
        let _n: usize = self.buckets.len();
        let mut b = self.buckets[bucket as usize];
        b.state = state;
        self.buckets.set(bucket as usize, b);
    }
}

} // verus!
