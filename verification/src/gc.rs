//! Garbage collection: which buckets are referenced, whether the trees hold
//! together, and whether what is known of buckets agrees.

use crate::buckets::{BchAllocEntry, BchAllocator, BchDataType, Bucket, BLOCKS_PER_BUCKET};
use crate::btree::{leaf_reads, Btree};
use crate::engine::BtreeEngine;
use crate::error::StorageError;
use crate::ids::BtreeId;
use crate::key::{BtreeEntry, BtreeKey, EntryView, KeyValue, ADDR48_LIMIT};
use crate::laws_map::{held, reachable};
use crate::laws_walk::lemma_walk_visits;
use crate::le::{get_le, le_at, le_bytes, lemma_pow256_values};
use crate::run::{lemma_undeleted, undeleted};
use crate::text::{dec, push_dec, push_text};
use crate::topology::bch2_check_topology;
use std::collections::HashSet;
use vstd::prelude::*;

verus! {

// ── positions ───────────────────────────────────────────────────────────

/// How far a collection has come.
#[derive(Clone, Copy, Debug, PartialEq, Eq, PartialOrd, Ord, Structural)]
pub enum GcPhase {
    NotRunning,
    Start,
    Sb,
    Btree,
}

impl GcPhase {
    pub open spec fn spec_rank(self) -> int {
        match self {
            GcPhase::NotRunning => 0,
            GcPhase::Start => 1,
            GcPhase::Sb => 2,
            GcPhase::Btree => 3,
        }
    }

    fn rank(self) -> (r: u8)
        ensures
            r == self.spec_rank(),
    {
        match self {
            GcPhase::NotRunning => 0,
            GcPhase::Start => 1,
            GcPhase::Sb => 2,
            GcPhase::Btree => 3,
        }
    }
}

impl Default for GcPhase {
    fn default() -> (r: GcPhase)
        ensures
            r == GcPhase::NotRunning,
    {
        GcPhase::NotRunning
    }
}

/// A place in a collection.
#[derive(Clone, Copy, Debug, PartialEq, Eq, Structural)]
pub struct GcPos {
    pub phase: GcPhase,
    pub btree: u32,
    pub level: u16,
    pub pos: u64,
    /// The journal entry as of which the pass was done.
    pub journal_seq: u64,
}

impl Default for GcPos {
    fn default() -> (r: GcPos)
        ensures
            r == spec_gc_phase(GcPhase::NotRunning),
    {
        gc_phase(GcPhase::NotRunning)
    }
}

/// The state of garbage collection.
#[derive(Debug)]
pub struct BtreeGc {
    pub running: bool,
    pub pos: GcPos,
    pub triggered: bool,
}

impl Default for BtreeGc {
    fn default() -> (r: BtreeGc)
        ensures
            !r.running,
            !r.triggered,
            r.pos == spec_gc_phase(GcPhase::NotRunning),
    {
        BtreeGc::new()
    }
}

impl BtreeGc {
    pub fn new() -> (r: BtreeGc)
        ensures
            !r.running,
            !r.triggered,
            r.pos == spec_gc_phase(GcPhase::NotRunning),
    {
        BtreeGc { running: false, pos: gc_phase(GcPhase::NotRunning), triggered: false }
    }
}

pub open spec fn spec_gc_phase(phase: GcPhase) -> GcPos {
    GcPos { phase, btree: 0, level: 0, pos: 0, journal_seq: 0 }
}

/// The start of a phase.
pub fn gc_phase(phase: GcPhase) -> (r: GcPos)
    ensures
        r == spec_gc_phase(phase),
{
    GcPos { phase, btree: 0, level: 0, pos: 0, journal_seq: 0 }
}

/// A place in a tree.
pub fn gc_pos_btree(btree: u32, level: u16, pos: u64) -> (r: GcPos)
    ensures
        r == (GcPos { phase: GcPhase::Btree, btree, level, pos, journal_seq: 0 }),
{
    GcPos { phase: GcPhase::Btree, btree, level, pos, journal_seq: 0 }
}

impl GcPos {
    /// Whether this place comes before `other`: by phase, then tree, then
    /// level, then position.
    pub open spec fn lt(self, other: GcPos) -> bool {
        self.phase.spec_rank() < other.phase.spec_rank() || (self.phase == other.phase && (
        self.btree < other.btree || (self.btree == other.btree && (self.level < other.level || (
        self.level == other.level && self.pos < other.pos)))))
    }

    /// Whether both are the same place; the journal entry does not count.
    pub open spec fn same_place(self, other: GcPos) -> bool {
        self.phase == other.phase && self.btree == other.btree && self.level == other.level
            && self.pos == other.pos
    }
}

/// How two places are ordered.
pub fn gc_pos_cmp(l: &GcPos, r: &GcPos) -> (o: std::cmp::Ordering)
    ensures
        o == (if l.lt(*r) {
            std::cmp::Ordering::Less
        } else if l.same_place(*r) {
            std::cmp::Ordering::Equal
        } else {
            std::cmp::Ordering::Greater
        }),
{
    let a: u8 = l.phase.rank();
    let b: u8 = r.phase.rank();
    if a < b {
        std::cmp::Ordering::Less
    } else if a > b {
        std::cmp::Ordering::Greater
    } else if l.btree < r.btree {
        std::cmp::Ordering::Less
    } else if l.btree > r.btree {
        std::cmp::Ordering::Greater
    } else if l.level < r.level {
        std::cmp::Ordering::Less
    } else if l.level > r.level {
        std::cmp::Ordering::Greater
    } else if l.pos < r.pos {
        std::cmp::Ordering::Less
    } else if l.pos > r.pos {
        std::cmp::Ordering::Greater
    } else {
        std::cmp::Ordering::Equal
    }
}

/// Whether a collection has been at `pos`.
pub fn gc_visited(gc: &BtreeGc, pos: &GcPos) -> (r: bool)
    ensures
        r == (pos.lt(gc.pos) || pos.same_place(gc.pos)),
{
    match gc_pos_cmp(pos, &gc.pos) {
        std::cmp::Ordering::Less => true,
        std::cmp::Ordering::Equal => true,
        std::cmp::Ordering::Greater => false,
    }
}

/// Places are totally ordered, and what a collection has been at it has still
/// been at when it is further on.
pub proof fn lemma_gc_pos_order(a: GcPos, b: GcPos, c: GcPos)
    ensures
        a.lt(b) || a.same_place(b) || b.lt(a),
        !(a.lt(b) && b.lt(a)),
        !(a.lt(b) && a.same_place(b)),
        a.lt(b) && b.lt(c) ==> a.lt(c),
        (a.lt(b) || a.same_place(b)) && (b.lt(c) || b.same_place(c)) ==> a.lt(c) || a.same_place(c),
{
}

/// Asks for a collection.
pub fn bch2_gc_gens_async(gc: &mut BtreeGc)
    ensures
        *final(gc) == (BtreeGc { triggered: true, ..*old(gc) }),
{
    gc.triggered = true;
}

/// Resets what is running and what was asked for.
pub fn bch2_fs_btree_gc_init_early(gc: &mut BtreeGc)
    ensures
        *final(gc) == (BtreeGc { running: false, triggered: false, ..*old(gc) }),
{
    gc.running = false;
    gc.triggered = false;
}

/// The part of a superblock that garbage collection uses.
#[derive(Clone, Copy, Debug, PartialEq, Eq, Structural)]
pub struct BchSb {
    pub gc_pos: GcPos,
    pub gc_pos_valid: bool,
}

/// Notes the place of a collection in the superblock.
pub fn bch2_gc_pos_to_sb(gc: &BtreeGc, sb: &mut BchSb)
    ensures
        *final(sb) == (BchSb { gc_pos: gc.pos, gc_pos_valid: true }),
{
    sb.gc_pos = gc.pos;
    sb.gc_pos_valid = true;
}

/// The place that the superblock has, if any.
pub fn bch2_gc_pos_from_sb(sb: &BchSb) -> (r: Option<GcPos>)
    ensures
        r == (if sb.gc_pos_valid {
            Some(sb.gc_pos)
        } else {
            None
        }),
{
    if sb.gc_pos_valid {
        Some(sb.gc_pos)
    } else {
        None
    }
}

/// The name of a phase.
pub open spec fn phase_text(p: GcPhase) -> Seq<char> {
    match p {
        GcPhase::NotRunning => "NotRunning"@,
        GcPhase::Start => "Start"@,
        GcPhase::Sb => "Sb"@,
        GcPhase::Btree => "Btree"@,
    }
}

/// A place in a collection, as text.
pub open spec fn gc_pos_text(p: GcPos) -> Seq<char> {
    "GC phase="@ + phase_text(p.phase) + " btree="@ + dec(p.btree as nat) + " level="@ + dec(
        p.level as nat,
    ) + " pos="@ + dec(p.pos as nat)
}

/// A place in a collection, as text.
pub fn bch2_gc_pos_to_text(pos: &GcPos) -> (r: String)
    ensures
        r@ == gc_pos_text(*pos),
{
    let mut s = String::new();
    push_text(&mut s, "GC phase=");
    let name: &str = match pos.phase {
        GcPhase::NotRunning => "NotRunning",
        GcPhase::Start => "Start",
        GcPhase::Sb => "Sb",
        GcPhase::Btree => "Btree",
    };
    push_text(&mut s, name);
    push_text(&mut s, " btree=");
    push_dec(&mut s, pos.btree as u64);
    push_text(&mut s, " level=");
    push_dec(&mut s, pos.level as u64);
    push_text(&mut s, " pos=");
    push_dec(&mut s, pos.pos);
    assert(s@ =~= gc_pos_text(*pos));
    s
}

// ── references ──────────────────────────────────────────────────────────

/// The bucket of a block address; none for the null address and for one that
/// does not fit into 48 bits.
pub open spec fn bucket_of(addr: int) -> Option<u64> {
    if 0 < addr < 0x1_0000_0000_0000 {
        Some((addr / 256) as u64)
    } else {
        None
    }
}

/// The bucket that the raw value of an entry refers to by its first six bytes.
pub open spec fn raw_bucket(e: BtreeEntry) -> Option<u64> {
    match e.value {
        KeyValue::Raw(b) => if b@.len() >= 6 {
            bucket_of(le_at(b@, 0, 6) as int)
        } else {
            None
        },
        _ => None,
    }
}

/// Whether one of these entries refers to bucket `b`.
pub open spec fn refers(es: Seq<BtreeEntry>, b: u64) -> bool {
    exists|i: int| 0 <= i < es.len() && raw_bucket(#[trigger] es[i]) == Some(b)
}

/// Whether an entry of one of these lists refers to bucket `b`.
pub open spec fn any_refers(ls: Seq<Seq<BtreeEntry>>, b: u64) -> bool {
    exists|i: int| 0 <= i < ls.len() && refers(#[trigger] ls[i], b)
}

fn raw_bucket_of(e: &BtreeEntry) -> (r: Option<u64>)
    ensures
        r == raw_bucket(*e),
{
    match &e.value {
        KeyValue::Raw(b) => {
            if b.len() < 6 {
                return None;
            }
            let addr: u64 = get_le(b.as_slice(), 0, 6);
            proof {
                lemma_pow256_values();
            }
            if addr > 0 {
                Some(addr / BLOCKS_PER_BUCKET)
            } else {
                None
            }
        },
        _ => None,
    }
}

/// Adds the buckets that a tree refers to.
fn add_references(t: &Btree, out: &mut HashSet<u64>) -> (es: Ghost<Seq<BtreeEntry>>)
    requires
        t.wf(),
    ensures
        t.lists(es@),
        forall|b: u64| #[trigger]
            final(out)@.contains(b) <==> old(out)@.contains(b) || refers(es@, b),
{
    broadcast use vstd::std_specs::hash::group_hash_axioms;

    let all: Vec<BtreeEntry> = t.for_each_entry();
    let ghost o0 = out@;
    let ghost es = all@;
    let mut i: usize = 0;
    assert forall|b: u64| !refers(es.take(0), b) by {}
    while i < all.len()
        invariant
            i <= all@.len(),
            es == all@,
            forall|b: u64| #[trigger]
                out@.contains(b) <==> o0.contains(b) || refers(es.take(i as int), b),
        decreases all@.len() - i,
    {
        let ghost before = out@;
        let f = raw_bucket_of(&all[i]);
        if let Some(b) = f {
            out.insert(b);
        }
        proof {
            let p = es.take(i as int);
            let q = es.take(i + 1);
            assert forall|b: u64| refers(q, b) <==> (refers(p, b) || f == Some(b)) by {
                if refers(q, b) {
                    let k = choose|k: int| 0 <= k < q.len() && raw_bucket(#[trigger] q[k]) == Some(b);
                    if k < i {
                        assert(p[k] == q[k]);
                    }
                }
                if refers(p, b) {
                    let k = choose|k: int| 0 <= k < p.len() && raw_bucket(#[trigger] p[k]) == Some(b);
                    assert(q[k] == p[k]);
                }
                if f == Some(b) {
                    assert(q[i as int] == es[i as int]);
                }
            }
        }
        i = i + 1;
    }
    assert(es.take(es.len() as int) =~= es);
    Ghost(es)
}

/// The buckets that the trees refer to.
fn referenced_buckets(engine: &BtreeEngine) -> (r: (HashSet<u64>, Ghost<Seq<Seq<BtreeEntry>>>))
    requires
        engine.wf(),
    ensures
        engine.lists_all((r.1)@),
        forall|b: u64| #[trigger] (r.0)@.contains(b) <==> any_refers((r.1)@, b),
{
    broadcast use vstd::std_specs::hash::group_hash_axioms;

    let mut out: HashSet<u64> = HashSet::new();
    let ghost mut ls: Seq<Seq<BtreeEntry>> = Seq::empty();
    let mut i: usize = 0;
    while i < 7
        invariant
            i <= 7,
            engine.wf(),
            ls.len() == i,
            forall|j: int| 0 <= j < ls.len() ==> engine.trees@[j].lists(#[trigger] ls[j]),
            forall|b: u64| #[trigger] out@.contains(b) <==> any_refers(ls, b),
        decreases 7 - i,
    {
        let ghost before = out@;
        let ghost ls0 = ls;
        let es = add_references(&engine.trees[i], &mut out);
        proof {
            ls = ls0.push(es@);
            assert forall|b: u64| #[trigger] out@.contains(b) <==> any_refers(ls, b) by {
                if any_refers(ls0, b) {
                    let k = choose|k: int| 0 <= k < ls0.len() && refers(#[trigger] ls0[k], b);
                    assert(ls[k] == ls0[k]);
                }
                if refers(es@, b) {
                    assert(ls[i as int] == es@);
                }
                if any_refers(ls, b) {
                    let k = choose|k: int| 0 <= k < ls.len() && refers(#[trigger] ls[k], b);
                    if k < i {
                        assert(ls0[k] == ls[k]);
                    }
                }
            }
        }
        i = i + 1;
    }
    (out, Ghost(ls))
}

/// Marks the buckets that the extents refer to as user data, and notes that
/// the pass was done as of `journal_seq`.
pub fn bch2_gc_gens(
    engine: &BtreeEngine,
    allocator: &mut BchAllocator,
    gc: &mut BtreeGc,
    journal_seq: u64,
) -> (r: Result<(), StorageError>)
    requires
        engine.wf(),
    ensures
        r is Ok,
        *final(gc) == (BtreeGc {
            pos: GcPos { phase: GcPhase::Btree, btree: 0, level: 0, pos: 0, journal_seq },
            ..*old(gc)
        }),
        final(allocator).buckets@.len() == old(allocator).buckets@.len(),
        exists|es: Seq<BtreeEntry>| #[trigger]
            engine.tree(BtreeId::Extents).lists(es) && forall|i: int|
                0 <= i < old(allocator).buckets@.len() ==> #[trigger] final(allocator).buckets@[i]
                    == (if refers(es, i as u64) {
                    Bucket { state: BchDataType::User, ..old(allocator).buckets@[i] }
                } else {
                    old(allocator).buckets@[i]
                }),
{
    broadcast use vstd::std_specs::hash::group_hash_axioms;

    let mut referenced: HashSet<u64> = HashSet::new();
    let es = add_references(engine.get(BtreeId::Extents), &mut referenced);
    let ghost b0 = allocator.buckets@;
    let n: usize = allocator.buckets.len();
    let mut i: usize = 0;
    while i < n
        invariant
            i <= n,
            n == b0.len(),
            allocator.buckets@.len() == n,
            forall|b: u64| #[trigger] referenced@.contains(b) <==> refers(es@, b),
            forall|j: int| i <= j < n ==> #[trigger] allocator.buckets@[j] == b0[j],
            forall|j: int|
                0 <= j < i ==> #[trigger] allocator.buckets@[j] == (if refers(es@, j as u64) {
                    Bucket { state: BchDataType::User, ..b0[j] }
                } else {
                    b0[j]
                }),
        decreases n - i,
    {
        if referenced.contains(&(i as u64)) {
            let mut b = allocator.buckets[i];
            b.state = BchDataType::User;
            allocator.buckets.set(i, b);
        }
        i = i + 1;
    }
    gc.pos = GcPos { phase: GcPhase::Btree, btree: 0, level: 0, pos: 0, journal_seq };
    proof {
        assert(engine.tree(BtreeId::Extents).lists(es@));
    }
    Ok(())
}

// ── marking ─────────────────────────────────────────────────────────────

/// The block that the value of an entry points to.
pub open spec fn pointed(e: BtreeEntry) -> int {
    match e.value {
        KeyValue::Extent(v) => v.paddr.addr as int,
        KeyValue::BtreePtr(p) => p.block_addr as int,
        KeyValue::Raw(b) => if b@.len() >= 6 {
            le_at(b@, 0, 6) as int
        } else {
            0
        },
    }
}

/// The buckets after the one that an entry points to was marked as user data
/// of a new generation.
pub open spec fn marked(buckets: Seq<Bucket>, e: BtreeEntry) -> Seq<Bucket> {
    match bucket_of(pointed(e)) {
        Some(i) => if i < buckets.len() {
            buckets.update(
                i as int,
                Bucket {
                    state: BchDataType::User,
                    version: ((buckets[i as int].version + 1) % 0x1_0000_0000) as u32,
                    ..buckets[i as int]
                },
            )
        } else {
            buckets
        },
        None => buckets,
    }
}

/// `marked` for entries in order.
pub open spec fn all_marked(buckets: Seq<Bucket>, es: Seq<BtreeEntry>) -> Seq<Bucket>
    decreases es.len(),
{
    if es.len() == 0 {
        buckets
    } else {
        marked(all_marked(buckets, es.drop_last()), es.last())
    }
}

/// `all_marked` for lists in order.
pub open spec fn lists_marked(buckets: Seq<Bucket>, ls: Seq<Seq<BtreeEntry>>) -> Seq<Bucket>
    decreases ls.len(),
{
    if ls.len() == 0 {
        buckets
    } else {
        all_marked(lists_marked(buckets, ls.drop_last()), ls.last())
    }
}

/// Marks the bucket that an entry points to.
pub fn bch2_gc_mark_key(_engine: &BtreeEngine, allocator: &mut BchAllocator, entry: &BtreeEntry) -> (r:
    Result<(), StorageError>)
    ensures
        r is Ok,
        final(allocator).buckets@ == marked(old(allocator).buckets@, *entry),
{
    let addr: u64 = match &entry.value {
        KeyValue::Extent(v) => v.paddr.addr,
        KeyValue::BtreePtr(p) => p.block_addr,
        KeyValue::Raw(b) => {
            if b.len() < 6 {
                return Ok(());
            }
            get_le(b.as_slice(), 0, 6)
        },
    };
    if addr == 0 || addr >= ADDR48_LIMIT {
        return Ok(());
    }
    let n: usize = allocator.buckets.len();
    let i: u64 = addr / BLOCKS_PER_BUCKET;
    if i < n as u64 {
        let mut b = allocator.buckets[i as usize];
        b.state = BchDataType::User;
        b.version = b.version.wrapping_add(1);
        allocator.buckets.set(i as usize, b);
    }
    Ok(())
}

/// Marks what a tree points to.
fn mark_tree(engine: &BtreeEngine, i: usize, allocator: &mut BchAllocator) -> (es: Ghost<
    Seq<BtreeEntry>,
>)
    requires
        engine.wf(),
        i < 7,
    ensures
        engine.trees@[i as int].lists(es@),
        final(allocator).buckets@ == all_marked(old(allocator).buckets@, es@),
{
    let all: Vec<BtreeEntry> = engine.trees[i].for_each_entry();
    let ghost es = all@;
    let ghost b0 = allocator.buckets@;
    let mut j: usize = 0;
    assert(es.take(0) =~= Seq::<BtreeEntry>::empty());
    while j < all.len()
        invariant
            j <= all@.len(),
            es == all@,
            allocator.buckets@ == all_marked(b0, es.take(j as int)),
        decreases all@.len() - j,
    {
        proof {
            assert(es.take(j + 1).drop_last() =~= es.take(j as int));
            assert(es.take(j + 1).last() == es[j as int]);
        }
        let _r: Result<(), StorageError> = bch2_gc_mark_key(engine, allocator, &all[j]);
        j = j + 1;
    }
    assert(es.take(es.len() as int) =~= es);
    Ghost(es)
}

/// Checks the topology of all trees, then marks every bucket that an entry
/// points to. Nothing is marked where the check fails.
pub fn bch2_gc_btrees(engine: &BtreeEngine, allocator: &mut BchAllocator) -> (r: Result<
    (),
    StorageError,
>)
    requires
        engine.wf(),
    ensures
        exists|ls: Seq<Seq<BtreeEntry>>| #[trigger]
            engine.lists_all(ls) && r == (match engine.check_from(ls, 0) {
                Some(f) => Err::<(), StorageError>(StorageError::Transaction(f)),
                None => Ok::<(), StorageError>(()),
            }),
        r is Err ==> final(allocator).buckets@ == old(allocator).buckets@,
        r is Ok ==> exists|ls: Seq<Seq<BtreeEntry>>| #[trigger]
            engine.lists_all(ls) && final(allocator).buckets@ == lists_marked(
                old(allocator).buckets@,
                ls,
            ),
{
    if let Err(e) = bch2_check_topology(engine) {
        return Err(e);
    }
    let ghost b0 = allocator.buckets@;
    let ghost mut ls: Seq<Seq<BtreeEntry>> = Seq::empty();
    let mut i: usize = 0;
    while i < 7
        invariant
            i <= 7,
            engine.wf(),
            ls.len() == i,
            forall|j: int| 0 <= j < ls.len() ==> engine.trees@[j].lists(#[trigger] ls[j]),
            allocator.buckets@ == lists_marked(b0, ls),
        decreases 7 - i,
    {
        let es = mark_tree(engine, i, allocator);
        proof {
            let ls0 = ls;
            ls = ls0.push(es@);
            assert(ls.drop_last() =~= ls0);
        }
        i = i + 1;
    }
    assert(engine.lists_all(ls));
    Ok(())
}

/// What a trigger is told about an entry that was marked.
#[derive(Debug)]
pub struct GcTrigger {
    pub btree: BtreeId,
    pub key_type: u8,
    pub key: Vec<u8>,
    pub value: Vec<u8>,
}

/// Calls `bincode::serialize` on the three parts of a key. Its default is
/// little-endian integers of fixed width, one behind the other.
#[verifier::external_body]
fn serialize_key(vaddr: u64, snapshot_id: u32, key_type: u32) -> (r: Vec<u8>)
    ensures
        r@ == le_bytes(vaddr as nat, 8) + le_bytes(snapshot_id as nat, 4) + le_bytes(
            key_type as nat,
            4,
        ),
{
    bincode::serialize(&(vaddr, snapshot_id, key_type)).unwrap_or_default()
}

impl GcTrigger {
    /// Whether the trigger tells of an entry of tree `ty`.
    pub open spec fn tells_of(self, ty: BtreeId, entry: BtreeEntry) -> bool {
        &&& self.btree == ty
        &&& self.key_type == entry.key_type.spec_code()
        &&& self.key@ == le_bytes(entry.pos.offset as nat, 8) + le_bytes(
            entry.pos.snapshot as nat,
            4,
        ) + le_bytes(entry.key_type.spec_code() as nat, 4)
        &&& self.value@ == entry@.value
    }
}

/// What the trigger for an entry of tree `ty` is told.
pub fn gc_trigger(ty: BtreeId, entry: &BtreeEntry) -> (r: GcTrigger)
    ensures
        r.tells_of(ty, *entry),
{
    let key = BtreeKey::from_bpos(entry.pos, entry.key_type);
    let code: u8 = key.key_type.code();
    GcTrigger {
        btree: ty,
        key_type: code,
        key: serialize_key(key.vaddr, key.snapshot_id, code as u32),
        value: entry.value.to_bytes(),
    }
}

/// Marks the bucket that an entry of tree `ty` points to. Returns what the
/// trigger for it is told.
pub fn gc_mark_entry(
    engine: &BtreeEngine,
    allocator: &mut BchAllocator,
    ty: BtreeId,
    entry: &BtreeEntry,
) -> (r: Result<GcTrigger, StorageError>)
    ensures
        r matches Ok(t) && t.tells_of(ty, *entry),
        final(allocator).buckets@ == marked(old(allocator).buckets@, *entry),
{
    match bch2_gc_mark_key(engine, allocator, entry) {
        Ok(()) => Ok(gc_trigger(ty, entry)),
        Err(e) => Err(e),
    }
}

// ── sweeping ────────────────────────────────────────────────────────────

/// What a sweep did.
#[derive(Debug, PartialEq, Eq)]
pub struct ReclaimStats {
    pub reclaimed_count: u32,
    /// The buckets that are free again.
    pub reclaimed_buckets: Vec<u64>,
    /// How many buckets were left alone for what they are used for.
    pub skipped_state: u32,
}

/// Whether a sweep frees a bucket: user data that nothing refers to, and what
/// waits for a collection.
pub open spec fn reclaims(b: Bucket, referenced: bool) -> bool {
    (b.state == BchDataType::User && !referenced) || b.state == BchDataType::NeedGcGens
}

/// Whether a sweep leaves a bucket alone for what it is used for.
pub open spec fn skips(b: Bucket) -> bool {
    b.state != BchDataType::User && b.state != BchDataType::NeedGcGens
}

/// Those of the first `n` buckets that a sweep frees.
pub open spec fn reclaimed(bs: Seq<Bucket>, ls: Seq<Seq<BtreeEntry>>, n: int) -> Seq<u64>
    decreases n,
{
    if n <= 0 {
        Seq::empty()
    } else if reclaims(bs[n - 1], any_refers(ls, (n - 1) as u64)) {
        reclaimed(bs, ls, n - 1).push((n - 1) as u64)
    } else {
        reclaimed(bs, ls, n - 1)
    }
}

/// How many of the first `n` buckets a sweep leaves alone.
pub open spec fn skipped(bs: Seq<Bucket>, n: int) -> int
    decreases n,
{
    if n <= 0 {
        0
    } else {
        skipped(bs, n - 1) + (if skips(bs[n - 1]) {
            1int
        } else {
            0int
        })
    }
}

/// Frees the buckets with user data that no entry refers to, and those that
/// wait for a collection.
pub fn bch2_gc_sweep(engine: &BtreeEngine, allocator: &mut BchAllocator) -> (r: Result<
    ReclaimStats,
    StorageError,
>)
    requires
        engine.wf(),
        old(allocator).buckets@.len() <= u32::MAX,
    ensures
        r is Ok,
        exists|ls: Seq<Seq<BtreeEntry>>| #[trigger]
            engine.lists_all(ls) && swept(
                old(allocator).buckets@,
                final(allocator).buckets@,
                ls,
                r->Ok_0,
            ),
{
    let (referenced, ls) = referenced_buckets(engine);
    let ghost b0 = allocator.buckets@;
    let ghost gls = ls@;
    let n: usize = allocator.buckets.len();
    let mut freed: Vec<u64> = Vec::new();
    let mut skipped_state: u32 = 0;
    let mut i: usize = 0;
    assert(freed@ =~= reclaimed(b0, gls, 0));
    while i < n
        invariant
            i <= n,
            n == b0.len(),
            n <= u32::MAX,
            allocator.buckets@.len() == n,
            forall|b: u64| #[trigger] referenced@.contains(b) <==> any_refers(gls, b),
            forall|j: int| i <= j < n ==> #[trigger] allocator.buckets@[j] == b0[j],
            forall|j: int|
                0 <= j < i ==> #[trigger] allocator.buckets@[j] == swept_bucket(
                    b0[j],
                    any_refers(gls, j as u64),
                ),
            freed@ == reclaimed(b0, gls, i as int),
            freed@.len() <= i,
            skipped_state == skipped(b0, i as int),
            skipped_state <= i,
        decreases n - i,
    {
        broadcast use vstd::std_specs::hash::group_hash_axioms;

        let mut b = allocator.buckets[i];
        let gone: bool = match b.state {
            BchDataType::User => !referenced.contains(&(i as u64)),
            BchDataType::NeedGcGens => true,
            _ => {
                skipped_state = skipped_state + 1;
                false
            },
        };
        if gone {
            b.state = BchDataType::Free;
            allocator.buckets.set(i, b);
            freed.push(i as u64);
        }
        i = i + 1;
    }
    let stats = ReclaimStats {
        reclaimed_count: freed.len() as u32,
        reclaimed_buckets: freed,
        skipped_state,
    };
    proof {
        assert(swept(b0, allocator.buckets@, gls, stats));
        assert(engine.lists_all(gls));
    }
    Ok(stats)
}

/// A bucket after a sweep.
pub open spec fn swept_bucket(b: Bucket, referenced: bool) -> Bucket {
    if reclaims(b, referenced) {
        Bucket { state: BchDataType::Free, ..b }
    } else {
        b
    }
}

/// Whether a sweep turned the buckets `old` into `new`, with these numbers,
/// where the trees hold the entries `ls`.
pub open spec fn swept(
    old: Seq<Bucket>,
    new: Seq<Bucket>,
    ls: Seq<Seq<BtreeEntry>>,
    stats: ReclaimStats,
) -> bool {
    &&& new.len() == old.len()
    &&& forall|i: int|
        0 <= i < new.len() ==> #[trigger] new[i] == swept_bucket(old[i], any_refers(ls, i as u64))
    &&& stats.reclaimed_buckets@ == reclaimed(old, ls, old.len() as int)
    &&& stats.reclaimed_count == stats.reclaimed_buckets@.len()
    &&& stats.skipped_state == skipped(old, old.len() as int)
}

/// A sweep never frees user data that an entry refers to, leaves every other
/// kind of use alone, and has nothing left to free when it is done again.
pub proof fn lemma_sweep_safe(
    old: Seq<Bucket>,
    new: Seq<Bucket>,
    ls: Seq<Seq<BtreeEntry>>,
    stats: ReclaimStats,
    i: int,
)
    requires
        swept(old, new, ls, stats),
        0 <= i < old.len(),
    ensures
        old[i].state == BchDataType::User && any_refers(ls, i as u64) ==> new[i] == old[i],
        skips(old[i]) ==> new[i] == old[i],
        !reclaims(new[i], any_refers(ls, i as u64)),
{
}

/// What a tree holds is listed, so a bucket that a held entry refers to by its
/// value counts as referenced, and a sweep does not free its user data.
pub proof fn lemma_held_is_referenced(
    engine: BtreeEngine,
    ls: Seq<Seq<BtreeEntry>>,
    i: int,
    e: EntryView,
    b: u64,
)
    requires
        engine.lists_all(ls),
        0 <= i < engine.trees@.len(),
        reachable(engine.trees@[i]),
        held(engine.trees@[i], e),
        e.value.len() >= 6,
        bucket_of(le_at(e.value, 0, 6) as int) == Some(b),
    ensures
        any_refers(ls, b),
{
    let t = engine.trees@[i];
    let min = BtreeKey::spec_min_key();
    let items = t.items(min);
    lemma_walk_visits(t, e);
    lemma_undeleted(items);
    let al = choose|al: crate::layout::Layout| #[trigger]
        crate::layout::laid(t, al, crate::layout::no_gap());
    crate::laws_map::lemma_held(t, al, e);
    crate::tidy::lemma_live_in(
        crate::layout::at(t, al, t.root.depth as int, e.key()).all(),
        e,
    );
    assert(undeleted(items).contains(e));
    assert(t.lists(ls[i]));
    let us = undeleted(items);
    let j = choose|j: int| 0 <= j < us.len() && us[j] == e;
    assert(leaf_reads(us[j], ls[i][j]));
    assert(raw_bucket(ls[i][j]) == Some(b));
    assert(refers(ls[i], b));
}

// ── what is known of buckets ────────────────────────────────────────────

/// What does not agree.
#[derive(Clone, Copy, Debug, PartialEq, Eq, Structural)]
pub enum Discrepancy {
    /// A bucket is in use, and no entry refers to it.
    Unreferenced { bucket: u64, state: BchDataType },
    /// A bucket was in use, and is not any more.
    Released { bucket: u64, was: BchDataType },
    /// A bucket is in use, and was not before.
    Allocated { bucket: u64, now: BchDataType },
    /// A bucket is used for something else.
    Changed { bucket: u64, was: BchDataType, now: BchDataType },
    /// The value of an alloc key cannot be read.
    BadAllocValue { bucket: u64 },
    AllocMismatch { bucket: u64, alloc: BchAllocEntry, allocator: BchAllocEntry },
    MissingAllocEntry { bucket: u64 },
    /// A free bucket has no freespace key of its generation.
    MissingFreespace { bucket: u64, version: u32 },
    /// A free bucket has a freespace key of another generation.
    StaleFreespace { bucket: u64, version: u32, expected: u32 },
    /// A bucket in use has a freespace key.
    StaleAllocatedFreespace { bucket: u64, version: u32 },
    /// An alloc key is about a bucket that does not exist.
    MissingBucket { bucket: u64, alloc: BchAllocEntry },
}

/// Those of the first `n` buckets that are in use and that no entry refers to.
pub open spec fn unreferenced(bs: Seq<Bucket>, ls: Seq<Seq<BtreeEntry>>, n: int) -> Seq<Discrepancy>
    decreases n,
{
    if n <= 0 {
        Seq::empty()
    } else if bs[n - 1].spec_in_use() && !any_refers(ls, (n - 1) as u64) {
        unreferenced(bs, ls, n - 1).push(
            Discrepancy::Unreferenced { bucket: (n - 1) as u64, state: bs[n - 1].state },
        )
    } else {
        unreferenced(bs, ls, n - 1)
    }
}

/// The buckets that are in use and that no entry refers to.
pub fn bch2_check_allocations(engine: &BtreeEngine, allocator: &BchAllocator) -> (r: Result<
    Vec<Discrepancy>,
    StorageError,
>)
    requires
        engine.wf(),
    ensures
        r is Ok,
        exists|ls: Seq<Seq<BtreeEntry>>| #[trigger]
            engine.lists_all(ls) && r->Ok_0@ == unreferenced(
                allocator.buckets@,
                ls,
                allocator.buckets@.len() as int,
            ),
{
    let (referenced, ls) = referenced_buckets(engine);
    let ghost bs = allocator.buckets@;
    let ghost gls = ls@;
    let mut out: Vec<Discrepancy> = Vec::new();
    let mut i: usize = 0;
    assert(out@ =~= unreferenced(bs, gls, 0));
    while i < allocator.buckets.len()
        invariant
            i <= bs.len(),
            bs == allocator.buckets@,
            forall|b: u64| #[trigger] referenced@.contains(b) <==> any_refers(gls, b),
            out@ == unreferenced(bs, gls, i as int),
        decreases bs.len() - i,
    {
        broadcast use vstd::std_specs::hash::group_hash_axioms;

        let b = allocator.buckets[i];
        if b.in_use() && !referenced.contains(&(i as u64)) {
            out.push(Discrepancy::Unreferenced { bucket: i as u64, state: b.state });
        }
        i = i + 1;
    }
    assert(engine.lists_all(gls));
    Ok(out)
}

// ── steps with nothing to do ────────────────────────────────────────────

/// Merging neighbours is part of deleting: there is nothing left to do.
pub fn bch2_merge_btree_nodes() -> (r: i32)
    ensures
        r == 0,
{
    0
}

pub fn bch2_gc_accounting_start() -> (r: i32)
    ensures
        r == 0,
{
    0
}

pub fn bch2_gc_accounting_done() -> (r: i32)
    ensures
        r == 0,
{
    0
}

} // verus!
