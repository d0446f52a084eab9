//! What the checks of a read find in nodes as they are written.

use crate::key::{pad8, EntryView, KEY_FORMAT_CURRENT};
use crate::le::le_bytes;
use crate::node::BtreeNode;
use crate::node_io::{read_fault, sets_fault, too_much};
use crate::packed::{
    all_fit, encode, encode_all, entry_at, lemma_decode_encode, lemma_encoded_at,
    lemma_parse_encode_all, lemma_total_bound, starts_with, total_size,
};
use crate::record::{lemma_total_multiple, ExtentView};
use crate::run::{lemma_live, sorted};
use crate::validate::{keys_between, keys_fault, known_format, set_fault};
use vstd::prelude::*;

verus! {

/// Whether the positions of a run rise strictly.
pub open spec fn rising(es: Seq<EntryView>) -> bool {
    forall|i: int, j: int| 0 <= i < j < es.len() ==> (#[trigger] es[i]).pos.lt(
        (#[trigger] es[j]).pos,
    )
}

/// Whether all entries of a run have the inode `inode`.
pub open spec fn one_inode(es: Seq<EntryView>, inode: u64) -> bool {
    forall|i: int| 0 <= i < es.len() ==> (#[trigger] es[i]).pos.inode == inode
}

/// Where all entries have one inode, keys that rise are positions that rise.
pub proof fn lemma_one_inode_rises(es: Seq<EntryView>, inode: u64)
    requires
        sorted(es),
        one_inode(es, inode),
    ensures
        rising(es),
{
    assert forall|i: int, j: int| 0 <= i < j < es.len() implies (#[trigger] es[i]).pos.lt(
        (#[trigger] es[j]).pos,
    ) by {
        assert(es[i].key().lt(es[j].key()));
    }
}

/// A packed entry has the current format, which is known.
proof fn lemma_encode_format(e: EntryView)
    ensures
        encode(e).len() >= 3,
        encode(e)[1] == KEY_FORMAT_CURRENT,
        known_format(KEY_FORMAT_CURRENT),
{
    let head = seq![e.u64s() as u8, KEY_FORMAT_CURRENT, e.key_type.spec_code()];
    let a = head + le_bytes(e.pos.inode as nat, 8);
    let b = a + le_bytes(e.pos.offset as nat, 8);
    let c = b + le_bytes(e.pos.snapshot as nat, 4);
    let f = c + seq![0u8];
    assert(head[1] == a[1] && a[1] == b[1] && b[1] == c[1] && c[1] == f[1]);
    assert(encode(e) == f + pad8(e.value));
    assert(known_format(1u8)) by (bit_vector);
}

/// What lies where the key number `j` of a packed run starts.
proof fn lemma_packed_key_at(d: Seq<u8>, es: Seq<EntryView>, j: int)
    requires
        starts_with(d, es),
        all_fit(es),
        0 <= j < es.len(),
    ensures
        ({
            let off = total_size(es.take(j));
            &&& 0 <= off
            &&& off + 24 <= d.len()
            &&& d[off] == es[j].u64s()
            &&& d[off] >= 3
            &&& off + d[off] * 8 == total_size(es.take(j + 1))
            &&& total_size(es.take(j + 1)) <= total_size(es)
            &&& known_format(d[off + 1])
            &&& entry_at(d, off).pos == es[j].pos
        }),
{
    let off = total_size(es.take(j));
    let e = es[j];
    let n = e.u64s() * 8;
    assert(off + n <= d.len() && d.subrange(off, off + n) == encode(e) && total_size(
        es.take(j + 1),
    ) == off + n && off + n <= total_size(es) && 0 <= off) by {
        reveal(starts_with);
        lemma_parse_encode_all(es);
        lemma_encoded_at(es, j);
        assert(d.subrange(off, off + n) =~= encode_all(es).subrange(off, off + n));
    }
    lemma_decode_encode(e);
    lemma_encode_format(e);
    let x = d.subrange(off, off + n);
    assert(x[0] == d[off] && x[1] == d[off + 1]);
}

/// The check of the packed keys from number `j` on counts them all.
proof fn lemma_packed_keys_from(d: Seq<u8>, es: Seq<EntryView>, set: int, j: int)
    requires
        starts_with(d, es),
        all_fit(es),
        rising(es),
        0 <= j <= es.len(),
    ensures
        keys_between(
            d,
            total_size(es.take(j)),
            total_size(es),
            set,
            if j == 0 {
                None
            } else {
                Some(es[j - 1].pos)
            },
            j,
        ) == Ok::<int, crate::error::Fault>(es.len() as int),
    decreases es.len() - j,
{
    if j == es.len() {
        assert(es.take(j) =~= es);
    } else {
        lemma_packed_key_at(d, es, j);
        if j > 0 {
            assert(es[j - 1].pos.lt(es[j].pos));
        }
        lemma_packed_keys_from(d, es, set, j + 1);
    }
}

/// The check of packed keys finds no fault where their positions rise.
proof fn lemma_packed_keys(d: Seq<u8>, es: Seq<EntryView>, set: int)
    requires
        starts_with(d, es),
        all_fit(es),
        rising(es),
    ensures
        keys_between(d, 0, total_size(es), set, None, 0) == Ok::<int, crate::error::Fault>(
            es.len() as int,
        ),
{
    assert(es.take(0) =~= Seq::<EntryView>::empty());
    lemma_packed_keys_from(d, es, set, 0);
}

/// A node that was just packed, or compacted, passes the check of its keys where
/// their positions rise.
pub proof fn lemma_packed_checked(n: BtreeNode, es: Seq<EntryView>)
    requires
        n.wf(),
        n.holds_compacted(es) || n.holds_packed(es),
        n.all() == es,
        rising(es),
    ensures
        keys_fault(n.data@, n.sets@[0], 0) is None,
        keys_fault(n.data@, n.sets@[1], 1) is None,
        keys_fault(n.data@, n.sets@[2], 2) is None,
{
    n.lemma_all();
    reveal(BtreeNode::wf);
    assert(n.sets@[0].size == n.run(0).len());
    lemma_total_bound(es);
    lemma_packed_keys(n.data@, es, 0);
}

/// A compaction leaves keys that pass the check, where all entries have one inode
/// or their positions rise for another reason.
pub proof fn lemma_compacted_checked(n: BtreeNode, new: BtreeNode, inode: u64)
    requires
        n.compacted_to(new),
        rising(n.live()) || one_inode(n.live(), inode),
    ensures
        keys_fault(new.data@, new.sets@[0], 0) is None,
        keys_fault(new.data@, new.sets@[1], 1) is None,
        keys_fault(new.data@, new.sets@[2], 2) is None,
{
    lemma_live(n.all());
    if !rising(n.live()) {
        lemma_one_inode_rises(n.live(), inode);
    }
    lemma_packed_checked(new, n.live());
}

/// A node that was just packed, or compacted, is read without a fault where the
/// positions of its entries rise and they fit it.
pub proof fn lemma_packed_read(n: BtreeNode, es: Seq<EntryView>)
    requires
        n.wf(),
        n.node_size > 0,
        n.holds_compacted(es) || n.holds_packed(es),
        n.all() == es,
        rising(es),
        total_size(es) <= n.node_size,
    ensures
        read_fault(n) is None,
{
    lemma_packed_checked(n, es);
    n.lemma_all();
    lemma_total_multiple(es);
    lemma_total_bound(es);
    reveal(BtreeNode::wf);
    assert(n.sets@[0].size == n.run(0).len());
    assert(n.spec_nsets() == 1);
    assert(set_fault(n.sets@[0], 0, n.node_size) is None);
    reveal_with_fuel(sets_fault, 2);
    assert(!too_much(n));
}

/// A node that was loaded from its extent is read without a fault where the
/// positions of its entries rise.
pub proof fn lemma_loaded_read(n: BtreeNode, level: u8, x: ExtentView)
    requires
        n.wf(),
        n.is_loaded(level, x),
        rising(x.entries),
    ensures
        read_fault(n) is None,
{
    n.lemma_all();
    lemma_packed_read(n, x.entries);
}

} // verus!
