//! A cursor over one block: binary-search seeks, stepping both ways, and
//! key reconstruction that copies only the change in the shared prefix.

use vstd::prelude::*;
use std::sync::Arc;
use bytes::{Bytes, BytesMut};
use crate::block::{entry_valid, lemma_keys_ascending, Block, Header, HEADER_LEN};
use crate::buffer::{
    bytes_as_slice, bytes_content, bytes_mut_as_slice, bytes_mut_clear, bytes_mut_content,
    bytes_mut_extend, bytes_mut_new, bytes_mut_truncate, bytes_slice, empty_bytes,
};
use crate::comparator::{
    key_cmp, key_lt, lemma_key_cmp_equal, lemma_key_cmp_flip, lemma_key_lt_trans,
    VersionedComparator,
};
use core::cmp::Ordering;

verus! {

/// Where a seek's search window starts (or, for `seek_le`, ends).
pub enum SeekPos {
    /// The whole block.
    Origin,
    /// Bounded by the cursor's current position.
    Current,
}

/// Whether a probe at a key `k` lies on the "before" side of `target`: `k`
/// comes before it, or, when `inclusive`, equals it.
pub open spec fn probe_holds(k: Seq<u8>, target: Seq<u8>, inclusive: bool) -> bool {
    key_cmp(k, target) == Ordering::Less || (inclusive && key_cmp(k, target) == Ordering::Equal)
}

/// `p` splits `keys[start..end]` into keys on the "before" side of `target`
/// and keys that are not.
pub open spec fn is_partition_point(
    keys: Seq<Seq<u8>>,
    target: Seq<u8>,
    inclusive: bool,
    start: int,
    end: int,
    p: int,
) -> bool {
    &&& start <= p <= end
    &&& forall|i: int| start <= i < p ==> probe_holds(#[trigger] keys[i], target, inclusive)
    &&& forall|i: int| p <= i < end ==> !probe_holds(#[trigger] keys[i], target, inclusive)
}

/// The first position a forward seek may land on.
pub open spec fn seek_start(whence: SeekPos, idx: int) -> int {
    match whence {
        SeekPos::Origin => 0,
        SeekPos::Current => idx,
    }
}

/// The end (exclusive) of the window a backward seek searches.
pub open spec fn seek_le_end(whence: SeekPos, idx: int, len: int) -> int {
    match whence {
        SeekPos::Origin => len,
        SeekPos::Current => if idx < len { idx + 1 } else { len },
    }
}

/// The position `next` moves to from `i` in a block of `len` entries.
pub open spec fn next_index(i: int, len: int) -> int {
    if i < len { i + 1 } else { i }
}

/// The position `prev` moves to from `i`.
pub open spec fn prev_index(i: int) -> int {
    if i >= 0 { i - 1 } else { -1 }
}

/// The position after `n` calls of `next` from `i`.
pub open spec fn after_nexts(i: int, len: int, n: nat) -> int
    decreases n,
{
    if n == 0 { i } else { next_index(after_nexts(i, len, (n - 1) as nat), len) }
}

/// The position after `n` calls of `prev` from `i`.
pub open spec fn after_prevs(i: int, n: nat) -> int
    decreases n,
{
    if n == 0 { i } else { prev_index(after_prevs(i, (n - 1) as nat)) }
}

/// In a well-formed block the probe holds on a prefix of the entries.
proof fn lemma_probe_monotone(b: Block, target: Seq<u8>, inclusive: bool, i: int, j: int)
    requires
        b.well_formed(),
        0 <= i < j < b.spec_len(),
        probe_holds(b.keys()[j], target, inclusive),
    ensures
        probe_holds(b.keys()[i], target, inclusive),
{
    lemma_keys_ascending(b, i, j);
    lemma_key_cmp_equal(b.keys()[j], target);
    if key_lt(b.keys()[j], target) {
        lemma_key_lt_trans(b.keys()[i], b.keys()[j], target);
    }
}

/// Cursor over a shared, immutable block.
pub struct BlockIterator {
    /// Current position: -1 before the first entry, the entry count after
    /// the last one.
    idx: isize,
    /// Key of the current entry.
    key: BytesMut,
    /// Value of the current entry, sharing the block's memory.
    val: Bytes,
    block: Arc<Block>,
    /// The overlap that built `key`; its first `prev_overlap` bytes are those
    /// of the base key.
    prev_overlap: u16,
}

impl BlockIterator {
    pub closed spec fn index(&self) -> int {
        self.idx as int
    }

    pub closed spec fn block(&self) -> Block {
        *self.block
    }

    pub open spec fn spec_is_valid(&self) -> bool {
        0 <= self.index() < self.block().spec_len()
    }

    pub closed spec fn well_formed(&self) -> bool {
        let b = self.block();
        let po = self.prev_overlap as int;
        &&& b.well_formed()
        &&& -1 <= self.idx <= b.spec_len()
        &&& po <= bytes_mut_content(self.key).len()
        &&& po <= b.spec_base_key().len()
        &&& bytes_mut_content(self.key).take(po) == b.spec_base_key().take(po)
        &&& self.spec_is_valid() ==> {
            &&& bytes_mut_content(self.key) == b.keys()[self.index()]
            &&& bytes_content(self.val) == b.values()[self.index()]
        }
    }

    /// A cursor over `block`, before its first entry.
    pub fn new(block: Arc<Block>) -> (r: Self)
        requires
            block.well_formed(),
        ensures
            r.well_formed(),
            r.block() == *block,
            r.index() == -1,
    {
        let r = BlockIterator { idx: -1, key: bytes_mut_new(), val: empty_bytes(), block, prev_overlap: 0 };
        assert(bytes_mut_content(r.key).take(0) =~= r.block().spec_base_key().take(0));
        r
    }

    /// Points the cursor at another block and clears its state.
    pub fn set_block(&mut self, block: Arc<Block>)
        requires
            block.well_formed(),
        ensures
            final(self).well_formed(),
            final(self).block() == *block,
            final(self).index() == -1,
    {
        self.idx = -1;
        self.prev_overlap = 0;
        bytes_mut_clear(&mut self.key);
        self.val = empty_bytes();
        self.block = block;
        assert(bytes_mut_content(self.key).take(0) =~= self.block().spec_base_key().take(0));
    }

    /// Moves to position `i`. When `i` names an entry, the key and value of
    /// that entry are loaded and the result is `true`; otherwise only the
    /// position changes.
    pub fn set_idx(&mut self, i: isize) -> (r: bool)
        requires
            old(self).well_formed(),
            -1 <= i <= old(self).block().spec_len(),
        ensures
            final(self).well_formed(),
            final(self).block() == old(self).block(),
            final(self).index() == i,
            r == final(self).spec_is_valid(),
    {
        self.idx = i;
        if i < 0 || i as usize >= self.block.len() {
            return false;
        }
        let ghost b = self.block();
        let ghost base = b.spec_base_key();
        let entry = self.block.raw_entry(i as usize);
        let es = bytes_as_slice(&entry);
        assert(entry_valid(b.data_view(), b.offsets_view(), i as int));
        let h = Header::decode(es, 0);
        let overlap = h.overlap as usize;
        let diff = h.diff as usize;
        let po = self.prev_overlap as usize;
        if h.overlap > self.prev_overlap {
            bytes_mut_truncate(&mut self.key, po);
            let base_key = self.block.base_key();
            bytes_mut_extend(&mut self.key, base_key, po, overlap);
            assert(bytes_mut_content(self.key) =~= base.take(overlap as int));
        } else {
            let ghost k = bytes_mut_content(self.key);
            assert(k.take(overlap as int) =~= k.take(po as int).take(overlap as int));
            assert(base.take(overlap as int) =~= base.take(po as int).take(overlap as int));
            bytes_mut_truncate(&mut self.key, overlap);
        }
        bytes_mut_extend(&mut self.key, es, HEADER_LEN, HEADER_LEN + diff);
        self.val = bytes_slice(&entry, HEADER_LEN + diff, es.len());
        self.prev_overlap = h.overlap;
        assert(bytes_mut_content(self.key) =~= b.keys()[i as int]);
        assert(bytes_content(self.val) =~= b.values()[i as int]);
        assert(bytes_mut_content(self.key).take(overlap as int) =~= base.take(overlap as int));
        true
    }

    /// Binary search over positions `start..end` for the first entry whose
    /// key is not on the "before" side of `target`. Every probe moves the
    /// cursor, so callers reposition it afterwards.
    fn partition_point(&mut self, start: usize, end: usize, target: &[u8], inclusive: bool) -> (r:
        usize)
        requires
            old(self).well_formed(),
            start <= end <= old(self).block().spec_len(),
        ensures
            final(self).well_formed(),
            final(self).block() == old(self).block(),
            is_partition_point(
                final(self).block().keys(),
                target@,
                inclusive,
                start as int,
                end as int,
                r as int,
            ),
    {
        let ghost b = self.block();
        let mut lo = start;
        let mut hi = end;
        while lo < hi
            invariant
                self.well_formed(),
                self.block() == b,
                start <= lo <= hi <= end <= b.spec_len(),
                forall|i: int| start <= i < lo ==> probe_holds(#[trigger] b.keys()[i], target@, inclusive),
                forall|i: int| hi <= i < end ==> !probe_holds(#[trigger] b.keys()[i], target@, inclusive),
            decreases hi - lo,
        {
            let mid = lo + (hi - lo) / 2;
            self.set_idx(mid as isize);
            let ret = match VersionedComparator::compare_key(bytes_mut_as_slice(&self.key), target) {
                Ordering::Less => true,
                Ordering::Equal => inclusive,
                Ordering::Greater => false,
            };
            if ret {
                assert forall|i: int| lo <= i <= mid implies probe_holds(
                    #[trigger] b.keys()[i],
                    target@,
                    inclusive,
                ) by {
                    if i < mid {
                        lemma_probe_monotone(b, target@, inclusive, i, mid as int);
                    }
                }
                lo = mid + 1;
            } else {
                assert forall|i: int| mid <= i < hi implies !probe_holds(
                    #[trigger] b.keys()[i],
                    target@,
                    inclusive,
                ) by {
                    if i > mid && probe_holds(b.keys()[i], target@, inclusive) {
                        lemma_probe_monotone(b, target@, inclusive, mid as int, i);
                    }
                }
                hi = mid;
            }
        }
        lo
    }

    /// Moves to the first entry whose key is not before `key`, searching from
    /// the first entry (`Origin`) or from the current one (`Current`). Lands
    /// after the last entry when there is none. A `Current` seek from before
    /// the first entry stays there.
    pub fn seek(&mut self, key: &[u8], whence: SeekPos)
        requires
            old(self).well_formed(),
        ensures
            final(self).well_formed(),
            final(self).block() == old(self).block(),
            seek_start(whence, old(self).index()) < 0 ==> final(self).index() == -1,
            seek_start(whence, old(self).index()) >= 0 ==> is_partition_point(
                final(self).block().keys(),
                key@,
                false,
                seek_start(whence, old(self).index()),
                final(self).block().spec_len() as int,
                final(self).index(),
            ),
    {
        let start: usize = match whence {
            SeekPos::Origin => 0,
            SeekPos::Current => {
                if self.idx < 0 {
                    self.set_idx(-1);
                    return ;
                }
                self.idx as usize
            },
        };
        let len = self.block.len();
        let found = self.partition_point(start, len, key, false);
        self.set_idx(found as isize);
    }

    /// Moves to the last entry whose key is not after `key`, among all entries
    /// (`Origin`) or those up to the current one (`Current`). Lands before the
    /// first entry when there is none.
    pub fn seek_le(&mut self, key: &[u8], whence: SeekPos)
        requires
            old(self).well_formed(),
        ensures
            final(self).well_formed(),
            final(self).block() == old(self).block(),
            is_partition_point(
                final(self).block().keys(),
                key@,
                true,
                0,
                seek_le_end(whence, old(self).index(), final(self).block().spec_len() as int),
                final(self).index() + 1,
            ),
    {
        let len = self.block.len();
        let end: usize = match whence {
            SeekPos::Origin => len,
            SeekPos::Current => {
                if self.idx < len as isize {
                    (self.idx + 1) as usize
                } else {
                    len
                }
            },
        };
        let found = self.partition_point(0, end, key, true);
        self.set_idx(found as isize - 1);
    }

    /// Moves to the first entry.
    pub fn seek_to_first(&mut self)
        requires
            old(self).well_formed(),
        ensures
            final(self).well_formed(),
            final(self).block() == old(self).block(),
            final(self).index() == 0,
    {
        self.set_idx(0);
    }

    /// Moves to the last entry of a block that has one.
    pub fn seek_to_last(&mut self)
        requires
            old(self).well_formed(),
            old(self).block().spec_len() > 0,
        ensures
            final(self).well_formed(),
            final(self).block() == old(self).block(),
            final(self).index() == final(self).block().spec_len() - 1,
    {
        let len = self.block.len();
        self.set_idx(len as isize - 1);
    }

    /// The current key and value, or `None` off the entries.
    pub fn data(&self) -> (r: Option<(&[u8], &[u8])>)
        requires
            self.well_formed(),
        ensures
            r is Some <==> self.spec_is_valid(),
            r matches Some((k, v)) ==> {
                &&& k@ == self.block().keys()[self.index()]
                &&& v@ == self.block().values()[self.index()]
            },
    {
        if self.is_valid() {
            Some((bytes_mut_as_slice(&self.key), bytes_as_slice(&self.val)))
        } else {
            None
        }
    }

    /// The current key, or `None` off the entries.
    pub fn key(&self) -> (r: Option<&[u8]>)
        requires
            self.well_formed(),
        ensures
            r is Some <==> self.spec_is_valid(),
            r matches Some(k) ==> k@ == self.block().keys()[self.index()],
    {
        match self.data() {
            Some((k, _v)) => Some(k),
            None => None,
        }
    }

    /// The current value, or `None` off the entries.
    pub fn value(&self) -> (r: Option<&[u8]>)
        requires
            self.well_formed(),
        ensures
            r is Some <==> self.spec_is_valid(),
            r matches Some(v) ==> v@ == self.block().values()[self.index()],
    {
        match self.data() {
            Some((_k, v)) => Some(v),
            None => None,
        }
    }

    /// Whether the cursor is on the last entry.
    pub fn is_last(&self) -> (r: bool)
        requires
            self.well_formed(),
        ensures
            r == (self.index() >= 0 && self.index() == self.block().spec_len() - 1),
    {
        self.idx >= 0 && self.idx + 1 == self.block.len() as isize
    }

    /// Whether the cursor is on an entry.
    pub fn is_valid(&self) -> (r: bool)
        requires
            self.well_formed(),
        ensures
            r == self.spec_is_valid(),
    {
        self.idx >= 0 && self.idx < self.block.len() as isize
    }

    /// Steps forward; after the last entry the cursor stays there.
    pub fn next(&mut self) -> (r: bool)
        requires
            old(self).well_formed(),
        ensures
            final(self).well_formed(),
            final(self).block() == old(self).block(),
            final(self).index() == next_index(old(self).index(), old(self).block().spec_len() as int),
            r == final(self).spec_is_valid(),
    {
        let len = self.block.len() as isize;
        let i = if self.idx < len {
            self.idx + 1
        } else {
            len
        };
        self.set_idx(i)
    }

    /// Steps back; before the first entry the cursor stays there.
    pub fn prev(&mut self) -> (r: bool)
        requires
            old(self).well_formed(),
        ensures
            final(self).well_formed(),
            final(self).block() == old(self).block(),
            final(self).index() == prev_index(old(self).index()),
            r == final(self).spec_is_valid(),
    {
        let i = if self.idx >= 0 {
            self.idx - 1
        } else {
            -1
        };
        self.set_idx(i)
    }
}

/// Forward traversal: from the first entry, `n` calls of `next` reach entry
/// `n` while `n` is below the entry count, and the cursor leaves the entries
/// exactly at the call that makes `n` equal to it.
pub proof fn lemma_forward_traversal(len: nat, n: nat)
    requires
        n <= len,
    ensures
        after_nexts(0, len as int, n) == n,
        (0 <= after_nexts(0, len as int, n) < len) <==> n < len,
    decreases n,
{
    if n > 0 {
        lemma_forward_traversal(len, (n - 1) as nat);
    }
}

/// Backward traversal: from the last entry, `n` calls of `prev` reach entry
/// `len - 1 - n`; the cursor leaves the entries exactly at the `len`-th call.
pub proof fn lemma_backward_traversal(len: nat, n: nat)
    requires
        n <= len,
    ensures
        after_prevs(len - 1, n) == len - 1 - n,
        (0 <= after_prevs(len - 1, n) < len) <==> n < len,
    decreases n,
{
    if n > 0 {
        lemma_backward_traversal(len, (n - 1) as nat);
    }
}

/// A forward seek from the first entry lands on a stored key when asked for
/// it; on the larger neighbour for a key between two stored keys; on the
/// first entry for a key below all of them; after the last entry for a key
/// above all of them.
pub proof fn lemma_seek_correct(b: Block, target: Seq<u8>, p: int)
    requires
        b.well_formed(),
        is_partition_point(b.keys(), target, false, 0, b.spec_len() as int, p),
    ensures
        forall|j: int| 0 <= j < b.spec_len() && b.keys()[j] == target ==> p == j,
        forall|j: int|
            0 <= j && j + 1 < b.spec_len() && key_lt(#[trigger] b.keys()[j], target) && key_lt(
                target,
                b.keys()[j + 1],
            ) ==> p == j + 1,
        b.spec_len() > 0 && key_lt(target, b.keys()[0]) ==> p == 0,
        b.spec_len() > 0 && key_lt(b.keys()[b.spec_len() - 1], target) ==> p == b.spec_len(),
{
    let ks = b.keys();
    let len = b.spec_len() as int;
    assert forall|j: int| 0 <= j < len && ks[j] == target implies p == j by {
        lemma_key_cmp_equal(target, target);
        if p < j {
            lemma_keys_ascending(b, p, j);
        }
    }
    assert forall|j: int|
        0 <= j && j + 1 < len && key_lt(#[trigger] ks[j], target) && key_lt(
            target,
            ks[j + 1],
        ) implies p == j + 1 by {
        lemma_key_cmp_flip(target, ks[j + 1]);
        lemma_key_cmp_equal(target, ks[j + 1]);
    }
    if len > 0 && key_lt(target, ks[0]) {
        lemma_key_cmp_flip(target, ks[0]);
    }
}

/// A `Current` seek from entry `k` for a key not after entry `k`'s key stays
/// on entry `k`: the window `k..len` is never left backwards.
pub proof fn lemma_current_seek_bounded(b: Block, k: int, target: Seq<u8>, p: int)
    requires
        b.well_formed(),
        0 <= k < b.spec_len(),
        !key_lt(b.keys()[k], target),
        is_partition_point(b.keys(), target, false, k, b.spec_len() as int, p),
    ensures
        p == k,
{
}

/// A backward seek from the whole block lands on a stored key when asked for
/// it; before the first entry for a key below all of them; on the last entry
/// for a key above all of them.
pub proof fn lemma_seek_le_correct(b: Block, target: Seq<u8>, q: int)
    requires
        b.well_formed(),
        is_partition_point(b.keys(), target, true, 0, b.spec_len() as int, q + 1),
    ensures
        forall|j: int| 0 <= j < b.spec_len() && b.keys()[j] == target ==> q == j,
        b.spec_len() > 0 && key_lt(target, b.keys()[0]) ==> q == -1,
        b.spec_len() > 0 && key_lt(b.keys()[b.spec_len() - 1], target) ==> q == b.spec_len()
            - 1,
{
    let ks = b.keys();
    let len = b.spec_len() as int;
    assert forall|j: int| 0 <= j < len && ks[j] == target implies q == j by {
        lemma_key_cmp_equal(target, target);
        if q > j {
            lemma_keys_ascending(b, j, q);
            lemma_key_cmp_flip(target, ks[q]);
            lemma_key_cmp_equal(ks[q], target);
        }
    }
    if len > 0 && key_lt(target, ks[0]) {
        lemma_key_cmp_flip(target, ks[0]);
        lemma_key_cmp_equal(target, ks[0]);
    }
}

} // verus!
