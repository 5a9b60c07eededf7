//! An immutable block of entries. Entry `i` is stored from `offsets[i]` up to
//! the next entry's offset (or the end of the buffer) as
//! `[overlap: u16 LE][diff: u16 LE][key suffix: diff bytes][value]`; its key
//! is the first `overlap` bytes of the base key (the first entry's key)
//! followed by the suffix.

use vstd::prelude::*;
use bytes::Bytes;
use crate::buffer::{bytes_as_slice, bytes_content, bytes_slice, empty_bytes};
use crate::comparator::{key_lt, lemma_key_lt_trans, VersionedComparator};
use core::cmp::Ordering;

verus! {

/// Bytes taken by an entry header.
pub const HEADER_LEN: usize = 4;

/// The little-endian value of two bytes.
pub open spec fn le16(lo: u8, hi: u8) -> int {
    lo as int + 256 * hi as int
}

/// Per-entry metadata: how many leading key bytes are shared with the base
/// key, and how many key bytes are stored explicitly.
pub struct Header {
    pub overlap: u16,
    pub diff: u16,
}

impl Header {
    /// Reads the header stored at `buf[pos..pos + 4]`.
    pub fn decode(buf: &[u8], pos: usize) -> (r: Header)
        requires
            pos + HEADER_LEN <= buf@.len(),
        ensures
            r.overlap == le16(buf@[pos as int], buf@[pos + 1]),
            r.diff == le16(buf@[pos + 2], buf@[pos + 3]),
    {
        let overlap = buf[pos] as u16 + (buf[pos + 1] as u16) * 256;
        let diff = buf[pos + 2] as u16 + (buf[pos + 3] as u16) * 256;
        Header { overlap, diff }
    }

    /// Appends the four bytes of this header to `buf`.
    pub fn encode(&self, buf: &mut Vec<u8>)
        ensures
            final(buf)@ == old(buf)@ + seq![
                (self.overlap % 256) as u8,
                (self.overlap / 256) as u8,
                (self.diff % 256) as u8,
                (self.diff / 256) as u8,
            ],
    {
        buf.push((self.overlap % 256) as u8);
        buf.push((self.overlap / 256) as u8);
        buf.push((self.diff % 256) as u8);
        buf.push((self.diff / 256) as u8);
    }
}

/// Decoding what `encode` wrote gives the header back.
pub proof fn lemma_header_round_trip(h: Header, before: Seq<u8>, after: Seq<u8>)
    requires
        after == before + seq![
            (h.overlap % 256) as u8,
            (h.overlap / 256) as u8,
            (h.diff % 256) as u8,
            (h.diff / 256) as u8,
        ],
    ensures
        le16(after[before.len() as int], after[before.len() + 1int]) == h.overlap,
        le16(after[before.len() + 2int], after[before.len() + 3int]) == h.diff,
{
    let n = before.len() as int;
    assert(after[n] == (h.overlap % 256) as u8);
    assert(after[n + 1] == (h.overlap / 256) as u8);
    assert(after[n + 2] == (h.diff % 256) as u8);
    assert(after[n + 3] == (h.diff / 256) as u8);
}

/// End (exclusive) of entry `i`.
pub open spec fn entry_end(data: Seq<u8>, offsets: Seq<usize>, i: int) -> int {
    if i + 1 < offsets.len() { offsets[i + 1] as int } else { data.len() as int }
}

/// The encoded bytes of entry `i`.
pub open spec fn entry_bytes(data: Seq<u8>, offsets: Seq<usize>, i: int) -> Seq<u8> {
    data.subrange(offsets[i] as int, entry_end(data, offsets, i))
}

pub open spec fn overlap_of(e: Seq<u8>) -> int {
    le16(e[0], e[1])
}

pub open spec fn diff_of(e: Seq<u8>) -> int {
    le16(e[2], e[3])
}

pub open spec fn suffix_of(e: Seq<u8>) -> Seq<u8> {
    e.subrange(HEADER_LEN as int, HEADER_LEN + diff_of(e))
}

pub open spec fn value_of(e: Seq<u8>) -> Seq<u8> {
    e.subrange(HEADER_LEN + diff_of(e), e.len() as int)
}

/// Entry `i` lies inside the buffer and holds a whole header and key suffix.
pub open spec fn entry_framed(data: Seq<u8>, offsets: Seq<usize>, i: int) -> bool {
    &&& offsets[i] <= entry_end(data, offsets, i) <= data.len()
    &&& entry_end(data, offsets, i) - offsets[i] >= HEADER_LEN
    &&& HEADER_LEN + diff_of(entry_bytes(data, offsets, i)) <= entry_end(data, offsets, i)
        - offsets[i]
}

/// The key of the first entry, from which the others share a prefix.
pub open spec fn base_key_of(data: Seq<u8>, offsets: Seq<usize>) -> Seq<u8> {
    if offsets.len() == 0 {
        Seq::empty()
    } else {
        suffix_of(entry_bytes(data, offsets, 0))
    }
}

pub open spec fn key_of(data: Seq<u8>, offsets: Seq<usize>, i: int) -> Seq<u8> {
    let e = entry_bytes(data, offsets, i);
    base_key_of(data, offsets).take(overlap_of(e)) + suffix_of(e)
}

pub open spec fn value_at(data: Seq<u8>, offsets: Seq<usize>, i: int) -> Seq<u8> {
    value_of(entry_bytes(data, offsets, i))
}

/// Entry `i` is framed and shares no more than the whole base key.
pub open spec fn entry_valid(data: Seq<u8>, offsets: Seq<usize>, i: int) -> bool {
    &&& entry_framed(data, offsets, i)
    &&& overlap_of(entry_bytes(data, offsets, i)) <= base_key_of(data, offsets).len()
}

/// A buffer and offset table that make a block: every entry is valid, the
/// first shares nothing, and keys strictly ascend in the versioned order.
pub open spec fn parts_well_formed(data: Seq<u8>, offsets: Seq<usize>) -> bool {
    &&& offsets.len() < isize::MAX
    &&& forall|i: int| 0 <= i < offsets.len() ==> #[trigger] entry_valid(data, offsets, i)
    &&& offsets.len() > 0 ==> overlap_of(entry_bytes(data, offsets, 0)) == 0
    &&& forall|i: int|
        0 <= i && i + 1 < offsets.len() ==> key_lt(
            #[trigger] key_of(data, offsets, i),
            key_of(data, offsets, i + 1),
        )
}

/// Appends `src[lo..hi]` to `dst`.
fn append_range(dst: &mut Vec<u8>, src: &[u8], lo: usize, hi: usize)
    requires
        lo <= hi <= src@.len(),
    ensures
        final(dst)@ == old(dst)@ + src@.subrange(lo as int, hi as int),
{
    let mut i = lo;
    while i < hi
        invariant
            lo <= i <= hi <= src@.len(),
            dst@ == old(dst)@ + src@.subrange(lo as int, i as int),
        decreases hi - i,
    {
        dst.push(src[i]);
        assert(src@.subrange(lo as int, i + 1) =~= src@.subrange(lo as int, i as int) + seq![
            src@[i as int],
        ]);
        i = i + 1;
    }
}

/// Whether entry `i` of `data` is framed.
fn check_framing(data: &[u8], offsets: &Vec<usize>, i: usize) -> (r: bool)
    requires
        i < offsets@.len(),
    ensures
        r == entry_framed(data@, offsets@, i as int),
{
    let n = offsets.len();
    let start = offsets[i];
    let end = if i + 1 < n {
        offsets[i + 1]
    } else {
        data.len()
    };
    if start > end || end > data.len() || end - start < HEADER_LEN {
        return false;
    }
    let h = Header::decode(data, start);
    let ghost e = entry_bytes(data@, offsets@, i as int);
    assert(e[0] == data@[start as int] && e[1] == data@[start + 1]);
    assert(e[2] == data@[start + 2] && e[3] == data@[start + 3]);
    HEADER_LEN + (h.diff as usize) <= end - start
}

pub struct Block {
    data: Bytes,
    offsets: Vec<usize>,
    base_key: Bytes,
}

impl Block {
    pub closed spec fn data_view(&self) -> Seq<u8> {
        bytes_content(self.data)
    }

    pub closed spec fn offsets_view(&self) -> Seq<usize> {
        self.offsets@
    }

    pub closed spec fn base_view(&self) -> Seq<u8> {
        bytes_content(self.base_key)
    }

    pub open spec fn well_formed(&self) -> bool {
        &&& parts_well_formed(self.data_view(), self.offsets_view())
        &&& self.base_view() == base_key_of(self.data_view(), self.offsets_view())
    }

    pub open spec fn spec_len(&self) -> nat {
        self.offsets_view().len()
    }

    /// The keys of the entries, in order.
    pub open spec fn keys(&self) -> Seq<Seq<u8>> {
        Seq::new(self.spec_len(), |i: int| key_of(self.data_view(), self.offsets_view(), i))
    }

    /// The values of the entries, in order.
    pub open spec fn values(&self) -> Seq<Seq<u8>> {
        Seq::new(self.spec_len(), |i: int| value_at(self.data_view(), self.offsets_view(), i))
    }

    pub open spec fn spec_base_key(&self) -> Seq<u8> {
        base_key_of(self.data_view(), self.offsets_view())
    }

    pub open spec fn spec_raw_entry(&self, i: int) -> Seq<u8> {
        entry_bytes(self.data_view(), self.offsets_view(), i)
    }

    /// Takes an encoded buffer and the offset of each entry in it. Gives
    /// `None` unless they make a well-formed block.
    pub fn new(data: Bytes, offsets: Vec<usize>) -> (r: Option<Block>)
        ensures
            r is Some <==> parts_well_formed(bytes_content(data), offsets@),
            r matches Some(b) ==> {
                &&& b.well_formed()
                &&& b.data_view() == bytes_content(data)
                &&& b.offsets_view() == offsets@
            },
    {
        let ghost dv = bytes_content(data);
        let n = offsets.len();
        if n >= isize::MAX as usize {
            return None;
        }
        if n == 0 {
            let base_key = empty_bytes();
            return Some(Block { data, offsets, base_key });
        }
        let d = bytes_as_slice(&data);
        let dl = d.len();
        if !check_framing(d, &offsets, 0) {
            assert(!entry_valid(dv, offsets@, 0));
            return None;
        }
        let h0 = Header::decode(d, offsets[0]);
        let ghost e0 = entry_bytes(dv, offsets@, 0);
        assert(e0[0] == d@[offsets@[0] as int] && e0[1] == d@[offsets@[0] + 1]);
        assert(e0[2] == d@[offsets@[0] + 2] && e0[3] == d@[offsets@[0] + 3]);
        if h0.overlap != 0 {
            return None;
        }
        let blo = offsets[0] + HEADER_LEN;
        let bhi = blo + h0.diff as usize;
        let mut base: Vec<u8> = Vec::new();
        append_range(&mut base, d, blo, bhi);
        assert(base@ =~= base_key_of(dv, offsets@));
        let mut prev: Vec<u8> = Vec::new();
        let mut i: usize = 0;
        while i < n
            invariant
                n == offsets@.len(),
                n < isize::MAX,
                d@ == dv,
                dv == bytes_content(data),
                dl == d@.len(),
                base@ == base_key_of(dv, offsets@),
                overlap_of(entry_bytes(dv, offsets@, 0)) == 0,
                i <= n,
                forall|j: int| 0 <= j < i ==> entry_valid(dv, offsets@, j),
                forall|j: int|
                    0 <= j && j + 1 < i ==> key_lt(
                        #[trigger] key_of(dv, offsets@, j),
                        key_of(dv, offsets@, j + 1),
                    ),
                i > 0 ==> prev@ == key_of(dv, offsets@, i - 1),
            decreases n - i,
        {
            if !check_framing(d, &offsets, i) {
                assert(!entry_valid(dv, offsets@, i as int));
                assert(!parts_well_formed(dv, offsets@));
                return None;
            }
            let start = offsets[i];
            let h = Header::decode(d, start);
            let ghost e = entry_bytes(dv, offsets@, i as int);
            assert(e[0] == d@[start as int] && e[1] == d@[start + 1]);
            assert(e[2] == d@[start + 2] && e[3] == d@[start + 3]);
            if h.overlap as usize > base.len() {
                assert(!entry_valid(dv, offsets@, i as int));
                assert(!parts_well_formed(dv, offsets@));
                return None;
            }
            let mut cur: Vec<u8> = Vec::new();
            append_range(&mut cur, &base, 0, h.overlap as usize);
            append_range(&mut cur, d, start + HEADER_LEN, start + HEADER_LEN + h.diff as usize);
            assert(suffix_of(e) =~= d@.subrange(
                start + HEADER_LEN,
                start + HEADER_LEN + h.diff as int,
            ));
            assert(cur@ =~= key_of(dv, offsets@, i as int));
            if i > 0 {
                match VersionedComparator::compare_key(&prev, &cur) {
                    Ordering::Less => {},
                    _ => {
                        assert(!key_lt(key_of(dv, offsets@, i - 1), key_of(dv, offsets@, i as int)));
                        return None;
                    },
                }
            }
            prev = cur;
            i = i + 1;
        }
        let base_key = bytes_slice(&data, blo, bhi);
        assert(bytes_content(base_key) =~= base_key_of(dv, offsets@));
        Some(Block { data, offsets, base_key })
    }

    /// Number of entries.
    pub fn len(&self) -> (r: usize)
        ensures
            r == self.spec_len(),
    {
        self.offsets.len()
    }

    /// The encoded bytes of entry `i`, sharing the block's memory.
    pub fn raw_entry(&self, i: usize) -> (r: Bytes)
        requires
            self.well_formed(),
            i < self.spec_len(),
        ensures
            bytes_content(r) == self.spec_raw_entry(i as int),
    {
        assert(entry_valid(self.data_view(), self.offsets_view(), i as int));
        let end = if i + 1 < self.offsets.len() {
            self.offsets[i + 1]
        } else {
            bytes_as_slice(&self.data).len()
        };
        bytes_slice(&self.data, self.offsets[i], end)
    }

    /// The key of the first entry.
    pub fn base_key(&self) -> (r: &[u8])
        requires
            self.well_formed(),
        ensures
            r@ == self.spec_base_key(),
    {
        bytes_as_slice(&self.base_key)
    }
}

/// The keys of a well-formed block strictly ascend, not only neighbour by
/// neighbour.
pub proof fn lemma_keys_ascending(b: Block, i: int, j: int)
    requires
        b.well_formed(),
        0 <= i < j < b.spec_len(),
    ensures
        key_lt(b.keys()[i], b.keys()[j]),
    decreases j - i,
{
    let (d, o) = (b.data_view(), b.offsets_view());
    assert(key_lt(key_of(d, o, j - 1), key_of(d, o, j)));
    if j > i + 1 {
        lemma_keys_ascending(b, i, j - 1);
        lemma_key_lt_trans(b.keys()[i], b.keys()[j - 1], b.keys()[j]);
    }
}

} // verus!
