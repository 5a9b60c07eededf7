//! The one order on stored keys. A stored key is a user key followed by an
//! eight-byte version suffix; keys compare by user key first, then by
//! version bytes. A key shorter than the suffix is all version.

use vstd::prelude::*;
use core::cmp::Ordering;

verus! {

/// Length of the version suffix that ends every full stored key.
pub const VERSION_LEN: usize = 8;

/// Lexicographic order on byte strings; a proper prefix comes first.
pub open spec fn lex_cmp(a: Seq<u8>, b: Seq<u8>) -> Ordering
    decreases a.len(),
{
    if a.len() == 0 {
        if b.len() == 0 { Ordering::Equal } else { Ordering::Less }
    } else if b.len() == 0 {
        Ordering::Greater
    } else if a[0] < b[0] {
        Ordering::Less
    } else if a[0] > b[0] {
        Ordering::Greater
    } else {
        lex_cmp(a.drop_first(), b.drop_first())
    }
}

/// Where the user key ends and the version suffix begins.
pub open spec fn split_point(k: Seq<u8>) -> int {
    if k.len() >= VERSION_LEN { k.len() - VERSION_LEN } else { 0 }
}

pub open spec fn user_part(k: Seq<u8>) -> Seq<u8> {
    k.take(split_point(k))
}

pub open spec fn version_part(k: Seq<u8>) -> Seq<u8> {
    k.skip(split_point(k))
}

/// The versioned key order: user keys lexicographically, then versions.
pub open spec fn key_cmp(a: Seq<u8>, b: Seq<u8>) -> Ordering {
    match lex_cmp(user_part(a), user_part(b)) {
        Ordering::Equal => lex_cmp(version_part(a), version_part(b)),
        o => o,
    }
}

pub open spec fn key_lt(a: Seq<u8>, b: Seq<u8>) -> bool {
    key_cmp(a, b) == Ordering::Less
}

pub proof fn lemma_lex_equal(a: Seq<u8>, b: Seq<u8>)
    ensures
        lex_cmp(a, b) == Ordering::Equal <==> a == b,
    decreases a.len(),
{
    if a.len() > 0 && b.len() > 0 && a[0] == b[0] {
        lemma_lex_equal(a.drop_first(), b.drop_first());
        if a.drop_first() == b.drop_first() {
            assert(a =~= seq![a[0]] + a.drop_first());
            assert(b =~= seq![b[0]] + b.drop_first());
        }
        if a == b {
            assert(a.drop_first() == b.drop_first());
        }
    } else if a.len() == 0 && b.len() == 0 {
        assert(a =~= b);
    }
}

pub proof fn lemma_lex_flip(a: Seq<u8>, b: Seq<u8>)
    ensures
        lex_cmp(a, b) == Ordering::Less <==> lex_cmp(b, a) == Ordering::Greater,
    decreases a.len(),
{
    if a.len() > 0 && b.len() > 0 && a[0] == b[0] {
        lemma_lex_flip(a.drop_first(), b.drop_first());
    }
}

pub proof fn lemma_lex_trans(a: Seq<u8>, b: Seq<u8>, c: Seq<u8>)
    requires
        lex_cmp(a, b) == Ordering::Less,
        lex_cmp(b, c) == Ordering::Less,
    ensures
        lex_cmp(a, c) == Ordering::Less,
    decreases a.len(),
{
    if a.len() > 0 && b.len() > 0 && c.len() > 0 && a[0] == b[0] && b[0] == c[0] {
        lemma_lex_trans(a.drop_first(), b.drop_first(), c.drop_first());
    }
}

proof fn lemma_split(k: Seq<u8>)
    ensures
        k == user_part(k) + version_part(k),
{
    assert(k =~= user_part(k) + version_part(k));
}

/// Two keys compare equal exactly when they are the same bytes.
pub proof fn lemma_key_cmp_equal(a: Seq<u8>, b: Seq<u8>)
    ensures
        key_cmp(a, b) == Ordering::Equal <==> a == b,
{
    lemma_lex_equal(user_part(a), user_part(b));
    lemma_lex_equal(version_part(a), version_part(b));
    lemma_split(a);
    lemma_split(b);
}

/// `a` comes before `b` exactly when `b` comes after `a`.
pub proof fn lemma_key_cmp_flip(a: Seq<u8>, b: Seq<u8>)
    ensures
        key_cmp(a, b) == Ordering::Less <==> key_cmp(b, a) == Ordering::Greater,
{
    lemma_lex_flip(user_part(a), user_part(b));
    lemma_lex_flip(user_part(b), user_part(a));
    lemma_lex_flip(version_part(a), version_part(b));
    lemma_lex_flip(version_part(b), version_part(a));
    lemma_lex_equal(user_part(a), user_part(b));
    lemma_lex_equal(user_part(b), user_part(a));
}

/// The key order is transitive.
pub proof fn lemma_key_lt_trans(a: Seq<u8>, b: Seq<u8>, c: Seq<u8>)
    requires
        key_lt(a, b),
        key_lt(b, c),
    ensures
        key_lt(a, c),
{
    let (ua, ub, uc) = (user_part(a), user_part(b), user_part(c));
    lemma_lex_equal(ua, ub);
    lemma_lex_equal(ub, uc);
    lemma_lex_equal(ua, uc);
    if lex_cmp(ua, ub) == Ordering::Less && lex_cmp(ub, uc) == Ordering::Less {
        lemma_lex_trans(ua, ub, uc);
    } else if lex_cmp(ua, ub) == Ordering::Equal && lex_cmp(ub, uc) == Ordering::Equal {
        lemma_lex_trans(version_part(a), version_part(b), version_part(c));
    }
}

/// Lexicographic comparison of `a[a_lo..a_hi]` with `b[b_lo..b_hi]`.
fn compare_ranges(a: &[u8], a_lo: usize, a_hi: usize, b: &[u8], b_lo: usize, b_hi: usize) -> (r:
    Ordering)
    requires
        a_lo <= a_hi <= a@.len(),
        b_lo <= b_hi <= b@.len(),
    ensures
        r == lex_cmp(a@.subrange(a_lo as int, a_hi as int), b@.subrange(b_lo as int, b_hi as int)),
{
    let ghost sa = a@.subrange(a_lo as int, a_hi as int);
    let ghost sb = b@.subrange(b_lo as int, b_hi as int);
    let la = a_hi - a_lo;
    let lb = b_hi - b_lo;
    let mut i: usize = 0;
    assert(sa.skip(0) =~= sa);
    assert(sb.skip(0) =~= sb);
    while i < la && i < lb
        invariant
            a_lo <= a_hi <= a@.len(),
            b_lo <= b_hi <= b@.len(),
            la == a_hi - a_lo,
            lb == b_hi - b_lo,
            sa == a@.subrange(a_lo as int, a_hi as int),
            sb == b@.subrange(b_lo as int, b_hi as int),
            i <= la,
            i <= lb,
            lex_cmp(sa, sb) == lex_cmp(sa.skip(i as int), sb.skip(i as int)),
        decreases la - i,
    {
        let x = a[a_lo + i];
        let y = b[b_lo + i];
        assert(sa.skip(i as int)[0] == x);
        assert(sb.skip(i as int)[0] == y);
        if x < y {
            return Ordering::Less;
        } else if x > y {
            return Ordering::Greater;
        }
        assert(sa.skip(i as int).drop_first() =~= sa.skip(i + 1));
        assert(sb.skip(i as int).drop_first() =~= sb.skip(i + 1));
        i = i + 1;
    }
    if i < la {
        Ordering::Greater
    } else if i < lb {
        Ordering::Less
    } else {
        Ordering::Equal
    }
}

/// The comparator that every seek of the library goes by.
pub struct VersionedComparator;

impl VersionedComparator {
    /// Compares two stored keys in the versioned key order.
    pub fn compare_key(a: &[u8], b: &[u8]) -> (r: Ordering)
        ensures
            r == key_cmp(a@, b@),
    {
        let sa: usize = if a.len() >= VERSION_LEN { a.len() - VERSION_LEN } else { 0 };
        let sb: usize = if b.len() >= VERSION_LEN { b.len() - VERSION_LEN } else { 0 };
        assert(a@.subrange(0, sa as int) =~= user_part(a@));
        assert(b@.subrange(0, sb as int) =~= user_part(b@));
        assert(a@.subrange(sa as int, a@.len() as int) =~= version_part(a@));
        assert(b@.subrange(sb as int, b@.len() as int) =~= version_part(b@));
        match compare_ranges(a, 0, sa, b, 0, sb) {
            Ordering::Equal => compare_ranges(a, sa, a.len(), b, sb, b.len()),
            o => o,
        }
    }
}

} // verus!
