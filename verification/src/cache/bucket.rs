//! Buckets: chains of cache lines searched by in-bucket key and key reminder.
use vstd::prelude::*;

use crate::bits::{
    bit, count_bits, highest_bit_below, lemma_bit_low, lemma_bit_nonzero, lemma_bit_shr1,
    lemma_count_bits_none, lemma_count_bits_shift, lemma_count_bits_split,
    lemma_highest_bit_below, lemma_lowest_bit_from, lemma_test_bit, lemma_usize_shr_bits,
    lowest_bit, lowest_bit_from, popcount,
};
use crate::bytes::bytes_eq;
use crate::cache::cl::{
    clear_entry_view, lemma_clear_entry_view, lemma_read_condid, lemma_set_entry_view,
    lemma_write_condid, lemma_write_free, read_condid, set_entry_view, write_condid, write_free,
    CacheDataEntry, ClCondidSlotsMask, ClSlot, ClView, TCacheLine,
};
use crate::cache::cl_store::{
    field_freed, field_get, field_or_empty, field_set, field_taken, opt_slice_view, opt_vec_view,
    ClIndex, ClStore, ClStoreView, PerClStore, PerClVecMemStore, PerClView,
};

verus! {

pub type InBktKey = u16;

pub type ValueType = [u8];

pub type KeyReminder<'a> = Option<&'a [u8]>;

/// Lookup tables over all byte values: lowest set bit, highest set bit and number of set bits.
pub struct Utility {
    pub first_set_bit: [i32; 256],
    pub last_set_bit: [i32; 256],
    pub num_set_bits: [u8; 256],
}

/// The index of the lowest set bit of `x`, or `-1` for `0`.
pub open spec fn first_set_bit_of(x: u8) -> int {
    if x == 0 {
        -1
    } else {
        lowest_bit(x)
    }
}

/// The index of the highest set bit of `x`, or `-1` for `0`.
pub open spec fn last_set_bit_of(x: u8) -> int {
    highest_bit_below(x, 8)
}

impl Utility {
    /// Every table entry `i` holds the lowest set bit, the highest set bit and the number of
    /// set bits of the byte `i` (`-1` for the bit indices of `0`).
    pub fn new() -> (u: Utility)
        ensures
            forall|i: int| 0 <= i < 256 ==> #[trigger] u.first_set_bit@[i] == first_set_bit_of(i as u8),
            forall|i: int| 0 <= i < 256 ==> #[trigger] u.last_set_bit@[i] == last_set_bit_of(i as u8),
            forall|i: int| 0 <= i < 256 ==> #[trigger] u.num_set_bits@[i] == popcount(i as u8),
    {
        let mut u = Utility {
            first_set_bit: [-1;256],
            last_set_bit: [-1;256],
            num_set_bits: [0u8;256],
        };
        let mut set_bit: Vec<u8> = Vec::new();
        let mut b: u8 = 0;
        while b < 8
            invariant
                b <= 8,
                set_bit@.len() == b,
                forall|j: int| 0 <= j < b ==> set_bit@[j] == 1u8 << (j as u8),
            decreases 8 - b,
        {
            set_bit.push(1u8 << b);
            b += 1;
        }
        let mut i: usize = 0;
        while i < 256
            invariant
                i <= 256,
                set_bit@.len() == 8,
                forall|j: int| 0 <= j < 8 ==> set_bit@[j] == 1u8 << (j as u8),
                forall|k: int| 0 <= k < i ==> #[trigger] u.first_set_bit@[k] == first_set_bit_of(k as u8),
                forall|k: int| 0 <= k < i ==> #[trigger] u.last_set_bit@[k] == last_set_bit_of(k as u8),
                forall|k: int| 0 <= k < i ==> #[trigger] u.num_set_bits@[k] == popcount(k as u8),
                forall|k: int| i <= k < 256 ==> #[trigger] u.first_set_bit@[k] == -1,
                forall|k: int| i <= k < 256 ==> #[trigger] u.last_set_bit@[k] == -1,
            decreases 256 - i,
        {
            let x: u8 = i as u8;
            proof {
                lemma_lowest_bit_from(x, 0);
                lemma_highest_bit_below(x, 8);
            }
            let n: u8 = if i == 0 {
                proof {
                    crate::bits::lemma_bit_consts();
                    lemma_count_bits_none(0u8, 0, 8);
                }
                0
            } else {
                proof {
                    if lowest_bit(x) == 8 {
                        assert forall|k: int| 0 <= k < 8 implies !bit(x, k) by {}
                        crate::bits::lemma_bit_nonzero(x);
                    }
                }
                // lowest set bit: scan upwards
                let mut j: usize = 0;
                while j < 8 && x & set_bit[j] == 0
                    invariant
                        j <= 8,
                        set_bit@.len() == 8,
                        forall|jj: int| 0 <= jj < 8 ==> set_bit@[jj] == 1u8 << (jj as u8),
                        forall|jj: int| 0 <= jj < j ==> !bit(x, jj),
                        lowest_bit(x) < 8,
                        bit(x, lowest_bit(x)),
                    decreases 8 - j,
                {
                    proof {
                        lemma_test_bit(x, j as u8);
                    }
                    j += 1;
                }
                proof {
                    if j < 8 {
                        lemma_test_bit(x, j as u8);
                    }
                    assert(j == lowest_bit(x));
                }
                u.first_set_bit[i] = j as i32;
                // highest set bit: scan downwards
                let mut h: usize = 0;
                while h < 8 && x & set_bit[7 - h] == 0
                    invariant
                        h <= 8,
                        set_bit@.len() == 8,
                        forall|jj: int| 0 <= jj < 8 ==> set_bit@[jj] == 1u8 << (jj as u8),
                        forall|jj: int| 8 - h <= jj < 8 ==> !bit(x, jj),
                        0 <= last_set_bit_of(x) < 8,
                        forall|jj: int| last_set_bit_of(x) < jj < 8 ==> !bit(x, jj),
                        bit(x, last_set_bit_of(x)),
                    decreases 8 - h,
                {
                    proof {
                        lemma_test_bit(x, (7 - h) as u8);
                    }
                    h += 1;
                }
                proof {
                    if h < 8 {
                        lemma_test_bit(x, (7 - h) as u8);
                    }
                    assert(7 - h == last_set_bit_of(x));
                }
                u.last_set_bit[i] = (7 - h) as i32;
                // number of set bits: one more than in what lies above the lowest set bit
                let rest: usize = i >> (j + 1);
                proof {
                    lemma_usize_shr_bits(i, (j + 1) as usize);
                    lemma_count_bits_split(x, 0, j as int, 8);
                    lemma_count_bits_split(x, j as int, j + 1, 8);
                    lemma_count_bits_none(x, 0, j as int);
                    lemma_count_bits_split(x, j + 1, 8, j + 9);
                    lemma_count_bits_none(x, 8, j + 9);
                    assert(rest < i) by {
                        crate::bits::lemma_usize_shr_lt(i, (j + 1) as usize);
                    }
                    assert(forall|jj: int| 0 <= jj ==> #[trigger] bit(rest as u8, jj) == bit(x, jj + (j + 1)));
                    lemma_count_bits_shift(x, rest as u8, j + 1, 8);
                    assert(count_bits(x, j as int, j as int) == 0);
                    assert(count_bits(x, j as int, j + 1) == 1);
                    assert(popcount(x) == 1 + popcount(rest as u8));
                    assert(u.num_set_bits@[rest as int] == popcount(rest as u8));
                    crate::bits::lemma_count_bits_le(x, 0, 8);
                }
                1 + u.num_set_bits[rest]
            };
            u.num_set_bits[i] = n;
            i += 1;
        }
        u
    }
}


pub struct Bucket {
    pub head: ClIndex,
    pub curr_first_tms: u16,
    pub curr_last_tms: u16,
}

#[derive(Clone, Copy, PartialEq, Eq, Debug)]
pub enum InsertRes {
    EntryExists((u32, u16)),
    Success((u32, u16)),
    OutOfSpace,
}

#[derive(Debug)]
pub enum FindRes<'a> {
    NotFound,
    Found((ClSlot, ClIndex, CacheDataEntry, (Option<&'a [u8]>, Option<&'a [u8]>, Option<&'a [u8]>))),
}

#[derive(Debug)]
pub enum DelRes {
    NotFound,
    Found(
        (ClSlot, ClIndex, CacheDataEntry, (Option<Vec<u8>>, Option<Vec<u8>>, Option<Vec<u8>>)),
    ),
}

/// `path` lists the lines of the chain that starts at `head` and follows the `next` links
/// until `invalid_cl`; each listed line exists and has a byte store.
pub open spec fn is_chain(s: ClStoreView, head: u32, invalid_cl: u32, path: Seq<u32>) -> bool {
    &&& (path.len() == 0) == (head == invalid_cl)
    &&& path.len() > 0 ==> path[0] == head && s.cls[path.last() as int].next == invalid_cl
    &&& forall|k: int|
        0 <= k < path.len() ==> #[trigger] path[k] != invalid_cl && (path[k] as int) < s.cls.len()
            && s.stores[path[k] as int] is Some
    &&& forall|k: int| 0 <= k < path.len() - 1 ==> s.cls[#[trigger] path[k] as int].next == path[k + 1]
}

/// The chain from `head` ends, and all its lines exist and have byte stores.
pub open spec fn has_chain(s: ClStoreView, head: u32, invalid_cl: u32) -> bool {
    exists|path: Seq<u32>| is_chain(s, head, invalid_cl, path)
}

/// The lines of the chain from `head`.
pub open spec fn chain(s: ClStoreView, head: u32, invalid_cl: u32) -> Seq<u32> {
    choose|path: Seq<u32>| is_chain(s, head, invalid_cl, path)
}

/// Two chains from the same head agree up to position `k`.
proof fn lemma_chain_prefix_eq(s: ClStoreView, head: u32, invalid_cl: u32, p1: Seq<u32>, p2: Seq<u32>, k: int)
    requires
        is_chain(s, head, invalid_cl, p1),
        is_chain(s, head, invalid_cl, p2),
        0 <= k < p1.len(),
        k < p2.len(),
    ensures
        p1[k] == p2[k],
    decreases k,
{
    if k > 0 {
        lemma_chain_prefix_eq(s, head, invalid_cl, p1, p2, k - 1);
        assert(s.cls[p1[k - 1] as int].next == p1[k]);
        assert(s.cls[p2[k - 1] as int].next == p2[k]);
    }
}

/// The chain from a head is unique.
pub proof fn lemma_chain_unique(s: ClStoreView, head: u32, invalid_cl: u32, p1: Seq<u32>, p2: Seq<u32>)
    requires
        is_chain(s, head, invalid_cl, p1),
        is_chain(s, head, invalid_cl, p2),
    ensures
        p1 == p2,
{
    if p1.len() < p2.len() {
        let k = p1.len() - 1;
        lemma_chain_prefix_eq(s, head, invalid_cl, p1, p2, k);
        assert(s.cls[p2[k] as int].next == p2[k + 1]);
        assert(false);
    } else if p2.len() < p1.len() {
        let k = p2.len() - 1;
        lemma_chain_prefix_eq(s, head, invalid_cl, p1, p2, k);
        assert(s.cls[p1[k] as int].next == p1[k + 1]);
        assert(false);
    }
    assert forall|k: int| 0 <= k < p1.len() implies p1[k] == p2[k] by {
        lemma_chain_prefix_eq(s, head, invalid_cl, p1, p2, k);
    }
    assert(p1 =~= p2);
}

/// A chain that is the chain of its head.
pub proof fn lemma_chain_is(s: ClStoreView, head: u32, invalid_cl: u32, p: Seq<u32>)
    requires
        is_chain(s, head, invalid_cl, p),
    ensures
        has_chain(s, head, invalid_cl),
        chain(s, head, invalid_cl) == p,
{
    lemma_chain_unique(s, head, invalid_cl, chain(s, head, invalid_cl), p);
}

proof fn lemma_chain_repeat(s: ClStoreView, head: u32, invalid_cl: u32, p: Seq<u32>, i: int, j: int, m: int)
    requires
        is_chain(s, head, invalid_cl, p),
        0 <= i < j,
        j + m < p.len(),
        0 <= m,
        p[i] == p[j],
    ensures
        p[i + m] == p[j + m],
    decreases m,
{
    if m > 0 {
        lemma_chain_repeat(s, head, invalid_cl, p, i, j, m - 1);
        assert(s.cls[p[i + m - 1] as int].next == p[i + m]);
        assert(s.cls[p[j + m - 1] as int].next == p[j + m]);
    }
}

/// A chain visits no line twice.
pub proof fn lemma_chain_distinct(s: ClStoreView, head: u32, invalid_cl: u32, p: Seq<u32>)
    requires
        is_chain(s, head, invalid_cl, p),
    ensures
        forall|i: int, j: int| 0 <= i < j < p.len() ==> p[i] != p[j],
{
    assert forall|i: int, j: int| 0 <= i < j < p.len() implies p[i] != p[j] by {
        if p[i] == p[j] {
            let m = p.len() - 1 - j;
            lemma_chain_repeat(s, head, invalid_cl, p, i, j, m);
            assert(s.cls[p[i + m] as int].next == p[i + m + 1]);
        }
    }
}

/// A sequence of distinct line indices, all below `n`, has at most `n` entries.
pub proof fn lemma_distinct_below(p: Seq<u32>, n: int)
    requires
        0 <= n,
        forall|k: int| 0 <= k < p.len() ==> (#[trigger] p[k] as int) < n,
        forall|i: int, j: int| 0 <= i < j < p.len() ==> p[i] != p[j],
    ensures
        p.len() <= n,
{
    let q = p.map_values(|x: u32| x as int);
    assert(q.no_duplicates()) by {
        assert forall|i: int, j: int| 0 <= i < q.len() && 0 <= j < q.len() && i != j implies q[i] != q[j] by {
            if i < j {
                assert(p[i] != p[j]);
            } else {
                assert(p[j] != p[i]);
            }
        }
    }
    q.unique_seq_to_set();
    vstd::set_lib::lemma_int_range(0, n);
    assert(q.to_set().subset_of(vstd::set_lib::set_int_range(0, n))) by {
        assert forall|x: int| q.to_set().contains(x) implies vstd::set_lib::set_int_range(0, n).contains(x) by {
            let k = choose|k: int| 0 <= k < q.len() && q[k] == x;
            assert(p[k] as int == x);
        }
    }
    vstd::set_lib::lemma_len_subset(q.to_set(), vstd::set_lib::set_int_range(0, n));
}

/// A chain has at most as many lines as the store.
pub proof fn lemma_chain_len(s: ClStoreView, head: u32, invalid_cl: u32, p: Seq<u32>)
    requires
        is_chain(s, head, invalid_cl, p),
    ensures
        p.len() <= s.cls.len(),
{
    lemma_chain_distinct(s, head, invalid_cl, p);
    assert forall|k: int| 0 <= k < p.len() implies (#[trigger] p[k] as int) < s.cls.len() by {}
    lemma_distinct_below(p, s.cls.len() as int);
}

/// A chain stays a chain in a store whose lines along it keep their links and byte stores.
pub proof fn lemma_chain_frame(s1: ClStoreView, s2: ClStoreView, head: u32, invalid_cl: u32, p: Seq<u32>)
    requires
        is_chain(s1, head, invalid_cl, p),
        forall|k: int|
            0 <= k < p.len() ==> {
                &&& (#[trigger] p[k] as int) < s2.cls.len()
                &&& s2.cls[p[k] as int].next == s1.cls[p[k] as int].next
                &&& s2.stores[p[k] as int] is Some
            },
    ensures
        is_chain(s2, head, invalid_cl, p),
{
    if p.len() > 0 {
        assert(s2.cls[p.last() as int].next == s1.cls[p.last() as int].next);
    }
}

/// The bytes of a key reminder, or none.
pub open spec fn rem_bytes(key_reminder: Option<&[u8]>) -> Seq<u8> {
    match key_reminder {
        Some(r) => r@,
        None => Seq::empty(),
    }
}

/// The first slot at or after `from` that is set in `condids` and whose stored key reminder
/// (no bytes when absent) equals `key_reminder`.
pub open spec fn first_candidate(p: PerClView, key_reminder: Seq<u8>, condids: u8, from: int) -> Option<int>
    decreases 8 - from,
{
    if from >= 8 || from < 0 {
        None
    } else if bit(condids, from) && field_or_empty(p.k_rems, from) == key_reminder {
        Some(from)
    } else {
        first_candidate(p, key_reminder, condids, from + 1)
    }
}

/// The slot of line `cl` where a read finds the entry with `bucket_key` and `key_reminder`.
pub open spec fn line_find(s: ClStoreView, cl: u32, bucket_key: u16, key_reminder: Seq<u8>) -> Option<int> {
    first_candidate(
        s.stores[cl as int].unwrap(),
        key_reminder,
        read_condid(s.cls[cl as int], bucket_key),
        0,
    )
}

/// Where a read along `path`, from position `k` on, finds the entry with `bucket_key` and
/// `key_reminder`: its line and slot.
pub open spec fn find_from(s: ClStoreView, path: Seq<u32>, bucket_key: u16, key_reminder: Seq<u8>, k: int) -> Option<(u32, int)>
    decreases path.len() - k,
{
    if k < 0 || k >= path.len() {
        None
    } else {
        match line_find(s, path[k], bucket_key, key_reminder) {
            Some(slot) => Some((path[k], slot)),
            None => find_from(s, path, bucket_key, key_reminder, k + 1),
        }
    }
}

/// A read that finds nothing finds nothing in any line.
pub proof fn lemma_find_from_none(s: ClStoreView, path: Seq<u32>, bucket_key: u16, key_reminder: Seq<u8>, k: int)
    requires
        0 <= k,
        find_from(s, path, bucket_key, key_reminder, k) is None,
    ensures
        forall|j: int| k <= j < path.len() ==> #[trigger] line_find(s, path[j], bucket_key, key_reminder) is None,
    decreases path.len() - k,
{
    if k < path.len() {
        lemma_find_from_none(s, path, bucket_key, key_reminder, k + 1);
    }
}

/// What a read finds is a line of the path and a slot that the line's search returns.
pub proof fn lemma_find_from_found(s: ClStoreView, path: Seq<u32>, bucket_key: u16, key_reminder: Seq<u8>, k: int)
    requires
        0 <= k,
        find_from(s, path, bucket_key, key_reminder, k) is Some,
    ensures
        ({
            let (cl, slot) = find_from(s, path, bucket_key, key_reminder, k).unwrap();
            &&& exists|j: int| k <= j < path.len() && path[j] == cl
            &&& line_find(s, cl, bucket_key, key_reminder) == Some(slot)
        }),
    decreases path.len() - k,
{
    if line_find(s, path[k], bucket_key, key_reminder) is None {
        lemma_find_from_found(s, path, bucket_key, key_reminder, k + 1);
    } else {
        assert(path[k] == path[k]);
    }
}

/// A read finds the first line that has the entry.
pub proof fn lemma_find_from_at(s: ClStoreView, path: Seq<u32>, bucket_key: u16, key_reminder: Seq<u8>, k: int, j: int)
    requires
        0 <= k <= j < path.len(),
        forall|i: int| k <= i < j ==> #[trigger] line_find(s, path[i], bucket_key, key_reminder) is None,
        line_find(s, path[j], bucket_key, key_reminder) is Some,
    ensures
        find_from(s, path, bucket_key, key_reminder, k) == Some(
            (path[j], line_find(s, path[j], bucket_key, key_reminder).unwrap()),
        ),
    decreases j - k,
{
    if k < j {
        lemma_find_from_at(s, path, bucket_key, key_reminder, k + 1, j);
    }
}

/// Two reads agree when their lines agree, the second path possibly having extra lines that
/// hold nothing.
pub proof fn lemma_find_from_same(
    s1: ClStoreView,
    p1: Seq<u32>,
    s2: ClStoreView,
    p2: Seq<u32>,
    bucket_key: u16,
    key_reminder: Seq<u8>,
    k: int,
)
    requires
        0 <= k,
        p1.len() <= p2.len(),
        forall|i: int| 0 <= i < p1.len() ==> p2[i] == p1[i],
        forall|i: int|
            0 <= i < p1.len() ==> #[trigger] line_find(s2, p1[i], bucket_key, key_reminder) == line_find(
                s1,
                p1[i],
                bucket_key,
                key_reminder,
            ),
        forall|i: int| p1.len() <= i < p2.len() ==> #[trigger] line_find(s2, p2[i], bucket_key, key_reminder) is None,
    ensures
        find_from(s2, p2, bucket_key, key_reminder, k) == find_from(s1, p1, bucket_key, key_reminder, k),
    decreases p2.len() - k,
{
    if k < p2.len() {
        lemma_find_from_same(s1, p1, s2, p2, bucket_key, key_reminder, k + 1);
        if k < p1.len() {
            assert(line_find(s2, p1[k], bucket_key, key_reminder) == line_find(s1, p1[k], bucket_key, key_reminder));
        } else {
            assert(line_find(s2, p2[k], bucket_key, key_reminder) is None);
        }
    }
}

/// `first_candidate` returns `t` when `t` is the first matching candidate from `from` on.
pub proof fn lemma_first_candidate_at(p: PerClView, key_reminder: Seq<u8>, condids: u8, from: int, t: int)
    requires
        0 <= from <= t < 8,
        bit(condids, t),
        field_or_empty(p.k_rems, t) == key_reminder,
        forall|j: int| from <= j < t ==> !(bit(condids, j) && field_or_empty(p.k_rems, j) == key_reminder),
    ensures
        first_candidate(p, key_reminder, condids, from) == Some(t),
    decreases t - from,
{
    if from < t {
        lemma_first_candidate_at(p, key_reminder, condids, from + 1, t);
    }
}

/// `first_candidate` agrees on two lines whose matching candidates agree.
pub proof fn lemma_first_candidate_same(p1: PerClView, c1: u8, p2: PerClView, c2: u8, key_reminder: Seq<u8>, from: int)
    requires
        0 <= from <= 8,
        forall|j: int|
            from <= j < 8 ==> (bit(c1, j) && field_or_empty(p1.k_rems, j) == key_reminder) == (bit(c2, j)
                && field_or_empty(p2.k_rems, j) == key_reminder),
    ensures
        first_candidate(p1, key_reminder, c1, from) == first_candidate(p2, key_reminder, c2, from),
    decreases 8 - from,
{
    if from < 8 {
        lemma_first_candidate_same(p1, c1, p2, c2, key_reminder, from + 1);
    }
}

/// A read along `path` never compares key reminders: no line has a read candidate.
pub open spec fn no_read_candidates(s: ClStoreView, path: Seq<u32>, bucket_key: u16) -> bool {
    forall|k: int| 0 <= k < path.len() ==> read_condid(s.cls[#[trigger] path[k] as int], bucket_key) == 0
}

/// A write along `path` never compares key reminders: no line has a write candidate.
pub open spec fn no_write_candidates(s: ClStoreView, path: Seq<u32>, bucket_key: u16) -> bool {
    forall|k: int| 0 <= k < path.len() ==> write_condid(s.cls[#[trigger] path[k] as int], bucket_key) == 0
}

/// The state of a write's scan of a chain.
pub struct PutScan {
    /// an entry with the key was found, at `cl` / `slot`
    pub exists: bool,
    pub cl: u32,
    pub slot: usize,
    /// the last line seen with a free slot, and its free mask
    pub to_write: u32,
    pub mask: u8,
    /// the last line seen
    pub tail: u32,
}

/// The state of a write's scan after the first `n` lines of `path`.
pub open spec fn put_scan(s: ClStoreView, path: Seq<u32>, bucket_key: u16, key_reminder: Seq<u8>, invalid_cl: u32, n: int) -> PutScan
    decreases n,
{
    if n <= 0 {
        PutScan { exists: false, cl: 0, slot: 0, to_write: invalid_cl, mask: 0, tail: invalid_cl }
    } else {
        let prev = put_scan(s, path, bucket_key, key_reminder, invalid_cl, n - 1);
        if prev.exists {
            prev
        } else {
            let cl = path[n - 1];
            let v = s.cls[cl as int];
            match first_candidate(
                s.stores[cl as int].unwrap(),
                key_reminder,
                write_condid(v, bucket_key),
                0,
            ) {
                Some(slot) => PutScan { exists: true, cl: cl, slot: slot as usize, ..prev },
                None => PutScan {
                    tail: cl,
                    to_write: if write_free(v) != 0 {
                        cl
                    } else {
                        prev.to_write
                    },
                    mask: if write_free(v) != 0 {
                        write_free(v)
                    } else {
                        prev.mask
                    },
                    ..prev
                },
            }
        }
    }
}

/// The line a write goes to, the mask its slot is picked from, and whether the new line
/// `new_cl` is linked after the tail.
pub open spec fn put_target(sc: PutScan, new_cl: Option<u32>, invalid_cl: u32) -> (u32, u8, bool) {
    if sc.to_write == invalid_cl && new_cl is Some {
        (new_cl.unwrap(), 1u8, true)
    } else {
        (sc.to_write, sc.mask, false)
    }
}

/// What `Bucket::put` returns and the store after it.
pub open spec fn put_outcome(
    s: ClStoreView,
    path: Seq<u32>,
    id: Seq<u8>,
    value: Option<Seq<u8>>,
    bucket_key: u16,
    key_reminder: Option<Seq<u8>>,
    value_prefix: Seq<u8>,
    new_cl: Option<u32>,
    invalid_cl: u32,
) -> (InsertRes, ClStoreView) {
    let rem = match key_reminder {
        Some(r) => r,
        None => Seq::empty(),
    };
    let sc = put_scan(s, path, bucket_key, rem, invalid_cl, path.len() as int);
    if sc.exists {
        (InsertRes::EntryExists((sc.cl, sc.slot as u16)), s)
    } else {
        let (w, m, link) = put_target(sc, new_cl, invalid_cl);
        if w == invalid_cl {
            (InsertRes::OutOfSpace, s)
        } else {
            let slot = lowest_bit(m);
            let s1 = put_outcome_first_write(
                s,
                w,
                slot,
                bucket_key,
                id,
                value,
                key_reminder,
                value_prefix,
            );
            let s2 = if link {
                ClStoreView {
                    cls: s1.cls.update(
                        sc.tail as int,
                        ClView { next: w, ..s1.cls[sc.tail as int] },
                    ),
                    ..s1
                }
            } else {
                s1
            };
            (InsertRes::Success((w, slot as u16)), s2)
        }
    }
}

/// A put adds no line and frees none.
pub proof fn lemma_put_outcome_len(
    s: ClStoreView,
    head: u32,
    path: Seq<u32>,
    id: Seq<u8>,
    value: Option<Seq<u8>>,
    bucket_key: u16,
    key_reminder: Option<Seq<u8>>,
    value_prefix: Seq<u8>,
    new_cl: Option<u32>,
    invalid_cl: u32,
)
    requires
        s.wf(),
        is_chain(s, head, invalid_cl, path),
        head != invalid_cl,
        new_cl matches Some(n) ==> (n as int) < s.cls.len(),
    ensures
        ({
            let s2 = put_outcome(s, path, id, value, bucket_key, key_reminder, value_prefix, new_cl, invalid_cl).1;
            &&& s2.cls.len() == s.cls.len()
            &&& s2.stores.len() == s.stores.len()
            &&& s2.free == s.free
        }),
{
    let rem = match key_reminder {
        Some(r) => r,
        None => Seq::empty(),
    };
    let sc = put_scan(s, path, bucket_key, rem, invalid_cl, path.len() as int);
    let (w, m, link) = put_target(sc, new_cl, invalid_cl);
    lemma_put_scan(s, head, path, bucket_key, rem, invalid_cl, path.len() as int);
    if !sc.exists && w != invalid_cl {
        if !link {
            let k = choose|k: int| 0 <= k < path.len() && path[k] == sc.to_write;
            assert(path[k] == w);
        }
        let s1 = put_outcome_first_write(s, w, lowest_bit(m), bucket_key, id, value, key_reminder, value_prefix);
        assert(s1.cls.len() == s.cls.len());
        assert(s1.stores.len() == s.stores.len());
        if link {
            assert(path[path.len() - 1] == sc.tail);
            assert((sc.tail as int) < s1.cls.len());
        }
    }
}

/// Calling `Bucket::put` cannot fail: the lines and slot it writes exist.
pub open spec fn put_can_write(s: ClStoreView, path: Seq<u32>, bucket_key: u16, key_reminder: Seq<u8>, new_cl: Option<u32>, invalid_cl: u32) -> bool {
    let sc = put_scan(s, path, bucket_key, key_reminder, invalid_cl, path.len() as int);
    let (w, m, link) = put_target(sc, new_cl, invalid_cl);
    (!sc.exists && link && w != invalid_cl) ==> {
        &&& (w as int) < s.stores.len()
        &&& s.stores[w as int] is Some
        &&& path.len() > 0
    }
}

impl Bucket {
    /// An empty bucket.
    pub fn new<C: TCacheLine>() -> (b: Bucket)
        ensures
            b.head == C::INVALID_CL,
            b.curr_first_tms == 0,
            b.curr_last_tms == 0,
    {
        Bucket { head: C::INVALID_CL, curr_first_tms: 0, curr_last_tms: 0 }
    }
}

/// `res` reports what a read finds at `found` in the store `s`.
pub open spec fn find_res_matches(res: FindRes, s: ClStoreView, found: Option<(u32, int)>) -> bool {
    match found {
        None => res is NotFound,
        Some((cl, slot)) => {
            &&& res is Found
            &&& res->Found_0.0 == slot
            &&& res->Found_0.1 == cl
            &&& res->Found_0.2.value@ == s.cls[cl as int].values[slot]
            &&& opt_slice_view(res->Found_0.3.0) == field_get(s.stores[cl as int].unwrap().ids, slot)
            &&& opt_slice_view(res->Found_0.3.1) == field_get(
                s.stores[cl as int].unwrap().k_rems,
                slot,
            )
            &&& opt_slice_view(res->Found_0.3.2) == field_get(s.stores[cl as int].unwrap().v_s, slot)
        },
    }
}

/// The store after deleting the entry at line `cl`, slot `slot`.
pub open spec fn delete_store(s: ClStoreView, cl: u32, slot: int) -> ClStoreView {
    let p = s.stores[cl as int].unwrap();
    ClStoreView {
        cls: s.cls.update(cl as int, clear_entry_view(s.cls[cl as int], slot)),
        stores: s.stores.update(
            cl as int,
            Some(
                PerClView {
                    ids: field_freed(p.ids, slot),
                    k_rems: field_freed(p.k_rems, slot),
                    v_s: field_freed(p.v_s, slot),
                },
            ),
        ),
        free: s.free,
    }
}

/// Deleting keeps the store well-formed.
pub proof fn lemma_delete_store_wf(s: ClStoreView, cl: u32, slot: int)
    requires
        s.wf(),
        (cl as int) < s.cls.len(),
        0 <= slot < 8,
    ensures
        delete_store(s, cl, slot).wf(),
{
    lemma_clear_entry_view(s.cls[cl as int], slot);
    let d = delete_store(s, cl, slot);
    assert forall|i: int| 0 <= i < d.cls.len() implies (#[trigger] d.cls[i]).wf() by {
        if i != cl as int {
            assert(s.cls[i].wf());
        }
    }
}

/// After a read finds an entry and it is deleted, the chain is unchanged and the same read no
/// longer finds that slot of that line.
pub proof fn law_get_after_delete(s: ClStoreView, head: u32, invalid_cl: u32, bucket_key: u16, key_reminder: Seq<u8>)
    requires
        s.wf(),
        has_chain(s, head, invalid_cl),
        find_from(s, chain(s, head, invalid_cl), bucket_key, key_reminder, 0) is Some,
    ensures
        ({
            let (cl, slot) = find_from(s, chain(s, head, invalid_cl), bucket_key, key_reminder, 0).unwrap();
            let d = delete_store(s, cl, slot);
            &&& d.wf()
            &&& has_chain(d, head, invalid_cl)
            &&& chain(d, head, invalid_cl) == chain(s, head, invalid_cl)
            &&& find_from(d, chain(d, head, invalid_cl), bucket_key, key_reminder, 0) != Some((cl, slot))
        }),
{
    let path = chain(s, head, invalid_cl);
    lemma_chain_is(s, head, invalid_cl, path);
    let (cl, slot) = find_from(s, path, bucket_key, key_reminder, 0).unwrap();
    lemma_find_from_found(s, path, bucket_key, key_reminder, 0);
    let v = s.cls[cl as int];
    assert(v.wf());
    lemma_read_condid(v, bucket_key);
    lemma_first_candidate(s.stores[cl as int].unwrap(), key_reminder, read_condid(v, bucket_key), 0);
    let d = delete_store(s, cl, slot);
    lemma_delete_store_wf(s, cl, slot);
    assert forall|k: int| 0 <= k < path.len() implies {
        &&& (#[trigger] path[k] as int) < d.cls.len()
        &&& d.cls[path[k] as int].next == s.cls[path[k] as int].next
        &&& d.stores[path[k] as int] is Some
    } by {}
    lemma_chain_frame(s, d, head, invalid_cl, path);
    lemma_chain_is(d, head, invalid_cl, path);
    if find_from(d, path, bucket_key, key_reminder, 0) == Some((cl, slot)) {
        lemma_find_from_found(d, path, bucket_key, key_reminder, 0);
        let dv = d.cls[cl as int];
        lemma_clear_entry_view(v, slot);
        assert(dv.wf());
        lemma_read_condid(dv, bucket_key);
        lemma_first_candidate(d.stores[cl as int].unwrap(), key_reminder, read_condid(dv, bucket_key), 0);
        assert(!bit(dv.valid, slot));
    }
}

/// `res` reports what a delete finds at `found` in the store `s` before the delete.
pub open spec fn del_res_matches(res: DelRes, s: ClStoreView, found: Option<(u32, int)>) -> bool {
    match found {
        None => res is NotFound,
        Some((cl, slot)) => {
            &&& res is Found
            &&& res->Found_0.0 == slot
            &&& res->Found_0.1 == cl
            &&& res->Found_0.2.value@ == s.cls[cl as int].values[slot]
            &&& opt_vec_view(res->Found_0.3.0) == field_taken(s.stores[cl as int].unwrap().ids, slot)
            &&& opt_vec_view(res->Found_0.3.1) == field_taken(
                s.stores[cl as int].unwrap().k_rems,
                slot,
            )
            &&& opt_vec_view(res->Found_0.3.2) == field_taken(s.stores[cl as int].unwrap().v_s, slot)
        },
    }
}

/// What `first_candidate` returns.
pub proof fn lemma_first_candidate(p: PerClView, key_reminder: Seq<u8>, condids: u8, from: int)
    requires
        0 <= from <= 8,
    ensures
        first_candidate(p, key_reminder, condids, from) matches Some(slot) ==> {
            &&& from <= slot < 8
            &&& bit(condids, slot)
            &&& field_or_empty(p.k_rems, slot) == key_reminder
        },
        first_candidate(p, key_reminder, condids, from) is None ==> forall|j: int|
            from <= j < 8 && bit(condids, j) ==> field_or_empty(p.k_rems, j) != key_reminder,
    decreases 8 - from,
{
    if from < 8 {
        lemma_first_candidate(p, key_reminder, condids, from + 1);
    }
}

/// Once a write's scan has found the key it stays found.
pub proof fn lemma_put_scan_stable(s: ClStoreView, path: Seq<u32>, bucket_key: u16, key_reminder: Seq<u8>, invalid_cl: u32, n: int, m: int)
    requires
        0 <= n <= m,
        put_scan(s, path, bucket_key, key_reminder, invalid_cl, n).exists,
    ensures
        put_scan(s, path, bucket_key, key_reminder, invalid_cl, m) == put_scan(s, path, bucket_key, key_reminder, invalid_cl, n),
    decreases m - n,
{
    if m > n {
        lemma_put_scan_stable(s, path, bucket_key, key_reminder, invalid_cl, n, m - 1);
    }
}

/// A write's scan only targets lines of the chain, with a nonzero free mask, and its tail is
/// the last line seen.
pub proof fn lemma_put_scan(s: ClStoreView, head: u32, path: Seq<u32>, bucket_key: u16, key_reminder: Seq<u8>, invalid_cl: u32, n: int)
    requires
        s.wf(),
        is_chain(s, head, invalid_cl, path),
        0 <= n <= path.len(),
    ensures
        ({
            let sc = put_scan(s, path, bucket_key, key_reminder, invalid_cl, n);
            &&& sc.exists ==> sc.slot < 7
            &&& !sc.exists ==> {
                &&& (n == 0 ==> sc.tail == invalid_cl)
                &&& (n > 0 ==> sc.tail == path[n - 1])
                &&& sc.to_write != invalid_cl ==> {
                    &&& exists|k: int| 0 <= k < n && path[k] == sc.to_write
                    &&& lowest_bit(sc.mask) < 7
                    &&& sc.mask == write_free(s.cls[sc.to_write as int])
                }
            }
        }),
    decreases n,
{
    if n > 0 {
        lemma_put_scan(s, head, path, bucket_key, key_reminder, invalid_cl, n - 1);
        let prev = put_scan(s, path, bucket_key, key_reminder, invalid_cl, n - 1);
        let sc = put_scan(s, path, bucket_key, key_reminder, invalid_cl, n);
        if !prev.exists {
            let cl = path[n - 1];
            let v = s.cls[cl as int];
            assert(v.wf());
            lemma_write_condid(v, bucket_key);
            lemma_first_candidate(s.stores[cl as int].unwrap(), key_reminder, write_condid(v, bucket_key), 0);
            if !sc.exists {
                if write_free(v) != 0 {
                    lemma_write_free(v);
                    lemma_bit_nonzero(write_free(v));
                    lemma_lowest_bit_from(write_free(v), 0);
                    let j = choose|j: int| bit(write_free(v), j);
                    assert(lowest_bit(write_free(v)) <= j);
                } else if sc.to_write != invalid_cl {
                    let k = choose|k: int| 0 <= k < n - 1 && path[k] == prev.to_write;
                    assert(0 <= k < n && path[k] == sc.to_write);
                }
            }
        }
    }
}

impl Bucket {
    /// Walks the chain of the bucket; the lines are not printed here.
    pub fn print<C: TCacheLine>(&self, cl_store: &ClStore<C>)
        requires
            cl_store@.wf(),
            has_chain(cl_store@, self.head, C::INVALID_CL),
    {
        let ghost path = chain(cl_store@, self.head, C::INVALID_CL);
        let mut cl = self.head;
        let ghost mut k: int = 0;
        while cl != C::INVALID_CL
            invariant
                cl_store@.wf(),
                is_chain(cl_store@, self.head, C::INVALID_CL, path),
                0 <= k <= path.len(),
                cl == (if k < path.len() {
                    path[k]
                } else {
                    C::INVALID_CL
                }),
            decreases path.len() - k,
        {
            let clm = cl_store.get_cl_w_store(cl).0.unwrap();
            cl = clm.get_next_cl();
            proof {
                k = k + 1;
            }
        }
    }

    /// The first slot set in `condids` whose stored key reminder (no bytes when absent)
    /// equals `key_reminder`.
    fn check_condid(
        &self,
        cl_store: &PerClVecMemStore,
        key_reminder: KeyReminder,
        condids: ClCondidSlotsMask,
    ) -> (slot: Option<ClSlot>)
        requires
            condids != 0 ==> key_reminder is Some,
        ensures
            match first_candidate(cl_store@, rem_bytes(key_reminder), condids, 0) {
                Some(s) => slot == Some(s as usize),
                None => slot is None,
            },
    {
        let ghost orig = condids;
        let ghost p = cl_store@;
        let ghost kr = rem_bytes(key_reminder);
        let mut condids = condids;
        let mut slot: usize = 0;
        proof {
            crate::bits::lemma_bit_consts();
            lemma_first_candidate(p, kr, orig, 0);
            if orig == 0 && first_candidate(p, kr, orig, 0) is Some {
                let f = first_candidate(p, kr, orig, 0).unwrap();
                assert(bit(0u8, f));
            }
            assert(orig == 0 ==> first_candidate(p, kr, orig, 0) is None);
        }
        while condids != 0
            invariant_except_break
                forall|j: int| 0 <= j ==> #[trigger] bit(condids, j) == bit(orig, j + slot),
                first_candidate(p, kr, orig, 0) == first_candidate(p, kr, orig, slot as int),
                condids == 0 ==> first_candidate(p, kr, orig, slot as int) is None,
            invariant
                slot <= 8,
                orig != 0 ==> key_reminder is Some,
                p == cl_store@,
                kr == rem_bytes(key_reminder),
            ensures
                condids != 0 ==> slot >= 1 && first_candidate(p, kr, orig, 0) == Some(
                    (slot - 1) as int,
                ),
                condids == 0 ==> first_candidate(p, kr, orig, 0) is None,
            decreases 8 - slot,
        {
            proof {
                if slot >= 8 {
                    crate::bits::lemma_bit_consts();
                    crate::bits::lemma_bit_ext(condids, 0);
                }
                lemma_bit_low(condids);
                lemma_bit_shr1(condids);
                crate::bits::lemma_bit_nonzero(condids);
                let j = choose|j: int| bit(condids, j);
                assert(bit(orig, j + slot));
                crate::bits::lemma_bit_nonzero(orig);
            }
            let ghost at = slot as int;
            slot += 1;
            if condids & 1 != 0 {
                let kr_bytes = key_reminder.unwrap();
                let matches = match cl_store.get_key_rem(slot - 1) {
                    Some(stored) => bytes_eq(stored, kr_bytes),
                    None => kr_bytes.len() == 0,
                };
                if matches {
                    proof {
                        if field_get(p.k_rems, at) is None {
                            assert(kr_bytes@ =~= Seq::<u8>::empty());
                        }
                        assert(bit(orig, at));
                        assert(field_or_empty(p.k_rems, at) == kr);
                        assert(first_candidate(p, kr, orig, at) == Some(at));
                    }
                    break;
                }
                proof {
                    if field_get(p.k_rems, at) is None {
                        if kr_bytes@.len() == 0 {
                            assert(kr_bytes@ =~= Seq::<u8>::empty());
                        }
                    }
                    assert(field_or_empty(p.k_rems, at) != kr);
                }
            }
            proof {
                assert(first_candidate(p, kr, orig, at) == first_candidate(p, kr, orig, at + 1));
            }
            condids = condids >> 1;
            proof {
                if condids == 0 {
                    crate::bits::lemma_bit_consts();
                    lemma_first_candidate(p, kr, orig, slot as int);
                    if first_candidate(p, kr, orig, slot as int) is Some {
                        let f = first_candidate(p, kr, orig, slot as int).unwrap();
                        assert(bit(condids, f - slot));
                    }
                }
            }
        }
        if condids != 0 && slot != 0 {
            return Some(slot - 1);
        }
        None
    }

    /// Looks up the entry with `bucket_key` and `key_reminder` along the bucket's chain: the
    /// first line, and in it the first used slot, whose key and stored key reminder match.
    #[verifier::rlimit(100)]
    pub fn get<'a, C: TCacheLine>(
        &self,
        cl_store: &'a ClStore<C>,
        bucket_key: InBktKey,
        key_reminder: KeyReminder,
    ) -> (res: FindRes<'a>)
        requires
            cl_store@.wf(),
            has_chain(cl_store@, self.head, C::INVALID_CL),
            key_reminder is Some || no_read_candidates(
                cl_store@,
                chain(cl_store@, self.head, C::INVALID_CL),
                bucket_key,
            ),
        ensures
            find_res_matches(
                res,
                cl_store@,
                find_from(
                    cl_store@,
                    chain(cl_store@, self.head, C::INVALID_CL),
                    bucket_key,
                    rem_bytes(key_reminder),
                    0,
                ),
            ),
    {
        let ghost s = cl_store@;
        let ghost path = chain(s, self.head, C::INVALID_CL);
        let ghost kr = rem_bytes(key_reminder);
        let mut cl = self.head;
        let ghost mut k: int = 0;
        while cl != C::INVALID_CL
            invariant
                s == cl_store@,
                s.wf(),
                path == chain(s, self.head, C::INVALID_CL),
                is_chain(s, self.head, C::INVALID_CL, path),
                kr == rem_bytes(key_reminder),
                key_reminder is Some || no_read_candidates(s, path, bucket_key),
                0 <= k <= path.len(),
                cl == (if k < path.len() {
                    path[k]
                } else {
                    C::INVALID_CL
                }),
                find_from(s, path, bucket_key, kr, 0) == find_from(s, path, bucket_key, kr, k),
            decreases path.len() - k,
        {
            let cl_info = cl_store.get_cl_w_store(cl);
            let curr_cl = cl_info.0.unwrap();
            let store = cl_info.1.unwrap();
            let ghost v = s.cls[cl as int];
            proof {
                assert(v.wf());
                lemma_read_condid(v, bucket_key);
                lemma_first_candidate(store@, kr, read_condid(v, bucket_key), 0);
                if key_reminder is None {
                    assert(read_condid(s.cls[path[k] as int], bucket_key) == 0);
                }
            }
            match self.check_condid(store, key_reminder, curr_cl.find_entry_for_read(bucket_key).condid) {
                Some(slot) => {
                    proof {
                        assert(s.stores[cl as int].unwrap() == store@);
                        assert(find_from(s, path, bucket_key, kr, k) == Some((cl, slot as int)));
                    }
                    let entry = curr_cl.get_entry(slot);
                    let data = store.get_data(slot);
                    let res = FindRes::Found((slot, cl, entry, data));
                    assert(entry.value@ == s.cls[cl as int].values[slot as int]);
                    assert(opt_slice_view(data.0) == field_get(s.stores[cl as int].unwrap().ids, slot as int));
                    assert(find_res_matches(res, s, Some((cl, slot as int))));
                    return res;
                },
                None => cl = curr_cl.get_next_cl(),
            }
            proof {
                k = k + 1;
            }
        }
        FindRes::NotFound
    }

    /// Deletes the entry that `get` would find: hands back its slot, line, inline value and the
    /// bytes taken from the line's byte store, and marks the slot unused.
    pub fn delete<C: TCacheLine>(
        &mut self,
        cl_store: &mut ClStore<C>,
        bucket_key: InBktKey,
        key_reminder: KeyReminder,
    ) -> (res: DelRes)
        requires
            old(cl_store)@.wf(),
            has_chain(old(cl_store)@, old(self).head, C::INVALID_CL),
            key_reminder is Some || no_read_candidates(
                old(cl_store)@,
                chain(old(cl_store)@, old(self).head, C::INVALID_CL),
                bucket_key,
            ),
        ensures
            *final(self) == *old(self),
            final(cl_store)@.wf(),
            ({
                let found = find_from(
                    old(cl_store)@,
                    chain(old(cl_store)@, old(self).head, C::INVALID_CL),
                    bucket_key,
                    rem_bytes(key_reminder),
                    0,
                );
                &&& del_res_matches(res, old(cl_store)@, found)
                &&& found is None ==> final(cl_store)@ == old(cl_store)@
                &&& found matches Some((cl, slot)) ==> final(cl_store)@ == delete_store(
                    old(cl_store)@,
                    cl,
                    slot,
                )
            }),
    {
        let ghost s = cl_store@;
        let ghost path = chain(s, self.head, C::INVALID_CL);
        let ghost kr = rem_bytes(key_reminder);
        let mut cl = self.head;
        let ghost mut k: int = 0;
        while cl != C::INVALID_CL
            invariant
                s == cl_store@,
                s == old(cl_store)@,
                *self == *old(self),
                s.wf(),
                path == chain(s, self.head, C::INVALID_CL),
                is_chain(s, self.head, C::INVALID_CL, path),
                kr == rem_bytes(key_reminder),
                key_reminder is Some || no_read_candidates(s, path, bucket_key),
                0 <= k <= path.len(),
                cl == (if k < path.len() {
                    path[k]
                } else {
                    C::INVALID_CL
                }),
                find_from(s, path, bucket_key, kr, 0) == find_from(s, path, bucket_key, kr, k),
            decreases path.len() - k,
        {
            let cl_info = cl_store.get_cl_w_store(cl);
            let curr_cl = cl_info.0.unwrap();
            let store = cl_info.1.unwrap();
            let ghost v = s.cls[cl as int];
            proof {
                assert(v.wf());
                lemma_read_condid(v, bucket_key);
                lemma_first_candidate(store@, kr, read_condid(v, bucket_key), 0);
                if key_reminder is None {
                    assert(read_condid(s.cls[path[k] as int], bucket_key) == 0);
                }
            }
            match self.check_condid(store, key_reminder, curr_cl.find_entry_for_read(bucket_key).condid) {
                Some(slot) => {
                    proof {
                        assert(s.stores[cl as int].unwrap() == store@);
                        assert(find_from(s, path, bucket_key, kr, k) == Some((cl, slot as int)));
                    }
                    let (line, line_store) = cl_store.get_mut_cl_w_store(cl);
                    let line = line.unwrap();
                    let line_store = line_store.unwrap();
                    let entry = line.get_entry(slot);
                    let taken = line_store.free(slot);
                    let res = DelRes::Found((slot, cl, entry, taken));
                    line.clear_entry(slot);
                    proof {
                        assert(cl_store@.cls =~= delete_store(s, cl, slot as int).cls);
                        assert(cl_store@.stores =~= delete_store(s, cl, slot as int).stores);
                        assert(cl_store@.free == s.free);
                        lemma_delete_store_wf(s, cl, slot as int);
                        assert(cl_store@ == delete_store(s, cl, slot as int));
                    }
                    assert(del_res_matches(res, s, Some((cl, slot as int))));
                    return res;
                },
                None => cl = curr_cl.get_next_cl(),
            }
            proof {
                k = k + 1;
            }
        }
        DelRes::NotFound
    }

    /// Writes an entry into the bucket's chain unless one with `bucket_key` and
    /// `key_reminder` is already a write candidate there.
    ///
    /// The chain is scanned line by line: a line with a candidate slot whose stored key
    /// reminder matches ends the scan with `EntryExists`. Otherwise the entry goes to the
    /// lowest free slot of the last line with a free slot; when there is none it goes to slot
    /// 0 of `new_cl`, which is then linked after the last line; without `new_cl` the result is
    /// `OutOfSpace`. The bucket itself is not changed.
    pub fn put<C: TCacheLine>(
        &mut self,
        cl_store: &mut ClStore<C>,
        id: &[u8],
        value: Option<&[u8]>,
        bucket_key: InBktKey,
        key_reminder: KeyReminder,
        value_prefix: &ValueType,
        _should_evict: bool,
        new_cl: Option<ClIndex>,
    ) -> (res: InsertRes)
        requires
            old(cl_store)@.wf(),
            has_chain(old(cl_store)@, old(self).head, C::INVALID_CL),
            key_reminder is Some || no_write_candidates(
                old(cl_store)@,
                chain(old(cl_store)@, old(self).head, C::INVALID_CL),
                bucket_key,
            ),
            put_can_write(
                old(cl_store)@,
                chain(old(cl_store)@, old(self).head, C::INVALID_CL),
                bucket_key,
                rem_bytes(key_reminder),
                new_cl,
                C::INVALID_CL,
            ),
        ensures
            *final(self) == *old(self),
            final(cl_store)@.wf(),
            (res, final(cl_store)@) == put_outcome(
                old(cl_store)@,
                chain(old(cl_store)@, old(self).head, C::INVALID_CL),
                id@,
                opt_slice_view(value),
                bucket_key,
                opt_slice_view(key_reminder),
                value_prefix@,
                new_cl,
                C::INVALID_CL,
            ),
    {
        let ghost s = cl_store@;
        let ghost path = chain(s, self.head, C::INVALID_CL);
        let ghost kr = rem_bytes(key_reminder);
        let mut cl = self.head;
        let mut cl_to_write = C::INVALID_CL;
        let mut slot_to_write: u8 = 0;
        let mut cl_tail = C::INVALID_CL;
        let ghost mut k: int = 0;
        while cl != C::INVALID_CL
            invariant
                s == cl_store@,
                s == old(cl_store)@,
                *self == *old(self),
                s.wf(),
                path == chain(s, self.head, C::INVALID_CL),
                is_chain(s, self.head, C::INVALID_CL, path),
                kr == rem_bytes(key_reminder),
                key_reminder is Some || no_write_candidates(s, path, bucket_key),
                0 <= k <= path.len(),
                cl == (if k < path.len() {
                    path[k]
                } else {
                    C::INVALID_CL
                }),
                !put_scan(s, path, bucket_key, kr, C::INVALID_CL, k).exists,
                put_scan(s, path, bucket_key, kr, C::INVALID_CL, k).to_write == cl_to_write,
                put_scan(s, path, bucket_key, kr, C::INVALID_CL, k).mask == slot_to_write,
                put_scan(s, path, bucket_key, kr, C::INVALID_CL, k).tail == cl_tail,
            decreases path.len() - k,
        {
            let cl_info = cl_store.get_cl_w_store(cl);
            let curr_cl = cl_info.0.unwrap();
            let store = cl_info.1.unwrap();
            let ghost v = s.cls[cl as int];
            proof {
                assert(v.wf());
                assert(s.stores[cl as int].unwrap() == store@);
                lemma_write_condid(v, bucket_key);
                if key_reminder is None {
                    assert(write_condid(s.cls[path[k] as int], bucket_key) == 0);
                }
            }
            let res = curr_cl.find_entry_for_write(bucket_key);
            match self.check_condid(store, key_reminder, res.condid) {
                Some(slot) => {
                    proof {
                        lemma_first_candidate(store@, kr, write_condid(v, bucket_key), 0);
                        assert(put_scan(s, path, bucket_key, kr, C::INVALID_CL, k + 1).exists);
                        lemma_put_scan_stable(s, path, bucket_key, kr, C::INVALID_CL, k + 1, path.len() as int);
                    }
                    return InsertRes::EntryExists((cl, slot as u16));
                },
                None => {
                    cl_tail = cl;
                    if res.free != 0 {
                        cl_to_write = cl;
                        slot_to_write = res.free;
                    }
                    cl = curr_cl.get_next_cl();
                },
            }
            proof {
                k = k + 1;
            }
        }
        let ghost sc = put_scan(s, path, bucket_key, kr, C::INVALID_CL, path.len() as int);
        proof {
            lemma_put_scan(s, self.head, path, bucket_key, kr, C::INVALID_CL, path.len() as int);
        }
        let mut set_tail = false;
        if cl_to_write == C::INVALID_CL {
            match new_cl {
                Some(c) => {
                    cl_to_write = c;
                    slot_to_write = 1;
                    set_tail = true;
                },
                None => {},
            };
        }
        assert((cl_to_write, slot_to_write, set_tail) == put_target(sc, new_cl, C::INVALID_CL));
        if cl_to_write != C::INVALID_CL {
            let ghost mask = slot_to_write;
            proof {
                if set_tail {
                    assert(1u8 & 1u8 != 0u8) by (bit_vector);
                    lemma_bit_low(1u8);
                    lemma_lowest_bit_from(1u8, 0);
                } else {
                    let kk = choose|kk: int| 0 <= kk < path.len() && path[kk] == sc.to_write;
                    assert(path[kk] == cl_to_write);
                }
                lemma_lowest_bit_from(mask, 0);
            }
            let mut slot: usize = 0;
            while slot_to_write & 0x1 == 0
                invariant
                    slot <= lowest_bit(mask) < 7,
                    forall|j: int| 0 <= j ==> #[trigger] bit(slot_to_write, j) == bit(mask, j + slot),
                    forall|j: int| 0 <= j < lowest_bit(mask) ==> !bit(mask, j),
                    bit(mask, lowest_bit(mask)),
                decreases 7 - slot,
            {
                proof {
                    lemma_bit_low(slot_to_write);
                    lemma_bit_shr1(slot_to_write);
                    assert(!bit(mask, slot as int));
                }
                slot_to_write = slot_to_write >> 1;
                slot += 1;
            }
            proof {
                lemma_bit_low(slot_to_write);
                assert(bit(mask, slot as int));
                assert(slot == lowest_bit(mask));
            }
            let ghost w = cl_to_write;
            let ghost s1 = put_outcome_first_write(s, w, slot as int, bucket_key, id@, opt_slice_view(value), opt_slice_view(key_reminder), value_prefix@);
            {
                let (line, line_store) = cl_store.get_mut_cl_w_store(cl_to_write);
                let line = line.unwrap();
                let line_store = line_store.unwrap();
                line.set_entry(slot, bucket_key, value_prefix);
                line_store.set(slot, Some(id), key_reminder, value);
            }
            proof {
                assert(cl_store@.cls =~= s1.cls);
                assert(cl_store@.stores =~= s1.stores);
                lemma_first_write_wf(s, w, slot as int, bucket_key, id@, opt_slice_view(value), opt_slice_view(key_reminder), value_prefix@);
            }
            if set_tail {
                let (tail, _) = cl_store.get_mut_cl_w_store(cl_tail);
                tail.unwrap().set_next_cl(cl_to_write);
                proof {
                    let s2 = ClStoreView {
                        cls: s1.cls.update(
                            cl_tail as int,
                            ClView { next: w, ..s1.cls[cl_tail as int] },
                        ),
                        ..s1
                    };
                    assert(cl_store@.cls =~= s2.cls);
                    assert(cl_store@.stores =~= s2.stores);
                    assert forall|i: int| 0 <= i < s2.cls.len() implies (#[trigger] s2.cls[i]).wf() by {
                        assert(s1.cls[i].wf());
                    }
                }
            }
            return InsertRes::Success((cl_to_write, slot as u16));
        }
        InsertRes::OutOfSpace
    }
}

/// The store after writing the entry to line `w`, slot `slot`, before any linking.
pub open spec fn put_outcome_first_write(
    s: ClStoreView,
    w: u32,
    slot: int,
    bucket_key: u16,
    id: Seq<u8>,
    value: Option<Seq<u8>>,
    key_reminder: Option<Seq<u8>>,
    value_prefix: Seq<u8>,
) -> ClStoreView {
    let p = s.stores[w as int].unwrap();
    ClStoreView {
        cls: s.cls.update(w as int, set_entry_view(s.cls[w as int], slot, bucket_key, value_prefix)),
        stores: s.stores.update(
            w as int,
            Some(
                PerClView {
                    ids: field_set(p.ids, slot, Some(id)),
                    k_rems: field_set(p.k_rems, slot, key_reminder),
                    v_s: field_set(p.v_s, slot, value),
                },
            ),
        ),
        free: s.free,
    }
}

/// Writing an entry keeps the store well-formed.
pub proof fn lemma_first_write_wf(
    s: ClStoreView,
    w: u32,
    slot: int,
    bucket_key: u16,
    id: Seq<u8>,
    value: Option<Seq<u8>>,
    key_reminder: Option<Seq<u8>>,
    value_prefix: Seq<u8>,
)
    requires
        s.wf(),
        (w as int) < s.cls.len(),
        0 <= slot < 7,
    ensures
        put_outcome_first_write(s, w, slot, bucket_key, id, value, key_reminder, value_prefix).wf(),
{
    lemma_set_entry_view(s.cls[w as int], slot, bucket_key, value_prefix);
    let d = put_outcome_first_write(s, w, slot, bucket_key, id, value, key_reminder, value_prefix);
    assert forall|i: int| 0 <= i < d.cls.len() implies (#[trigger] d.cls[i]).wf() by {
        if i != w as int {
            assert(s.cls[i].wf());
        }
    }
}

} // verus!
