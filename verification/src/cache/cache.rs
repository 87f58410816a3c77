//! The cache: keys are hashed with murmur3 to a bucket, an in-bucket key (the first two bytes
//! of the hash) and a key reminder (all sixteen bytes of the hash); the first four bytes of a
//! value are kept inline in the cache line, the whole value in the line's byte store.
use vstd::prelude::*;

use crate::bits::{bit, lemma_bit_consts, lemma_lowest_bit_from, lowest_bit};
use crate::cache::bucket::{
    chain, find_from, first_candidate, has_chain, is_chain, lemma_chain_distinct,
    lemma_chain_frame, lemma_chain_is, lemma_find_from_at, lemma_find_from_none,
    lemma_find_from_found, lemma_find_from_same, lemma_first_candidate, lemma_first_candidate_at,
    lemma_first_candidate_same, lemma_first_write_wf, lemma_put_outcome_len, lemma_put_scan, line_find, put_outcome,
    put_outcome_first_write, put_scan, put_target, Bucket, FindRes, InBktKey, InsertRes,
};
use crate::cache::cl::{
    empty_cl_view, inline_len, lemma_set_entry_view, lemma_write_condid, lemma_write_free,
    lemma_read_condid, read_condid, set_entry_view, write_condid, write_free, ClView, TCacheLine,
};
use crate::cache::cl_store::{
    allocate_outcome, field_or_empty, field_set, opt_vec_view, ClIndex, ClStore, ClStoreView,
    PerClView,
};

verus! {

pub type IBktId = usize;

/// The value of `murmur3::murmur3_x86_128` on the bytes `data` with seed `seed`.
pub uninterp spec fn murmur3_x86_128_of(data: Seq<u8>, seed: u32) -> u128;

/// Calls `murmur3::murmur3_x86_128` on the bytes of `data`. Reading from a byte slice never
/// fails, so the hash is always returned; it is the function's value on those bytes and seed.
#[verifier::external_body]
fn murmur3_x86_128_hash(data: &[u8], seed: u32) -> (hash: u128)
    ensures
        hash == murmur3_x86_128_of(data@, seed),
{
    let mut source = data;
    murmur3::murmur3_x86_128(&mut source, seed).unwrap()
}

/// The hash of a key.
pub open spec fn hash_of(key: Seq<u8>) -> u128 {
    murmur3_x86_128_of(key, 0)
}

/// The sixteen bytes of `h`, most significant first.
pub open spec fn be_bytes(h: u128) -> Seq<u8> {
    Seq::new(16, |i: int| ((h >> ((8 * (15 - i)) as u32)) & 0xffu128) as u8)
}

/// The in-bucket key of a key reminder: its first two bytes, most significant first.
pub open spec fn rem_key(r: Seq<u8>) -> u16 {
    (r[0] as int * 256 + r[1] as int) as u16
}

/// The inline part of a value: its first four bytes, or all of it when shorter.
pub open spec fn inline_prefix(value: Seq<u8>) -> Seq<u8> {
    value.subrange(0, inline_len(value))
}

/// What a read of a key returns after writing `value` to a free slot: the inline part of
/// `value`, padded with zero bytes to four.
pub open spec fn padded_prefix(value: Seq<u8>) -> Seq<u8> {
    Seq::new(4, |k: int| if k < value.len() { value[k] } else { 0u8 })
}

/// The abstract content of a cache.
pub struct CacheView {
    pub heads: Seq<u32>,
    pub store: ClStoreView,
    pub next_free_cl: u32,
    pub num_buckets: usize,
    pub buckets_mask: u128,
    pub bytes_for_bucket_id: usize,
    pub inline_val_num_bytes: u32,
    pub inline_key_num_bytes: u32,
    pub total_capacity: u32,
}

impl CacheView {
    /// The bucket of a hash.
    pub open spec fn bucket_of(self, h: u128) -> int {
        (h & self.buckets_mask) as int
    }

    /// The lines of bucket `b`.
    pub open spec fn path(self, b: int, invalid_cl: u32) -> Seq<u32> {
        chain(self.store, self.heads[b], invalid_cl)
    }
}

/// A used slot `i` of line `cl` holds a sixteen-byte key reminder whose first two bytes are
/// the slot's key; an unused one has no key reminder and zero value bytes.
pub open spec fn slot_ok(s: ClStoreView, cl: u32, i: int) -> bool {
    let r = field_or_empty(s.stores[cl as int].unwrap().k_rems, i);
    if bit(s.cls[cl as int].valid, i) {
        r.len() == 16 && s.cls[cl as int].keys[i] == rem_key(r)
    } else {
        r.len() == 0 && s.cls[cl as int].values[i] == seq![0u8, 0u8, 0u8, 0u8]
    }
}

/// Every slot of line `cl` is as `slot_ok` says.
pub open spec fn slots_ok(s: ClStoreView, cl: u32) -> bool {
    forall|i: int| 0 <= i < 7 ==> #[trigger] slot_ok(s, cl, i)
}

/// The cache invariant.
pub open spec fn cache_wf(c: CacheView, invalid_cl: u32) -> bool {
    &&& c.store.wf()
    &&& c.store.free == Set::<u32>::empty()
    &&& c.heads.len() == c.num_buckets
    &&& c.num_buckets as int == c.buckets_mask as int + 1
    &&& c.inline_key_num_bytes == 2
    &&& c.inline_val_num_bytes == 4
    &&& c.store.cls.len() <= invalid_cl as int + 1
    &&& forall|b: int|
        0 <= b < c.heads.len() ==> #[trigger] c.heads[b] != invalid_cl && has_chain(
            c.store,
            c.heads[b],
            invalid_cl,
        )
    &&& forall|b: int, k: int|
        0 <= b < c.heads.len() && 0 <= k < c.path(b, invalid_cl).len() ==> slots_ok(
            c.store,
            #[trigger] c.path(b, invalid_cl)[k],
        )
    &&& forall|b1: int, b2: int, k1: int, k2: int|
        0 <= b1 < c.heads.len() && 0 <= b2 < c.heads.len() && b1 != b2 && 0 <= k1 < c.path(
            b1,
            invalid_cl,
        ).len() && 0 <= k2 < c.path(b2, invalid_cl).len() ==> #[trigger] c.path(b1, invalid_cl)[k1]
            != #[trigger] c.path(b2, invalid_cl)[k2]
    &&& c.next_free_cl != invalid_cl ==> {
        &&& (c.next_free_cl as int) < c.store.cls.len() <= invalid_cl as int
        &&& c.store.cls[c.next_free_cl as int] == empty_cl_view(invalid_cl)
        &&& c.store.stores[c.next_free_cl as int] == Some(PerClView::empty())
        &&& forall|b: int, k: int|
            0 <= b < c.heads.len() && 0 <= k < c.path(b, invalid_cl).len() ==> #[trigger] c.path(
                b,
                invalid_cl,
            )[k] != c.next_free_cl
    }
}

/// What `Cache::get` returns for `key`.
pub open spec fn cache_get(c: CacheView, key: Seq<u8>, invalid_cl: u32) -> Option<Seq<u8>> {
    cache_get_by_hash(c, hash_of(key), invalid_cl)
}

/// What a read returns for a key whose hash is `h`.
pub open spec fn cache_get_by_hash(c: CacheView, h: u128, invalid_cl: u32) -> Option<Seq<u8>> {
    let r = be_bytes(h);
    match find_from(c.store, c.path(c.bucket_of(h), invalid_cl), rem_key(r), r, 0) {
        Some((cl, slot)) => Some(c.store.cls[cl as int].values[slot]),
        None => None,
    }
}

/// What `Cache::upsert` returns for `key` and `value`, and the cache after it.
pub open spec fn cache_upsert(c: CacheView, key: Seq<u8>, value: Seq<u8>, invalid_cl: u32) -> (bool, CacheView) {
    cache_upsert_by_hash(c, key, value, hash_of(key), invalid_cl)
}

/// What a write of `value` under `key`, whose hash is `h`, returns, and the cache after it.
pub open spec fn cache_upsert_by_hash(c: CacheView, key: Seq<u8>, value: Seq<u8>, h: u128, invalid_cl: u32) -> (
    bool,
    CacheView,
) {
    let r = be_bytes(h);
    let (res, s1) = put_outcome(
        c.store,
        c.path(c.bucket_of(h), invalid_cl),
        key,
        Some(value),
        rem_key(r),
        Some(r),
        inline_prefix(value),
        Some(c.next_free_cl),
        invalid_cl,
    );
    match res {
        InsertRes::Success((cl, _)) => if cl == c.next_free_cl {
            let (nf, s2) = allocate_outcome(s1, invalid_cl);
            (true, CacheView { store: s2, next_free_cl: nf, ..c })
        } else {
            (true, CacheView { store: s1, ..c })
        },
        _ => (false, CacheView { store: s1, ..c }),
    }
}

/// A line whose slots are as `slots_ok` says has no write candidate with a matching key
/// reminder for a hash's bytes.
proof fn lemma_no_write_match(s: ClStoreView, cl: u32, h: u128)
    requires
        s.cls[cl as int].wf(),
        slots_ok(s, cl),
    ensures
        first_candidate(
            s.stores[cl as int].unwrap(),
            be_bytes(h),
            write_condid(s.cls[cl as int], rem_key(be_bytes(h))),
            0,
        ) is None,
{
    let r = be_bytes(h);
    let v = s.cls[cl as int];
    let p = s.stores[cl as int].unwrap();
    lemma_write_condid(v, rem_key(r));
    lemma_first_candidate(p, r, write_condid(v, rem_key(r)), 0);
    if first_candidate(p, r, write_condid(v, rem_key(r)), 0) is Some {
        let i = first_candidate(p, r, write_condid(v, rem_key(r)), 0).unwrap();
        assert(slot_ok(s, cl, i));
        assert(r.len() == 16);
    }
}

/// Along a chain of lines as `slots_ok` says, a write's scan finds no entry.
proof fn lemma_put_scan_no_exists(s: ClStoreView, path: Seq<u32>, h: u128, invalid_cl: u32, n: int)
    requires
        0 <= n <= path.len(),
        forall|k: int|
            0 <= k < path.len() ==> s.cls[#[trigger] path[k] as int].wf() && slots_ok(s, path[k]),
    ensures
        !put_scan(s, path, rem_key(be_bytes(h)), be_bytes(h), invalid_cl, n).exists,
    decreases n,
{
    if n > 0 {
        lemma_put_scan_no_exists(s, path, h, invalid_cl, n - 1);
        assert(s.cls[path[n - 1] as int].wf() && slots_ok(s, path[n - 1]));
        lemma_no_write_match(s, path[n - 1], h);
    }
}

/// The first write of an upsert to a free slot keeps the slots of its line as `slots_ok`
/// says, and leaves every other line as it was.
proof fn lemma_write_slots(
    s: ClStoreView,
    w: u32,
    slot: int,
    h: u128,
    key: Seq<u8>,
    value: Seq<u8>,
)
    requires
        s.wf(),
        (w as int) < s.cls.len(),
        s.stores[w as int] is Some,
        slots_ok(s, w),
        0 <= slot < 7,
        !bit(s.cls[w as int].valid, slot),
    ensures
        ({
            let s1 = put_outcome_first_write(
                s,
                w,
                slot,
                rem_key(be_bytes(h)),
                key,
                Some(value),
                Some(be_bytes(h)),
                inline_prefix(value),
            );
            &&& s1.wf()
            &&& slots_ok(s1, w)
            &&& s1.cls.len() == s.cls.len()
            &&& s1.free == s.free
            &&& s1.cls[w as int].next == s.cls[w as int].next
            &&& s1.stores[w as int] is Some
            &&& forall|cl: int| 0 <= cl < s.cls.len() && cl != w ==> #[trigger] s1.cls[cl] == s.cls[cl] && s1.stores[cl] == s.stores[cl]
        }),
{
    let r = be_bytes(h);
    let bk = rem_key(r);
    let s1 = put_outcome_first_write(s, w, slot, bk, key, Some(value), Some(r), inline_prefix(value));
    lemma_first_write_wf(s, w, slot, bk, key, Some(value), Some(r), inline_prefix(value));
    lemma_set_entry_view(s.cls[w as int], slot, bk, inline_prefix(value));
    let p = s.stores[w as int].unwrap();
    let p1 = s1.stores[w as int].unwrap();
    assert(p1.k_rems == field_set(p.k_rems, slot, Some(r)));
    assert forall|i: int| 0 <= i < 7 implies #[trigger] slot_ok(s1, w, i) by {
        assert(slot_ok(s, w, i));
        if i == slot {
            assert(field_or_empty(p1.k_rems, i) == r);
        } else {
            assert(field_or_empty(p1.k_rems, i) == field_or_empty(p.k_rems, i));
            assert(s1.cls[w as int].values[i] == s.cls[w as int].values[i]);
            assert(s1.cls[w as int].keys[i] == s.cls[w as int].keys[i]);
        }
    }
}

/// An empty line with an empty byte store has its slots as `slots_ok` says.
proof fn lemma_empty_slots_ok(s: ClStoreView, cl: u32, invalid_cl: u32)
    requires
        s.cls[cl as int] == empty_cl_view(invalid_cl),
        s.stores[cl as int] == Some(PerClView::empty()),
    ensures
        slots_ok(s, cl),
{
    lemma_bit_consts();
    assert forall|i: int| 0 <= i < 7 implies #[trigger] slot_ok(s, cl, i) by {
        assert(!bit(s.cls[cl as int].valid, i));
        assert(s.cls[cl as int].values[i] == seq![0u8, 0u8, 0u8, 0u8]);
    }
}

/// The line, slot and linking of an upsert that does not run out of space.
pub open spec fn upsert_target(c: CacheView, h: u128, invalid_cl: u32) -> (u32, int, bool) {
    let r = be_bytes(h);
    let path = c.path(c.bucket_of(h), invalid_cl);
    let sc = put_scan(c.store, path, rem_key(r), r, invalid_cl, path.len() as int);
    let (w, m, link) = put_target(sc, Some(c.next_free_cl), invalid_cl);
    (w, lowest_bit(m), link)
}

/// The lines of bucket `b` after an upsert of a key with hash `h` that writes to line `w`
/// and links it when `link`.
pub open spec fn path_after(c: CacheView, h: u128, b: int, w: u32, link: bool, invalid_cl: u32) -> Seq<u32> {
    if b == c.bucket_of(h) && link {
        c.path(b, invalid_cl).push(w)
    } else {
        c.path(b, invalid_cl)
    }
}

/// What an upsert does to the store, when it has room: it writes the entry to a free slot of
/// the target line (a line of the bucket, or the next free line then linked after the last
/// line of the bucket), every bucket's chain grows by at most that line, and every line of a
/// chain keeps its slots as `slots_ok` says.
proof fn lemma_upsert_store(c: CacheView, key: Seq<u8>, value: Seq<u8>, h: u128, invalid_cl: u32)
    requires
        cache_wf(c, invalid_cl),
    ensures
        ({
            let b0 = c.bucket_of(h);
            let (w, slot, link) = upsert_target(c, h, invalid_cl);
            let r = be_bytes(h);
            let (res, s2) = put_outcome(
                c.store,
                c.path(b0, invalid_cl),
                key,
                Some(value),
                rem_key(r),
                Some(r),
                inline_prefix(value),
                Some(c.next_free_cl),
                invalid_cl,
            );
            &&& 0 <= b0 < c.heads.len()
            &&& w == invalid_cl ==> res == InsertRes::OutOfSpace && s2 == c.store
            &&& w != invalid_cl ==> {
                &&& res == InsertRes::Success((w, slot as u16))
                &&& 0 <= slot < 7
                &&& (w as int) < c.store.cls.len()
                &&& !bit(c.store.cls[w as int].valid, slot)
                &&& link == (w == c.next_free_cl)
                &&& link ==> slot == 0
                &&& !link ==> c.path(b0, invalid_cl).contains(w)
                &&& s2 == (if link {
                    let s1 = put_outcome_first_write(
                        c.store,
                        w,
                        slot,
                        rem_key(r),
                        key,
                        Some(value),
                        Some(r),
                        inline_prefix(value),
                    );
                    let tail = c.path(b0, invalid_cl).last();
                    ClStoreView {
                        cls: s1.cls.update(tail as int, ClView { next: w, ..s1.cls[tail as int] }),
                        ..s1
                    }
                } else {
                    put_outcome_first_write(
                        c.store,
                        w,
                        slot,
                        rem_key(r),
                        key,
                        Some(value),
                        Some(r),
                        inline_prefix(value),
                    )
                })
                &&& s2.wf()
                &&& s2.free == c.store.free
                &&& s2.cls.len() == c.store.cls.len()
                &&& forall|b: int|
                    0 <= b < c.heads.len() ==> #[trigger] is_chain(
                        s2,
                        c.heads[b],
                        invalid_cl,
                        path_after(c, h, b, w, link, invalid_cl),
                    )
                &&& forall|b: int, k: int|
                    0 <= b < c.heads.len() && 0 <= k < path_after(c, h, b, w, link, invalid_cl).len()
                        ==> slots_ok(s2, #[trigger] path_after(c, h, b, w, link, invalid_cl)[k])
                &&& forall|cl: int|
                    0 <= cl < c.store.cls.len() && cl != w && !(link && cl == c.path(b0, invalid_cl).last())
                        ==> #[trigger] s2.cls[cl] == c.store.cls[cl] && s2.stores[cl] == c.store.stores[cl]
            }
        }),
{
    let r = be_bytes(h);
    let bk = rem_key(r);
    let b0 = c.bucket_of(h);
    let s = c.store;
    let nf = c.next_free_cl;
    lemma_and_le(h, c.buckets_mask);
    let head0 = c.heads[b0];
    let path0 = c.path(b0, invalid_cl);
    assert(head0 != invalid_cl && has_chain(s, head0, invalid_cl));
    assert(is_chain(s, head0, invalid_cl, path0));
    assert forall|k: int| 0 <= k < path0.len() implies s.cls[#[trigger] path0[k] as int].wf() && slots_ok(s, path0[k]) by {
        assert(slots_ok(s, c.path(b0, invalid_cl)[k]));
        assert(s.cls[path0[k] as int].wf());
    }
    lemma_put_scan_no_exists(s, path0, h, invalid_cl, path0.len() as int);
    lemma_put_scan(s, head0, path0, bk, r, invalid_cl, path0.len() as int);
    let sc = put_scan(s, path0, bk, r, invalid_cl, path0.len() as int);
    let (w, m, link) = put_target(sc, Some(nf), invalid_cl);
    let slot = lowest_bit(m);
    if w != invalid_cl {
        lemma_lowest_bit_from(m, 0);
        if link {
            assert(m == 1u8);
            assert(bit(1u8, 0)) by {
                assert((1u8 >> 0u8) & 1u8 == 1u8) by (bit_vector);
            }
            assert(slot == 0);
            lemma_empty_slots_ok(s, w, invalid_cl);
            lemma_bit_consts();
        } else {
            let kw = choose|kw: int| 0 <= kw < path0.len() && path0[kw] == sc.to_write;
            assert(path0.contains(w));
            assert(s.cls[w as int].wf());
            lemma_write_free(s.cls[w as int]);
            assert(slots_ok(s, path0[kw]));
            assert(w != nf);
        }
        lemma_write_slots(s, w, slot, h, key, value);
        let s1 = put_outcome_first_write(s, w, slot, bk, key, Some(value), Some(r), inline_prefix(value));
        lemma_chain_distinct(s, head0, invalid_cl, path0);
        if link {
            let tail = path0.last();
            let s2 = ClStoreView {
                cls: s1.cls.update(tail as int, ClView { next: w, ..s1.cls[tail as int] }),
                ..s1
            };
            assert(s2.wf()) by {
                assert forall|i: int| 0 <= i < s2.cls.len() implies (#[trigger] s2.cls[i]).wf() by {
                    assert(s1.cls[i].wf());
                }
            }
            assert forall|b: int|
                0 <= b < c.heads.len() implies #[trigger] is_chain(
                    s2,
                    c.heads[b],
                    invalid_cl,
                    path_after(c, h, b, w, link, invalid_cl),
                ) by {
                assert(has_chain(s, c.heads[b], invalid_cl));
                let pb = c.path(b, invalid_cl);
                if b == b0 {
                    let np = path0.push(w);
                    assert(is_chain(s2, head0, invalid_cl, np)) by {
                        assert forall|k: int| 0 <= k < np.len() - 1 implies s2.cls[#[trigger] np[k] as int].next == np[k + 1] by {
                            if k < path0.len() - 1 {
                                assert(np[k] != tail);
                                assert(s.cls[path0[k] as int].next == path0[k + 1]);
                            }
                        }
                        assert(s2.cls[w as int] == s1.cls[w as int]);
                    }
                } else {
                    assert forall|k: int| 0 <= k < pb.len() implies {
                        &&& (#[trigger] pb[k] as int) < s2.cls.len()
                        &&& s2.cls[pb[k] as int].next == s.cls[pb[k] as int].next
                        &&& s2.stores[pb[k] as int] is Some
                    } by {
                        assert(pb[k] != c.path(b0, invalid_cl)[path0.len() - 1]);
                        assert(pb[k] != nf);
                        assert(s.stores[pb[k] as int] is Some);
                    }
                    lemma_chain_frame(s, s2, c.heads[b], invalid_cl, pb);
                }
            }
            assert forall|b: int, k: int|
                0 <= b < c.heads.len() && 0 <= k < path_after(c, h, b, w, link, invalid_cl).len()
                    implies slots_ok(s2, #[trigger] path_after(c, h, b, w, link, invalid_cl)[k]) by {
                let pb = path_after(c, h, b, w, link, invalid_cl);
                let cl = pb[k];
                if cl == w {
                    assert(s2.cls[w as int] == s1.cls[w as int]);
                    assert(forall|i: int| slot_ok(s2, w, i) == slot_ok(s1, w, i));
                } else {
                    assert(has_chain(s, c.heads[b], invalid_cl));
                    assert(slots_ok(s, c.path(b, invalid_cl)[k]));
                    assert(forall|i: int| slot_ok(s2, cl, i) == slot_ok(s, cl, i));
                }
            }
        } else {
            assert forall|b: int|
                0 <= b < c.heads.len() implies #[trigger] is_chain(
                    s1,
                    c.heads[b],
                    invalid_cl,
                    path_after(c, h, b, w, link, invalid_cl),
                ) by {
                assert(has_chain(s, c.heads[b], invalid_cl));
                let pb = c.path(b, invalid_cl);
                assert forall|k: int| 0 <= k < pb.len() implies {
                    &&& (#[trigger] pb[k] as int) < s1.cls.len()
                    &&& s1.cls[pb[k] as int].next == s.cls[pb[k] as int].next
                    &&& s1.stores[pb[k] as int] is Some
                } by {
                    assert(s.stores[pb[k] as int] is Some);
                }
                lemma_chain_frame(s, s1, c.heads[b], invalid_cl, pb);
            }
            assert forall|b: int, k: int|
                0 <= b < c.heads.len() && 0 <= k < path_after(c, h, b, w, link, invalid_cl).len()
                    implies slots_ok(s1, #[trigger] path_after(c, h, b, w, link, invalid_cl)[k]) by {
                let cl = c.path(b, invalid_cl)[k];
                if cl != w {
                    assert(has_chain(s, c.heads[b], invalid_cl));
                    assert(slots_ok(s, c.path(b, invalid_cl)[k]));
                    assert(forall|i: int| slot_ok(s1, cl, i) == slot_ok(s, cl, i));
                }
            }
        }
    }
}

/// An upsert keeps the cache invariant, and succeeds exactly when it finds room: a free slot
/// in the key's bucket or a next free line.
pub proof fn lemma_upsert_wf(c: CacheView, key: Seq<u8>, value: Seq<u8>, h: u128, invalid_cl: u32)
    requires
        cache_wf(c, invalid_cl),
    ensures
        cache_wf(cache_upsert_by_hash(c, key, value, h, invalid_cl).1, invalid_cl),
        cache_upsert_by_hash(c, key, value, h, invalid_cl).0 == (upsert_target(c, h, invalid_cl).0
            != invalid_cl),
        cache_upsert_by_hash(c, key, value, h, invalid_cl).1.heads == c.heads,
        cache_upsert_by_hash(c, key, value, h, invalid_cl).1.buckets_mask == c.buckets_mask,
        ({
            let (w, slot, link) = upsert_target(c, h, invalid_cl);
            let r = be_bytes(h);
            let s2 = put_outcome(
                c.store,
                c.path(c.bucket_of(h), invalid_cl),
                key,
                Some(value),
                rem_key(r),
                Some(r),
                inline_prefix(value),
                Some(c.next_free_cl),
                invalid_cl,
            ).1;
            let c2 = cache_upsert_by_hash(c, key, value, h, invalid_cl).1;
            w != invalid_cl ==> {
                &&& forall|b: int| 0 <= b < c.heads.len() ==> #[trigger] c2.path(b, invalid_cl) == path_after(c, h, b, w, link, invalid_cl)
                &&& c2.store.cls.len() >= s2.cls.len()
                &&& forall|i: int| 0 <= i < s2.cls.len() ==> #[trigger] c2.store.cls[i] == s2.cls[i] && c2.store.stores[i] == s2.stores[i]
            }
        }),
{
    let b0 = c.bucket_of(h);
    let (w, slot, link) = upsert_target(c, h, invalid_cl);
    let r = be_bytes(h);
    lemma_upsert_store(c, key, value, h, invalid_cl);
    let (res, s2) = put_outcome(
        c.store,
        c.path(b0, invalid_cl),
        key,
        Some(value),
        rem_key(r),
        Some(r),
        inline_prefix(value),
        Some(c.next_free_cl),
        invalid_cl,
    );
    let c2 = cache_upsert_by_hash(c, key, value, h, invalid_cl).1;
    if w == invalid_cl {
        assert(c2 == c);
    } else {
        let s = c.store;
        let nf = c.next_free_cl;
        assert forall|b: int| 0 <= b < c.heads.len() implies #[trigger] chain(s2, c.heads[b], invalid_cl) == path_after(c, h, b, w, link, invalid_cl) by {
            assert(is_chain(s2, c.heads[b], invalid_cl, path_after(c, h, b, w, link, invalid_cl)));
            lemma_chain_is(s2, c.heads[b], invalid_cl, path_after(c, h, b, w, link, invalid_cl));
        }
        if link {
            let (nf2, s3) = allocate_outcome(s2, invalid_cl);
            assert(c2 == CacheView { store: s3, next_free_cl: nf2, ..c });
            lemma_bit_consts();
            assert(empty_cl_view(invalid_cl).wf());
            assert(s3.wf()) by {
                assert forall|i: int| 0 <= i < s3.cls.len() implies (#[trigger] s3.cls[i]).wf() by {
                    if i < s2.cls.len() {
                        assert(s2.cls[i].wf());
                    }
                }
            }
            assert forall|b: int| 0 <= b < c.heads.len() implies #[trigger] c2.path(b, invalid_cl) == path_after(c, h, b, w, link, invalid_cl) && is_chain(s3, c.heads[b], invalid_cl, path_after(c, h, b, w, link, invalid_cl)) by {
                let pb = path_after(c, h, b, w, link, invalid_cl);
                assert(chain(s2, c.heads[b], invalid_cl) == pb);
                assert(is_chain(s2, c.heads[b], invalid_cl, pb));
                assert forall|k: int| 0 <= k < pb.len() implies {
                    &&& (#[trigger] pb[k] as int) < s3.cls.len()
                    &&& s3.cls[pb[k] as int].next == s2.cls[pb[k] as int].next
                    &&& s3.stores[pb[k] as int] is Some
                } by {}
                lemma_chain_frame(s2, s3, c.heads[b], invalid_cl, pb);
                lemma_chain_is(s3, c.heads[b], invalid_cl, pb);
            }
            assert forall|b: int, k: int|
                0 <= b < c2.heads.len() && 0 <= k < c2.path(b, invalid_cl).len() implies slots_ok(
                    c2.store,
                    #[trigger] c2.path(b, invalid_cl)[k],
                ) by {
                let pb = path_after(c, h, b, w, link, invalid_cl);
                assert(c2.path(b, invalid_cl) == pb);
                assert(slots_ok(s2, pb[k]));
                assert(is_chain(s2, c.heads[b], invalid_cl, pb));
                assert(forall|i: int| slot_ok(s3, pb[k], i) == slot_ok(s2, pb[k], i));
            }
            assert forall|b1: int, b2: int, k1: int, k2: int|
                0 <= b1 < c2.heads.len() && 0 <= b2 < c2.heads.len() && b1 != b2 && 0 <= k1
                    < c2.path(b1, invalid_cl).len() && 0 <= k2 < c2.path(b2, invalid_cl).len()
                    implies #[trigger] c2.path(b1, invalid_cl)[k1] != #[trigger] c2.path(
                    b2,
                    invalid_cl,
                )[k2] by {
                assert(c2.path(b1, invalid_cl) == path_after(c, h, b1, w, link, invalid_cl));
                assert(c2.path(b2, invalid_cl) == path_after(c, h, b2, w, link, invalid_cl));
                if b1 == b0 && k1 == c.path(b0, invalid_cl).len() {
                    assert(c.path(b2, invalid_cl)[k2] != nf);
                } else if b2 == b0 && k2 == c.path(b0, invalid_cl).len() {
                    assert(c.path(b1, invalid_cl)[k1] != nf);
                } else {
                    assert(c.path(b1, invalid_cl)[k1] != c.path(b2, invalid_cl)[k2]);
                }
            }
            if nf2 != invalid_cl {
                assert forall|b: int, k: int|
                    0 <= b < c2.heads.len() && 0 <= k < c2.path(b, invalid_cl).len() implies #[trigger] c2.path(
                        b,
                        invalid_cl,
                    )[k] != nf2 by {
                    let pb = path_after(c, h, b, w, link, invalid_cl);
                    assert(is_chain(s2, c.heads[b], invalid_cl, pb));
                    assert((pb[k] as int) < s2.cls.len());
                }
            }
            assert(c2.store.wf());
            assert(c2.store.free == Set::<u32>::empty());
            assert(c2.heads.len() == c2.num_buckets);
            assert(c2.store.cls.len() <= invalid_cl as int + 1);
            assert forall|b: int| 0 <= b < c2.heads.len() implies #[trigger] c2.heads[b] != invalid_cl && has_chain(c2.store, c2.heads[b], invalid_cl) by {
                assert(c2.path(b, invalid_cl) == path_after(c, h, b, w, link, invalid_cl));
            }
            if nf2 != invalid_cl {
                assert((nf2 as int) < c2.store.cls.len() <= invalid_cl as int);
                assert(c2.store.cls[nf2 as int] == empty_cl_view(invalid_cl));
                assert(c2.store.stores[nf2 as int] == Some(PerClView::empty()));
            }
            assert(cache_wf(c2, invalid_cl));
        } else {
            assert(c2 == CacheView { store: s2, ..c });
            assert forall|b: int| 0 <= b < c.heads.len() implies #[trigger] c2.path(b, invalid_cl) == c.path(b, invalid_cl) by {
                assert(chain(s2, c.heads[b], invalid_cl) == path_after(c, h, b, w, link, invalid_cl));
            }
            assert forall|b: int, k: int|
                0 <= b < c2.heads.len() && 0 <= k < c2.path(b, invalid_cl).len() implies slots_ok(
                    c2.store,
                    #[trigger] c2.path(b, invalid_cl)[k],
                ) by {
                assert(c2.path(b, invalid_cl) == path_after(c, h, b, w, link, invalid_cl));
            }
            assert forall|b: int| 0 <= b < c.heads.len() implies #[trigger] c2.heads[b] != invalid_cl && has_chain(c2.store, c2.heads[b], invalid_cl) by {
                assert(is_chain(s2, c.heads[b], invalid_cl, path_after(c, h, b, w, link, invalid_cl)));
            }
            if nf != invalid_cl {
                assert(nf != w);
                let tail = c.path(b0, invalid_cl).last();
                assert(s2.cls[nf as int] == c.store.cls[nf as int]);
            }
            assert(cache_wf(c2, invalid_cl));
        }
    }
}

/// The number of buckets of a cache whose bucket ids have `bytes` bytes: `256^bytes`.
pub open spec fn bucket_count(bytes: usize) -> int {
    if bytes == 0 {
        1
    } else if bytes == 1 {
        0x100
    } else if bytes == 2 {
        0x1_0000
    } else {
        0x100_0000
    }
}

/// The bucket mask after `i` bytes: `256^i - 1`.
pub open spec fn mask_of(i: int) -> u128 {
    if i <= 0 {
        0
    } else if i == 1 {
        0xff
    } else if i == 2 {
        0xffff
    } else {
        0xff_ffff
    }
}

proof fn lemma_bucket_count(bytes: usize)
    requires
        bytes <= 3,
    ensures
        (1usize << (bytes * 8)) as int == bucket_count(bytes),
        mask_of(bytes as int) as int + 1 == bucket_count(bytes),
{
    if bytes == 0 {
        assert(1usize << 0usize == 1usize) by (bit_vector);
    } else if bytes == 1 {
        assert(1usize << 8usize == 0x100usize) by (bit_vector);
    } else if bytes == 2 {
        assert(1usize << 16usize == 0x1_0000usize) by (bit_vector);
    } else {
        assert(1usize << 24usize == 0x100_0000usize) by (bit_vector);
    }
}

proof fn lemma_mask_step(i: int)
    requires
        0 <= i < 3,
    ensures
        (mask_of(i) << 8u32) | 0xffu128 == mask_of(i + 1),
{
    if i == 0 {
        assert((0u128 << 8u32) | 0xffu128 == 0xffu128) by (bit_vector);
    } else if i == 1 {
        assert((0xffu128 << 8u32) | 0xffu128 == 0xffffu128) by (bit_vector);
    } else {
        assert((0xffffu128 << 8u32) | 0xffu128 == 0xff_ffffu128) by (bit_vector);
    }
}

/// A line with no used slot gives no read candidate.
proof fn lemma_unused_line_no_find(s: ClStoreView, cl: u32, h: u128)
    requires
        s.cls[cl as int].valid == 0,
        s.cls[cl as int].wf(),
    ensures
        first_candidate(
            s.stores[cl as int].unwrap(),
            be_bytes(h),
            read_condid(s.cls[cl as int], rem_key(be_bytes(h))),
            0,
        ) is None,
{
    let v = s.cls[cl as int];
    let r = be_bytes(h);
    lemma_bit_consts();
    lemma_read_condid(v, rem_key(r));
    lemma_first_candidate(s.stores[cl as int].unwrap(), r, read_condid(v, rem_key(r)), 0);
}

/// A freshly built cache satisfies the cache invariant and holds no entry.
proof fn lemma_new_cache_wf(c: CacheView, invalid_cl: u32, bytes: usize)
    requires
        bytes <= 3,
        0x100_0000 < invalid_cl,
        c.num_buckets as int == bucket_count(bytes),
        c.buckets_mask == mask_of(bytes as int),
        c.inline_val_num_bytes == 4,
        c.inline_key_num_bytes == 2,
        c.store.wf(),
        c.store.free == Set::<u32>::empty(),
        c.store.cls.len() == c.num_buckets + 1,
        c.heads.len() == c.num_buckets,
        c.next_free_cl == c.num_buckets as u32,
        forall|b: int| 0 <= b < c.heads.len() ==> #[trigger] c.heads[b] == b as u32,
        forall|b: int|
            0 <= b < c.store.cls.len() ==> #[trigger] c.store.cls[b] == empty_cl_view(invalid_cl)
                && c.store.stores[b] == Some(PerClView::empty()),
    ensures
        cache_wf(c, invalid_cl),
        forall|key: Seq<u8>| cache_get(c, key, invalid_cl) is None,
        forall|b: int| 0 <= b < c.heads.len() ==> #[trigger] c.path(b, invalid_cl) == seq![b as u32],
{
    lemma_bucket_count(bytes);
    lemma_bit_consts();
    let s = c.store;
    assert forall|b: int| 0 <= b < c.heads.len() implies #[trigger] c.path(b, invalid_cl) == seq![b as u32] by {
        assert(s.cls[b].next == invalid_cl);
        assert(is_chain(s, c.heads[b], invalid_cl, seq![b as u32]));
        lemma_chain_is(s, c.heads[b], invalid_cl, seq![b as u32]);
    }
    assert forall|b: int| 0 <= b < c.heads.len() implies #[trigger] c.heads[b] != invalid_cl && has_chain(
        c.store,
        c.heads[b],
        invalid_cl,
    ) by {
        assert(c.store.cls[b].next == invalid_cl);
        assert(is_chain(c.store, c.heads[b], invalid_cl, seq![b as u32]));
    }
    assert forall|b: int, k: int|
        0 <= b < c.heads.len() && 0 <= k < c.path(b, invalid_cl).len() implies slots_ok(
            c.store,
            #[trigger] c.path(b, invalid_cl)[k],
        ) by {
        assert(c.path(b, invalid_cl) == seq![b as u32]);
        lemma_empty_slots_ok(s, b as u32, invalid_cl);
    }
    assert forall|b1: int, b2: int, k1: int, k2: int|
        0 <= b1 < c.heads.len() && 0 <= b2 < c.heads.len() && b1 != b2 && 0 <= k1 < c.path(
            b1,
            invalid_cl,
        ).len() && 0 <= k2 < c.path(b2, invalid_cl).len() implies #[trigger] c.path(b1, invalid_cl)[k1]
        != #[trigger] c.path(b2, invalid_cl)[k2] by {
        assert(c.path(b1, invalid_cl) == seq![b1 as u32]);
        assert(c.path(b2, invalid_cl) == seq![b2 as u32]);
    }
    assert forall|b: int, k: int|
        0 <= b < c.heads.len() && 0 <= k < c.path(b, invalid_cl).len() implies #[trigger] c.path(
            b,
            invalid_cl,
        )[k] != c.next_free_cl by {
        assert(c.path(b, invalid_cl) == seq![b as u32]);
    }
    assert(c.store.cls[c.next_free_cl as int] == empty_cl_view(invalid_cl));
    assert forall|key: Seq<u8>| cache_get(c, key, invalid_cl) is None by {
        let h = hash_of(key);
        let b = c.bucket_of(h);
        lemma_and_le(h, c.buckets_mask);
        assert(c.path(b, invalid_cl) == seq![b as u32]);
        assert(s.cls[b] == empty_cl_view(invalid_cl));
        lemma_unused_line_no_find(s, b as u32, h);
        let r = be_bytes(h);
        assert(find_from(s, seq![b as u32], rem_key(r), r, 1) is None);
    }
}

proof fn bv_be_bytes_injective(h1: u128, h2: u128)
    by (bit_vector)
    requires
        ((h1 >> 120u32) & 0xffu128) as u8 == ((h2 >> 120u32) & 0xffu128) as u8,
        ((h1 >> 112u32) & 0xffu128) as u8 == ((h2 >> 112u32) & 0xffu128) as u8,
        ((h1 >> 104u32) & 0xffu128) as u8 == ((h2 >> 104u32) & 0xffu128) as u8,
        ((h1 >> 96u32) & 0xffu128) as u8 == ((h2 >> 96u32) & 0xffu128) as u8,
        ((h1 >> 88u32) & 0xffu128) as u8 == ((h2 >> 88u32) & 0xffu128) as u8,
        ((h1 >> 80u32) & 0xffu128) as u8 == ((h2 >> 80u32) & 0xffu128) as u8,
        ((h1 >> 72u32) & 0xffu128) as u8 == ((h2 >> 72u32) & 0xffu128) as u8,
        ((h1 >> 64u32) & 0xffu128) as u8 == ((h2 >> 64u32) & 0xffu128) as u8,
        ((h1 >> 56u32) & 0xffu128) as u8 == ((h2 >> 56u32) & 0xffu128) as u8,
        ((h1 >> 48u32) & 0xffu128) as u8 == ((h2 >> 48u32) & 0xffu128) as u8,
        ((h1 >> 40u32) & 0xffu128) as u8 == ((h2 >> 40u32) & 0xffu128) as u8,
        ((h1 >> 32u32) & 0xffu128) as u8 == ((h2 >> 32u32) & 0xffu128) as u8,
        ((h1 >> 24u32) & 0xffu128) as u8 == ((h2 >> 24u32) & 0xffu128) as u8,
        ((h1 >> 16u32) & 0xffu128) as u8 == ((h2 >> 16u32) & 0xffu128) as u8,
        ((h1 >> 8u32) & 0xffu128) as u8 == ((h2 >> 8u32) & 0xffu128) as u8,
        ((h1 >> 0u32) & 0xffu128) as u8 == ((h2 >> 0u32) & 0xffu128) as u8,
    ensures
        h1 == h2,
{
}

/// Distinct hashes have distinct bytes.
pub proof fn lemma_be_bytes_injective(h1: u128, h2: u128)
    requires
        be_bytes(h1) == be_bytes(h2),
    ensures
        h1 == h2,
{
    assert(be_bytes(h1)[0] == be_bytes(h2)[0]);
    assert(be_bytes(h1)[0] == ((h1 >> 120u32) & 0xffu128) as u8);
    assert(be_bytes(h2)[0] == ((h2 >> 120u32) & 0xffu128) as u8);
    assert(be_bytes(h1)[1] == be_bytes(h2)[1]);
    assert(be_bytes(h1)[1] == ((h1 >> 112u32) & 0xffu128) as u8);
    assert(be_bytes(h2)[1] == ((h2 >> 112u32) & 0xffu128) as u8);
    assert(be_bytes(h1)[2] == be_bytes(h2)[2]);
    assert(be_bytes(h1)[2] == ((h1 >> 104u32) & 0xffu128) as u8);
    assert(be_bytes(h2)[2] == ((h2 >> 104u32) & 0xffu128) as u8);
    assert(be_bytes(h1)[3] == be_bytes(h2)[3]);
    assert(be_bytes(h1)[3] == ((h1 >> 96u32) & 0xffu128) as u8);
    assert(be_bytes(h2)[3] == ((h2 >> 96u32) & 0xffu128) as u8);
    assert(be_bytes(h1)[4] == be_bytes(h2)[4]);
    assert(be_bytes(h1)[4] == ((h1 >> 88u32) & 0xffu128) as u8);
    assert(be_bytes(h2)[4] == ((h2 >> 88u32) & 0xffu128) as u8);
    assert(be_bytes(h1)[5] == be_bytes(h2)[5]);
    assert(be_bytes(h1)[5] == ((h1 >> 80u32) & 0xffu128) as u8);
    assert(be_bytes(h2)[5] == ((h2 >> 80u32) & 0xffu128) as u8);
    assert(be_bytes(h1)[6] == be_bytes(h2)[6]);
    assert(be_bytes(h1)[6] == ((h1 >> 72u32) & 0xffu128) as u8);
    assert(be_bytes(h2)[6] == ((h2 >> 72u32) & 0xffu128) as u8);
    assert(be_bytes(h1)[7] == be_bytes(h2)[7]);
    assert(be_bytes(h1)[7] == ((h1 >> 64u32) & 0xffu128) as u8);
    assert(be_bytes(h2)[7] == ((h2 >> 64u32) & 0xffu128) as u8);
    assert(be_bytes(h1)[8] == be_bytes(h2)[8]);
    assert(be_bytes(h1)[8] == ((h1 >> 56u32) & 0xffu128) as u8);
    assert(be_bytes(h2)[8] == ((h2 >> 56u32) & 0xffu128) as u8);
    assert(be_bytes(h1)[9] == be_bytes(h2)[9]);
    assert(be_bytes(h1)[9] == ((h1 >> 48u32) & 0xffu128) as u8);
    assert(be_bytes(h2)[9] == ((h2 >> 48u32) & 0xffu128) as u8);
    assert(be_bytes(h1)[10] == be_bytes(h2)[10]);
    assert(be_bytes(h1)[10] == ((h1 >> 40u32) & 0xffu128) as u8);
    assert(be_bytes(h2)[10] == ((h2 >> 40u32) & 0xffu128) as u8);
    assert(be_bytes(h1)[11] == be_bytes(h2)[11]);
    assert(be_bytes(h1)[11] == ((h1 >> 32u32) & 0xffu128) as u8);
    assert(be_bytes(h2)[11] == ((h2 >> 32u32) & 0xffu128) as u8);
    assert(be_bytes(h1)[12] == be_bytes(h2)[12]);
    assert(be_bytes(h1)[12] == ((h1 >> 24u32) & 0xffu128) as u8);
    assert(be_bytes(h2)[12] == ((h2 >> 24u32) & 0xffu128) as u8);
    assert(be_bytes(h1)[13] == be_bytes(h2)[13]);
    assert(be_bytes(h1)[13] == ((h1 >> 16u32) & 0xffu128) as u8);
    assert(be_bytes(h2)[13] == ((h2 >> 16u32) & 0xffu128) as u8);
    assert(be_bytes(h1)[14] == be_bytes(h2)[14]);
    assert(be_bytes(h1)[14] == ((h1 >> 8u32) & 0xffu128) as u8);
    assert(be_bytes(h2)[14] == ((h2 >> 8u32) & 0xffu128) as u8);
    assert(be_bytes(h1)[15] == be_bytes(h2)[15]);
    assert(be_bytes(h1)[15] == ((h1 >> 0u32) & 0xffu128) as u8);
    assert(be_bytes(h2)[15] == ((h2 >> 0u32) & 0xffu128) as u8);
    bv_be_bytes_injective(h1, h2);
}

/// After the first write of an upsert of hash `h` to the free slot `slot` of line `w`, a read of
/// `h` in line `w` finds that slot, if it found nothing there before; a read of any other hash
/// finds what it found before.
proof fn lemma_written_line_find(
    s: ClStoreView,
    w: u32,
    slot: int,
    h: u128,
    key: Seq<u8>,
    value: Seq<u8>,
    h2: u128,
)
    requires
        s.wf(),
        (w as int) < s.cls.len(),
        s.stores[w as int] is Some,
        0 <= slot < 7,
        !bit(s.cls[w as int].valid, slot),
    ensures
        ({
            let r = be_bytes(h);
            let r2 = be_bytes(h2);
            let s1 = put_outcome_first_write(
                s,
                w,
                slot,
                rem_key(r),
                key,
                Some(value),
                Some(r),
                inline_prefix(value),
            );
            &&& h2 == h && line_find(s, w, rem_key(r), r) is None ==> line_find(s1, w, rem_key(r), r) == Some(slot)
            &&& h2 != h ==> line_find(s1, w, rem_key(r2), r2) == line_find(s, w, rem_key(r2), r2)
        }),
{
    let r = be_bytes(h);
    let bk = rem_key(r);
    let r2 = be_bytes(h2);
    let bk2 = rem_key(r2);
    let s1 = put_outcome_first_write(s, w, slot, bk, key, Some(value), Some(r), inline_prefix(value));
    let v = s.cls[w as int];
    let v1 = s1.cls[w as int];
    let p = s.stores[w as int].unwrap();
    let p1 = s1.stores[w as int].unwrap();
    lemma_set_entry_view(v, slot, bk, inline_prefix(value));
    assert(v.wf());
    lemma_read_condid(v, bk);
    lemma_read_condid(v1, bk);
    lemma_read_condid(v, bk2);
    lemma_read_condid(v1, bk2);
    assert forall|j: int| 0 <= j < 8 && j != slot implies field_or_empty(p1.k_rems, j) == field_or_empty(p.k_rems, j) by {}
    assert(field_or_empty(p1.k_rems, slot) == r);
    if h2 == h {
        if line_find(s, w, bk, r) is None {
            lemma_first_candidate(p, r, read_condid(v, bk), 0);
            assert(v1 == set_entry_view(v, slot, bk, inline_prefix(value)));
            assert forall|j: int| 0 <= j < slot implies !(bit(read_condid(v1, bk), j) && field_or_empty(p1.k_rems, j) == r) by {
                assert(bit(v1.valid, j) == bit(v.valid, j));
                assert(v1.keys[j] == v.keys[j]);
                assert(field_or_empty(p1.k_rems, j) == field_or_empty(p.k_rems, j));
                assert(bit(read_condid(v1, bk), j) == bit(read_condid(v, bk), j));
            }
            assert(bit(v1.valid, slot));
            assert(v1.keys[slot] == bk);
            lemma_first_candidate_at(p1, r, read_condid(v1, bk), 0, slot);
        }
    } else {
        if r2 == r {
            lemma_be_bytes_injective(h, h2);
        }
        lemma_first_candidate_same(p, read_condid(v, bk2), p1, read_condid(v1, bk2), r2, 0);
    }
}

/// An upsert into a cache with a next free line always succeeds.
pub proof fn law_upsert_succeeds_with_free_line(c: CacheView, key: Seq<u8>, value: Seq<u8>, invalid_cl: u32)
    requires
        cache_wf(c, invalid_cl),
        c.next_free_cl != invalid_cl,
    ensures
        cache_upsert(c, key, value, invalid_cl).0,
{
    lemma_upsert_wf(c, key, value, hash_of(key), invalid_cl);
}

/// An upsert into a cache with a next free line, and fewer lines than the index that marks
/// "no line", leaves a next free line again and adds at most one line: so upserts keep
/// succeeding until the line indices run out.
pub proof fn law_upsert_keeps_free_line(c: CacheView, key: Seq<u8>, value: Seq<u8>, invalid_cl: u32)
    requires
        cache_wf(c, invalid_cl),
        c.next_free_cl != invalid_cl,
        c.store.cls.len() < invalid_cl,
    ensures
        cache_upsert(c, key, value, invalid_cl).1.next_free_cl != invalid_cl,
        cache_upsert(c, key, value, invalid_cl).1.store.cls.len() <= c.store.cls.len() + 1,
{
    let h = hash_of(key);
    lemma_upsert_wf(c, key, value, h, invalid_cl);
    let r = be_bytes(h);
    let (res, s1) = put_outcome(
        c.store,
        c.path(c.bucket_of(h), invalid_cl),
        key,
        Some(value),
        rem_key(r),
        Some(r),
        inline_prefix(value),
        Some(c.next_free_cl),
        invalid_cl,
    );
    let b0 = c.bucket_of(h);
    lemma_and_le(h, c.buckets_mask);
    assert(c.heads[b0] != invalid_cl && has_chain(c.store, c.heads[b0], invalid_cl));
    lemma_chain_is(c.store, c.heads[b0], invalid_cl, c.path(b0, invalid_cl));
    lemma_put_outcome_len(
        c.store,
        c.heads[b0],
        c.path(c.bucket_of(h), invalid_cl),
        key,
        Some(value),
        rem_key(r),
        Some(r),
        inline_prefix(value),
        Some(c.next_free_cl),
        invalid_cl,
    );
}

/// Reading a key that the cache did not hold, after an upsert of it that succeeded, gives the
/// inline part of the value written, padded with zero bytes to four.
pub proof fn law_get_after_upsert(c: CacheView, key: Seq<u8>, value: Seq<u8>, invalid_cl: u32)
    requires
        cache_wf(c, invalid_cl),
        cache_get(c, key, invalid_cl) is None,
        cache_upsert(c, key, value, invalid_cl).0,
    ensures
        cache_get(cache_upsert(c, key, value, invalid_cl).1, key, invalid_cl) == Some(
            padded_prefix(value),
        ),
{
    let h = hash_of(key);
    let r = be_bytes(h);
    let bk = rem_key(r);
    let b0 = c.bucket_of(h);
    let s = c.store;
    let nf = c.next_free_cl;
    let path0 = c.path(b0, invalid_cl);
    let (w, slot, link) = upsert_target(c, h, invalid_cl);
    lemma_upsert_store(c, key, value, hash_of(key), invalid_cl);
    lemma_upsert_wf(c, key, value, hash_of(key), invalid_cl);
    let s1 = put_outcome_first_write(s, w, slot, bk, key, Some(value), Some(r), inline_prefix(value));
    let s2 = put_outcome(s, path0, key, Some(value), bk, Some(r), inline_prefix(value), Some(nf), invalid_cl).1;
    let c2 = cache_upsert(c, key, value, invalid_cl).1;
    let p2 = c2.path(b0, invalid_cl);
    assert(p2 == path_after(c, h, b0, w, link, invalid_cl));
    assert(has_chain(s, c.heads[b0], invalid_cl));
    assert(is_chain(s, c.heads[b0], invalid_cl, path0));
    lemma_chain_distinct(s, c.heads[b0], invalid_cl, path0);
    lemma_find_from_none(s, path0, bk, r, 0);
    lemma_written_line_find(s, w, slot, h, key, value, h);
    let tail = path0.last();
    // the line written
    if link {
        assert(w == nf);
        assert(s.cls[w as int] == empty_cl_view(invalid_cl));
        lemma_unused_line_no_find(s, w, h);
        assert(w != tail);
    } else {
        let kw = choose|kw: int| 0 <= kw < path0.len() && path0[kw] == w;
        assert(line_find(s, path0[kw], bk, r) is None);
    }
    assert(s2.cls[w as int] == s1.cls[w as int] && s2.stores[w as int] == s1.stores[w as int]);
    assert(c2.store.cls[w as int] == s2.cls[w as int] && c2.store.stores[w as int] == s2.stores[w as int]);
    assert(line_find(c2.store, w, bk, r) == Some(slot));
    // every other line of the bucket reads as before: nothing
    assert forall|j: int| 0 <= j < path0.len() && path0[j] != w implies #[trigger] line_find(c2.store, path0[j], bk, r) is None by {
        let cl = path0[j];
        assert(is_chain(s, c.heads[b0], invalid_cl, path0));
        assert((cl as int) < s.cls.len());
        assert(c2.store.cls[cl as int] == s2.cls[cl as int] && c2.store.stores[cl as int] == s2.stores[cl as int]);
        assert(s2.cls[cl as int].valid == s.cls[cl as int].valid);
        assert(s2.cls[cl as int].keys == s.cls[cl as int].keys);
        assert(s2.stores[cl as int] == s.stores[cl as int]);
        assert(line_find(s, path0[j], bk, r) is None);
    }
    if link {
        assert forall|i: int| 0 <= i < path0.len() implies #[trigger] line_find(c2.store, p2[i], bk, r) is None by {
            assert(p2[i] == path0[i]);
            assert(path0[i] != nf);
        }
        lemma_find_from_at(c2.store, p2, bk, r, 0, path0.len() as int);
    } else {
        let kw = choose|kw: int| 0 <= kw < path0.len() && path0[kw] == w;
        assert forall|i: int| 0 <= i < kw implies #[trigger] line_find(c2.store, p2[i], bk, r) is None by {
            assert(path0[i] != path0[kw]);
        }
        lemma_find_from_at(c2.store, p2, bk, r, 0, kw);
    }
    // the value read
    let v = s.cls[w as int];
    assert(slot_ok(s, w, slot)) by {
        if link {
            lemma_empty_slots_ok(s, w, invalid_cl);
        } else {
            let kw = choose|kw: int| 0 <= kw < path0.len() && path0[kw] == w;
            assert(slots_ok(s, c.path(b0, invalid_cl)[kw]));
        }
    }
    assert(v.values[slot] == seq![0u8, 0u8, 0u8, 0u8]);
    assert(c2.store.cls[w as int].values[slot] =~= padded_prefix(value));
}

/// The cache after upserting each pair of `pairs` in turn (key, value), and whether every
/// upsert succeeded.
pub open spec fn upsert_all(c: CacheView, pairs: Seq<(Seq<u8>, Seq<u8>)>, invalid_cl: u32) -> (bool, CacheView)
    decreases pairs.len(),
{
    if pairs.len() == 0 {
        (true, c)
    } else {
        let (ok0, c0) = upsert_all(c, pairs.drop_last(), invalid_cl);
        let (ok1, c1) = cache_upsert(c0, pairs.last().0, pairs.last().1, invalid_cl);
        (ok0 && ok1, c1)
    }
}

/// A run of upserts keeps the cache invariant.
pub proof fn lemma_upsert_all_wf(c: CacheView, pairs: Seq<(Seq<u8>, Seq<u8>)>, invalid_cl: u32)
    requires
        cache_wf(c, invalid_cl),
    ensures
        cache_wf(upsert_all(c, pairs, invalid_cl).1, invalid_cl),
    decreases pairs.len(),
{
    if pairs.len() > 0 {
        lemma_upsert_all_wf(c, pairs.drop_last(), invalid_cl);
        let c0 = upsert_all(c, pairs.drop_last(), invalid_cl).1;
        lemma_upsert_wf(c0, pairs.last().0, pairs.last().1, hash_of(pairs.last().0), invalid_cl);
    }
}

/// A run of upserts of keys whose hashes differ from that of `key` leaves a read of `key` as
/// it was.
pub proof fn lemma_upsert_all_keeps_other_keys(
    c: CacheView,
    pairs: Seq<(Seq<u8>, Seq<u8>)>,
    key: Seq<u8>,
    invalid_cl: u32,
)
    requires
        cache_wf(c, invalid_cl),
        forall|i: int| 0 <= i < pairs.len() ==> hash_of(#[trigger] pairs[i].0) != hash_of(key),
    ensures
        cache_get(upsert_all(c, pairs, invalid_cl).1, key, invalid_cl) == cache_get(c, key, invalid_cl),
    decreases pairs.len(),
{
    if pairs.len() > 0 {
        let prev = pairs.drop_last();
        assert forall|i: int| 0 <= i < prev.len() implies hash_of(#[trigger] prev[i].0) != hash_of(key) by {
            assert(prev[i] == pairs[i]);
        }
        lemma_upsert_all_keeps_other_keys(c, prev, key, invalid_cl);
        lemma_upsert_all_wf(c, prev, invalid_cl);
        let c0 = upsert_all(c, prev, invalid_cl).1;
        assert(pairs[pairs.len() - 1] == pairs.last());
        law_upsert_keeps_other_keys(c0, pairs.last().0, pairs.last().1, key, invalid_cl);
    }
}

/// Upserting pairs whose keys have pairwise different hashes and are not held, each upsert
/// succeeding, makes a read of every key give the inline part of its value, padded with zero
/// bytes to four. A cache that `Cache::new` builds holds no key, so this holds of every run of
/// successful upserts of keys with different hashes into it.
pub proof fn law_get_after_upserts(c: CacheView, pairs: Seq<(Seq<u8>, Seq<u8>)>, invalid_cl: u32)
    requires
        cache_wf(c, invalid_cl),
        forall|i: int| 0 <= i < pairs.len() ==> cache_get(c, #[trigger] pairs[i].0, invalid_cl) is None,
        forall|i: int, j: int|
            0 <= i < j < pairs.len() ==> hash_of(#[trigger] pairs[i].0) != hash_of(#[trigger] pairs[j].0),
        upsert_all(c, pairs, invalid_cl).0,
    ensures
        cache_wf(upsert_all(c, pairs, invalid_cl).1, invalid_cl),
        forall|i: int|
            0 <= i < pairs.len() ==> cache_get(upsert_all(c, pairs, invalid_cl).1, #[trigger] pairs[i].0, invalid_cl)
                == Some(padded_prefix(pairs[i].1)),
    decreases pairs.len(),
{
    lemma_upsert_all_wf(c, pairs, invalid_cl);
    if pairs.len() > 0 {
        let n = pairs.len() - 1;
        let prev = pairs.drop_last();
        let (key, value) = pairs.last();
        assert(pairs[n] == pairs.last());
        assert forall|i: int| 0 <= i < prev.len() implies cache_get(c, #[trigger] prev[i].0, invalid_cl) is None by {
            assert(prev[i] == pairs[i]);
        }
        assert forall|i: int, j: int|
            0 <= i < j < prev.len() implies hash_of(#[trigger] prev[i].0) != hash_of(#[trigger] prev[j].0) by {
            assert(prev[i] == pairs[i]);
            assert(prev[j] == pairs[j]);
        }
        law_get_after_upserts(c, prev, invalid_cl);
        lemma_upsert_all_wf(c, prev, invalid_cl);
        let c0 = upsert_all(c, prev, invalid_cl).1;
        assert forall|i: int| 0 <= i < prev.len() implies hash_of(#[trigger] prev[i].0) != hash_of(key) by {
            assert(prev[i] == pairs[i]);
            assert(hash_of(pairs[i].0) != hash_of(pairs[n].0));
        }
        lemma_upsert_all_keeps_other_keys(c, prev, key, invalid_cl);
        assert(cache_get(c, pairs[n].0, invalid_cl) is None);
        law_get_after_upsert(c0, key, value, invalid_cl);
        let c1 = upsert_all(c, pairs, invalid_cl).1;
        assert forall|i: int|
            0 <= i < pairs.len() implies cache_get(c1, #[trigger] pairs[i].0, invalid_cl) == Some(padded_prefix(pairs[i].1)) by {
            if i < n {
                assert(prev[i] == pairs[i]);
                assert(hash_of(pairs[i].0) != hash_of(pairs[n].0));
                law_upsert_keeps_other_keys(c0, key, value, pairs[i].0, invalid_cl);
                assert(cache_get(c0, prev[i].0, invalid_cl) == Some(padded_prefix(prev[i].1)));
            }
        }
    }
}

/// An upsert does not change what a read of a key with a different hash gives.
pub proof fn law_upsert_keeps_other_keys(
    c: CacheView,
    key: Seq<u8>,
    value: Seq<u8>,
    other: Seq<u8>,
    invalid_cl: u32,
)
    requires
        cache_wf(c, invalid_cl),
        hash_of(other) != hash_of(key),
    ensures
        cache_get(cache_upsert(c, key, value, invalid_cl).1, other, invalid_cl) == cache_get(
            c,
            other,
            invalid_cl,
        ),
{
    let h = hash_of(key);
    let r = be_bytes(h);
    let bk = rem_key(r);
    let b0 = c.bucket_of(h);
    let h2 = hash_of(other);
    let r2 = be_bytes(h2);
    let bk2 = rem_key(r2);
    let b2 = c.bucket_of(h2);
    let s = c.store;
    let nf = c.next_free_cl;
    let path0 = c.path(b0, invalid_cl);
    let (w, slot, link) = upsert_target(c, h, invalid_cl);
    lemma_upsert_store(c, key, value, hash_of(key), invalid_cl);
    lemma_upsert_wf(c, key, value, hash_of(key), invalid_cl);
    lemma_and_le(h2, c.buckets_mask);
    let c2 = cache_upsert(c, key, value, invalid_cl).1;
    if w == invalid_cl {
        assert(c2 == c);
    } else {
        let s1 = put_outcome_first_write(s, w, slot, bk, key, Some(value), Some(r), inline_prefix(value));
        let s2 = put_outcome(s, path0, key, Some(value), bk, Some(r), inline_prefix(value), Some(nf), invalid_cl).1;
        let tail = path0.last();
        lemma_written_line_find(s, w, slot, h, key, value, h2);
        assert(has_chain(s, c.heads[b0], invalid_cl));
        assert(is_chain(s, c.heads[b0], invalid_cl, path0));
        if link {
            assert(w == nf);
            assert(w != tail);
        }
        assert(s2.cls[w as int] == s1.cls[w as int] && s2.stores[w as int] == s1.stores[w as int]);
        let pb = c.path(b2, invalid_cl);
        let pb2 = c2.path(b2, invalid_cl);
        assert(pb2 == path_after(c, h, b2, w, link, invalid_cl));
        assert(has_chain(s, c.heads[b2], invalid_cl));
        assert(is_chain(s, c.heads[b2], invalid_cl, pb));
        assert forall|i: int| 0 <= i < pb.len() implies #[trigger] line_find(c2.store, pb[i], bk2, r2) == line_find(s, pb[i], bk2, r2) by {
            let cl = pb[i];
            assert((cl as int) < s.cls.len());
            assert(c2.store.cls[cl as int] == s2.cls[cl as int] && c2.store.stores[cl as int] == s2.stores[cl as int]);
            if cl != w {
                assert(s2.cls[cl as int].valid == s.cls[cl as int].valid);
                assert(s2.cls[cl as int].keys == s.cls[cl as int].keys);
                assert(s2.stores[cl as int] == s.stores[cl as int]);
            }
        }
        if link && b2 == b0 {
            assert(s.cls[w as int] == empty_cl_view(invalid_cl));
            lemma_unused_line_no_find(s, w, h2);
            assert(c2.store.cls[w as int] == s2.cls[w as int] && c2.store.stores[w as int] == s2.stores[w as int]);
            assert(line_find(c2.store, pb2[pb.len() as int], bk2, r2) is None);
        }
        lemma_find_from_same(s, pb, c2.store, pb2, bk2, r2, 0);
        let found = find_from(s, pb, bk2, r2, 0);
        if found is Some {
            let (cl, t) = found.unwrap();
            lemma_find_from_found(s, pb, bk2, r2, 0);
            assert((cl as int) < s.cls.len());
            assert(c2.store.cls[cl as int] == s2.cls[cl as int]);
            if cl == w {
                let v = s.cls[w as int];
                assert(v.wf());
                lemma_read_condid(v, bk2);
                lemma_first_candidate(s.stores[w as int].unwrap(), r2, read_condid(v, bk2), 0);
                assert(bit(v.valid, t));
                assert(t != slot);
                assert(s1.cls[w as int].values[t] == v.values[t]);
            } else {
                assert(s2.cls[cl as int].values == s.cls[cl as int].values);
            }
        }
    }
}

/// The sixteen bytes of `h`, most significant first.
fn u128_to_be_bytes(h: u128) -> (bytes: Vec<u8>)
    ensures
        bytes@ == be_bytes(h),
{
    let mut bytes: Vec<u8> = Vec::new();
    let mut i: u32 = 0;
    while i < 16
        invariant
            i <= 16,
            bytes@.len() == i,
            forall|j: int| 0 <= j < i ==> bytes@[j] == be_bytes(h)[j],
        decreases 16 - i,
    {
        bytes.push(((h >> (8 * (15 - i))) & 0xff) as u8);
        i += 1;
    }
    assert(bytes@ =~= be_bytes(h));
    bytes
}

proof fn lemma_and_le(h: u128, m: u128)
    by (bit_vector)
    ensures
        h & m <= m,
{
}

#[allow(unused)]
pub struct Cache<C: TCacheLine> {
    buckets: Vec<Bucket>,
    cl_store: ClStore<C>,
    next_free_cl: ClIndex,
    num_buckets: IBktId,
    buckets_mask: u128,
    bytes_for_bucket_id: usize,
    inline_val_num_bytes: u32,
    inline_key_num_bytes: u32,
    total_capacity: u32,
}

impl<C: TCacheLine> View for Cache<C> {
    type V = CacheView;

    closed spec fn view(&self) -> CacheView {
        CacheView {
            heads: self.buckets@.map_values(|b: Bucket| b.head),
            store: self.cl_store@,
            next_free_cl: self.next_free_cl,
            num_buckets: self.num_buckets,
            buckets_mask: self.buckets_mask,
            bytes_for_bucket_id: self.bytes_for_bucket_id,
            inline_val_num_bytes: self.inline_val_num_bytes,
            inline_key_num_bytes: self.inline_key_num_bytes,
            total_capacity: self.total_capacity,
        }
    }
}

impl<C: TCacheLine> Cache<C> {
    /// The cache invariant holds.
    pub open spec fn wf(&self) -> bool {
        cache_wf(self@, C::INVALID_CL)
    }

    /// The bucket, in-bucket key and hash of a key.
    #[inline(always)]
    fn get_bucket_id(&self, id: &[u8]) -> (r: (IBktId, InBktKey, u128))
        requires
            self.wf(),
        ensures
            r.2 == hash_of(id@),
            r.0 as int == self@.bucket_of(r.2),
            (r.0 as int) < self@.heads.len(),
            r.1 == rem_key(be_bytes(r.2)),
    {
        let hash = murmur3_x86_128_hash(id, 0);
        let (bucket_id, bkt_key) = self.bucket_of_hash(hash);
        (bucket_id, bkt_key, hash)
    }

    /// The bucket of a hash (its low bits under the bucket mask) and its in-bucket key (its
    /// two most significant bytes).
    pub fn bucket_of_hash(&self, hash: u128) -> (r: (IBktId, InBktKey))
        requires
            self.wf(),
        ensures
            r.0 as int == self@.bucket_of(hash),
            (r.0 as int) < self@.heads.len(),
            r.1 == rem_key(be_bytes(hash)),
    {
        let bytes = u128_to_be_bytes(hash);
        proof {
            lemma_and_le(hash, self.buckets_mask);
        }
        (
            (hash & self.buckets_mask) as IBktId,
            ((bytes[0] as u16) * 256 + (bytes[1] as u16)) as InBktKey,
        )
    }

    /// Walks the chain of the bucket of `key`; returns the bucket.
    pub fn print_bucket(&mut self, key: &[u8]) -> (b: IBktId)
        requires
            old(self).wf(),
        ensures
            final(self)@ == old(self)@,
            b as int == old(self)@.bucket_of(hash_of(key@)),
    {
        let (bucket_id, _bkt_key, _h) = self.get_bucket_id(key);
        proof {
            assert(self@.heads[bucket_id as int] == self.buckets@[bucket_id as int].head);
        }
        self.buckets[bucket_id].print(&self.cl_store);
        bucket_id
    }

    /// The inline value of the entry of `key`, if the cache holds one.
    pub fn get(&mut self, key: &[u8]) -> (value: Option<Vec<u8>>)
        requires
            old(self).wf(),
        ensures
            final(self)@ == old(self)@,
            opt_vec_view(value) == cache_get(old(self)@, key@, C::INVALID_CL),
    {
        let h = murmur3_x86_128_hash(key, 0);
        self.get_by_hash(h)
    }

    /// The inline value of the entry whose key hashes to `h`, if the cache holds one.
    pub fn get_by_hash(&mut self, h: u128) -> (value: Option<Vec<u8>>)
        requires
            old(self).wf(),
        ensures
            final(self)@ == old(self)@,
            opt_vec_view(value) == cache_get_by_hash(old(self)@, h, C::INVALID_CL),
    {
        let (bucket_id, bkt_key) = self.bucket_of_hash(h);
        let rem = u128_to_be_bytes(h);
        proof {
            assert(self@.heads[bucket_id as int] == self.buckets@[bucket_id as int].head);
        }
        let res = self.buckets[bucket_id].get(&self.cl_store, bkt_key, Some(rem.as_slice()));
        match res {
            FindRes::Found(d) => Some(vstd::slice::slice_to_vec(d.2.value.as_slice())),
            FindRes::NotFound => None,
        }
    }

    /// Writes `value` under `key`: the entry goes to the key's bucket, keyed by the hash's
    /// first two bytes and all sixteen hash bytes as key reminder, with the first four value
    /// bytes inline and the key and whole value in the line's byte store. When the entry used
    /// the next free line, a new one is allocated. Returns whether the entry was written.
    pub fn upsert(&mut self, key: &[u8], value: &[u8]) -> (ok: bool)
        requires
            old(self).wf(),
        ensures
            final(self).wf(),
            (ok, final(self)@) == cache_upsert(old(self)@, key@, value@, C::INVALID_CL),
    {
        let h = murmur3_x86_128_hash(key, 0);
        self.upsert_by_hash(key, value, h)
    }

    /// Writes `value` under `key`, whose hash is `h`, as `upsert` does.
    pub fn upsert_by_hash(&mut self, key: &[u8], value: &[u8], h: u128) -> (ok: bool)
        requires
            old(self).wf(),
        ensures
            final(self).wf(),
            (ok, final(self)@) == cache_upsert_by_hash(old(self)@, key@, value@, h, C::INVALID_CL),
    {
        let (bucket_id, bkt_key) = self.bucket_of_hash(h);
        let mut num_inline_value_bytes = value.len();
        if num_inline_value_bytes > self.inline_val_num_bytes as usize {
            num_inline_value_bytes = self.inline_val_num_bytes as usize;
        }
        let rem = u128_to_be_bytes(h);
        let value_prefix = vstd::slice::slice_subrange(value, 0, num_inline_value_bytes);
        proof {
            lemma_upsert_store(self@, key@, value@, h, C::INVALID_CL);
            lemma_upsert_wf(self@, key@, value@, h, C::INVALID_CL);
            assert(self@.heads[bucket_id as int] == self.buckets@[bucket_id as int].head);
            let b0 = bucket_id as int;
            assert(self@.heads[b0] != C::INVALID_CL && has_chain(self@.store, self@.heads[b0], C::INVALID_CL));
            assert(is_chain(self@.store, self@.heads[b0], C::INVALID_CL, self@.path(b0, C::INVALID_CL)));
            assert(value_prefix@ == inline_prefix(value@));
        }
        let res = self.buckets[bucket_id].put(
            &mut self.cl_store,
            key,
            Some(value),
            bkt_key,
            Some(rem.as_slice()),
            value_prefix,
            false,
            Some(self.next_free_cl),
        );
        match res {
            InsertRes::Success(cl) => {
                if cl.0 == self.next_free_cl {
                    self.next_free_cl = self.cl_store.allocate_cl();
                }
                proof {
                    assert(self.buckets@ =~= old(self).buckets@);
                    assert(self@.heads =~= old(self)@.heads);
                }
                return true;
            },
            _ => {},
        };
        proof {
            assert(self.buckets@ =~= old(self).buckets@);
            assert(self@.heads =~= old(self)@.heads);
        }
        false
    }

    /// A cache of `256^bytes_for_bucket_id` buckets, each holding one empty line, and one more
    /// empty line as the next free line. It holds no entry.
    pub fn new(bytes_for_bucket_id: usize, capacity: u32) -> (cache: Cache<C>)
        requires
            bytes_for_bucket_id <= 3,
        ensures
            cache.wf(),
            cache@.num_buckets as int == bucket_count(bytes_for_bucket_id),
            cache@.bytes_for_bucket_id == bytes_for_bucket_id,
            cache@.total_capacity == capacity,
            cache@.buckets_mask as int == bucket_count(bytes_for_bucket_id) - 1,
            cache@.heads.len() == cache@.num_buckets,
            cache@.store.free == Set::<u32>::empty(),
            cache@.store.cls.len() == bucket_count(bytes_for_bucket_id) + 1,
            cache@.next_free_cl as int == bucket_count(bytes_for_bucket_id),
            cache@.next_free_cl != C::INVALID_CL,
            forall|b: int|
                0 <= b < cache@.heads.len() ==> #[trigger] cache@.heads[b] == b as u32
                    && cache@.path(b, C::INVALID_CL) == seq![b as u32],
            forall|i: int|
                0 <= i < cache@.store.cls.len() ==> #[trigger] cache@.store.cls[i] == empty_cl_view(
                    C::INVALID_CL,
                ) && cache@.store.stores[i] == Some(PerClView::empty()),
            forall|key: Seq<u8>| cache_get(cache@, key, C::INVALID_CL) is None,
    {
        proof {
            C::lemma_invalid_cl_above_lines();
        }
        let num_buckets: usize = 1usize << (bytes_for_bucket_id * 8);
        proof {
            lemma_bucket_count(bytes_for_bucket_id);
        }
        let mut buckets_mask: u128 = 0;
        let mut i: usize = 0;
        while i < bytes_for_bucket_id
            invariant
                i <= bytes_for_bucket_id <= 3,
                buckets_mask == mask_of(i as int),
            decreases bytes_for_bucket_id - i,
        {
            proof {
                lemma_mask_step(i as int);
            }
            buckets_mask = buckets_mask << 8u32;
            buckets_mask = buckets_mask | 0xff;
            i += 1;
        }
        let mut buckets: Vec<Bucket> = Vec::new();
        let mut cl_store: ClStore<C> = ClStore::new(7);
        let mut j: usize = 0;
        while j < num_buckets
            invariant
                j <= num_buckets,
                num_buckets as int == bucket_count(bytes_for_bucket_id),
                bucket_count(bytes_for_bucket_id) <= 0x100_0000 < C::INVALID_CL,
                cl_store@.wf(),
                cl_store@.free == Set::<u32>::empty(),
                cl_store@.cls.len() == j,
                buckets@.len() == j,
                forall|b: int| 0 <= b < j ==> #[trigger] buckets@[b].head == b as u32,
                forall|b: int|
                    0 <= b < j ==> #[trigger] cl_store@.cls[b] == empty_cl_view(C::INVALID_CL)
                        && cl_store@.stores[b] == Some(PerClView::empty()),
            decreases num_buckets - j,
        {
            let mut bkt = Bucket::new::<C>();
            let ghost before = cl_store@;
            bkt.head = cl_store.allocate_cl();
            buckets.push(bkt);
            proof {
                assert forall|b: int| 0 <= b < j + 1 implies #[trigger] cl_store@.cls[b] == empty_cl_view(C::INVALID_CL)
                    && cl_store@.stores[b] == Some(PerClView::empty()) by {
                    if b < j {
                        assert(before.cls[b] == empty_cl_view(C::INVALID_CL));
                    }
                }
            }
            j += 1;
        }
        let mut cache = Cache {
            buckets: buckets,
            cl_store: cl_store,
            next_free_cl: C::INVALID_CL,
            num_buckets: num_buckets,
            buckets_mask: buckets_mask,
            bytes_for_bucket_id: bytes_for_bucket_id,
            inline_val_num_bytes: 4,
            inline_key_num_bytes: 2,
            total_capacity: capacity,
        };
        let ghost before = cache.cl_store@;
        cache.next_free_cl = cache.cl_store.allocate_cl();
        proof {
            assert forall|b: int| 0 <= b < num_buckets + 1 implies #[trigger] cache.cl_store@.cls[b] == empty_cl_view(C::INVALID_CL)
                && cache.cl_store@.stores[b] == Some(PerClView::empty()) by {
                if b < num_buckets {
                    assert(before.cls[b] == empty_cl_view(C::INVALID_CL));
                }
            }
            assert forall|b: int| 0 <= b < cache@.heads.len() implies #[trigger] cache@.heads[b] == b as u32 by {
                assert(cache.buckets@[b].head == b as u32);
            }
            lemma_new_cache_wf(cache@, C::INVALID_CL, bytes_for_bucket_id);
        }
        cache
    }
}

} // verus!
