//! Buckets of the single-bucket layout: chains of cache lines searched by in-bucket key and
//! key reminder.
use vstd::prelude::*;

use crate::bits::bit;
use crate::cl::{
    find_result_matches, first_free_from, first_match_from, insert_view, lemma_first_free_from,
    lemma_first_match_at, lemma_first_match_from, lemma_first_match_same, opt_vec_view, reminder_at, reminders_cover,
    reminders_view, slot_matches, CacheDataEntry,
    CacheLine, ClFindResult, ClSlot, ClView, InBktKey, KeyReminder, ValueType,
};
use crate::cl_store::{
    field_freed, field_get, field_set, opt_slice_view, ClIndex, ClStore, ClStoreView, PerClStore,
    PerClVecMemStore, PerClView,
};

verus! {

pub struct Bucket {
    pub head: ClIndex,
}

#[derive(Clone, Copy, Eq, PartialEq, Debug)]
pub enum InsertRes {
    EntryExists(u32),
    Success(u32),
    OutOfSpace,
}

#[derive(Debug)]
pub enum FindRes {
    NotFound,
    Found((ClSlot, ClIndex, CacheDataEntry)),
}

/// `path` lists the lines of the chain that starts at `head` and follows the `next` links
/// until `INVALID_CL`; each listed line exists and has a byte store.
pub open spec fn is_chain(s: ClStoreView, head: u32, path: Seq<u32>) -> bool {
    &&& (path.len() == 0) == (head == CacheLine::INVALID_CL)
    &&& path.len() > 0 ==> path[0] == head && s.cls[path.last() as int].next == CacheLine::INVALID_CL
    &&& forall|k: int|
        0 <= k < path.len() ==> #[trigger] path[k] != CacheLine::INVALID_CL && (path[k] as int)
            < s.cls.len() && s.stores[path[k] as int] is Some
    &&& forall|k: int| 0 <= k < path.len() - 1 ==> s.cls[#[trigger] path[k] as int].next == path[k + 1]
}

/// The chain from `head` ends, and all its lines exist and have byte stores.
pub open spec fn has_chain(s: ClStoreView, head: u32) -> bool {
    exists|path: Seq<u32>| is_chain(s, head, path)
}

/// The lines of the chain from `head`.
pub open spec fn chain(s: ClStoreView, head: u32) -> Seq<u32> {
    choose|path: Seq<u32>| is_chain(s, head, path)
}

/// The key reminders of the seven slots of a line's byte store.
pub open spec fn slot_reminders(p: PerClView) -> Seq<Option<Seq<u8>>> {
    Seq::new(7, |i: int| field_get(p.k_rems, i))
}

/// The slot of line `cl` where a search for `bucket_key` and `key_reminder` matches.
pub open spec fn line_match(s: ClStoreView, cl: u32, bucket_key: u16, key_reminder: Option<Seq<u8>>) -> Option<int> {
    first_match_from(
        s.cls[cl as int],
        bucket_key,
        key_reminder,
        Some(slot_reminders(s.stores[cl as int].unwrap())),
        0,
    )
}

/// Where a search along `path`, from position `k` on, finds the entry: its line and slot.
pub open spec fn find_from(s: ClStoreView, path: Seq<u32>, bucket_key: u16, key_reminder: Option<Seq<u8>>, k: int) -> Option<(u32, int)>
    decreases path.len() - k,
{
    if k < 0 || k >= path.len() {
        None
    } else {
        match line_match(s, path[k], bucket_key, key_reminder) {
            Some(slot) => Some((path[k], slot)),
            None => find_from(s, path, bucket_key, key_reminder, k + 1),
        }
    }
}

/// `res` reports what a search finds at `found` in the store `s`.
pub open spec fn find_res_matches(res: FindRes, s: ClStoreView, found: Option<(u32, int)>) -> bool {
    match found {
        None => res is NotFound,
        Some((cl, slot)) => res == FindRes::Found(
            (slot as usize, cl, CacheDataEntry { value: s.cls[cl as int].values[slot] }),
        ),
    }
}

/// The store after removing the entry at line `cl`, slot `slot`.
pub open spec fn delete_store(s: ClStoreView, cl: u32, slot: int) -> ClStoreView {
    ClStoreView {
        cls: s.cls.update(
            cl as int,
            ClView { valid: s.cls[cl as int].valid ^ (1u8 << (slot as u8)), ..s.cls[cl as int] },
        ),
        ..s
    }
}

/// The state of a write's scan of a chain.
pub struct PutScan {
    /// an entry with the key was found, in line `cl`
    pub exists: bool,
    pub cl: u32,
    /// the last line seen with a free slot, and its first free slot
    pub to_write: u32,
    pub slot: usize,
    /// the last line seen
    pub tail: u32,
}

/// The state of a write's scan after the first `n` lines of `path`.
pub open spec fn put_scan(s: ClStoreView, path: Seq<u32>, bucket_key: u16, key_reminder: Option<Seq<u8>>, n: int) -> PutScan
    decreases n,
{
    if n <= 0 {
        PutScan {
            exists: false,
            cl: 0,
            to_write: CacheLine::INVALID_CL,
            slot: 0,
            tail: CacheLine::INVALID_CL,
        }
    } else {
        let prev = put_scan(s, path, bucket_key, key_reminder, n - 1);
        if prev.exists {
            prev
        } else {
            let cl = path[n - 1];
            let free = first_free_from(s.cls[cl as int], 0);
            match line_match(s, cl, bucket_key, key_reminder) {
                Some(_) => PutScan { exists: true, cl: cl, tail: cl, ..prev },
                None => PutScan {
                    tail: cl,
                    to_write: if free != 7 {
                        cl
                    } else {
                        prev.to_write
                    },
                    slot: if free != 7 {
                        free as usize
                    } else {
                        prev.slot
                    },
                    ..prev
                },
            }
        }
    }
}

/// The line and slot a write goes to, and whether `new_cl` is linked after the tail.
pub open spec fn put_target(sc: PutScan, new_cl: Option<u32>) -> (u32, usize, bool) {
    if sc.to_write == CacheLine::INVALID_CL && new_cl is Some {
        (new_cl.unwrap(), 0usize, true)
    } else {
        (sc.to_write, sc.slot, false)
    }
}

/// The store after writing the entry to line `w`, slot `slot`, before any linking.
pub open spec fn put_first_write(
    s: ClStoreView,
    w: u32,
    slot: int,
    bucket_key: u16,
    id: Seq<u8>,
    value: Option<Seq<u8>>,
    key_reminder: Seq<u8>,
    value_prefix: u32,
) -> ClStoreView {
    let p = s.stores[w as int].unwrap();
    ClStoreView {
        cls: s.cls.update(w as int, insert_view(s.cls[w as int], slot, bucket_key, value_prefix)),
        stores: s.stores.update(
            w as int,
            Some(
                PerClView {
                    ids: field_set(p.ids, slot, Some(id)),
                    k_rems: field_set(p.k_rems, slot, Some(key_reminder)),
                    v_s: field_set(p.v_s, slot, value),
                },
            ),
        ),
        free: s.free,
    }
}

/// What `Bucket::put` returns and the store after it.
pub open spec fn put_outcome(
    s: ClStoreView,
    path: Seq<u32>,
    id: Seq<u8>,
    value: Option<Seq<u8>>,
    bucket_key: u16,
    key_reminder: Option<Seq<u8>>,
    value_prefix: u32,
    new_cl: Option<u32>,
) -> (InsertRes, ClStoreView) {
    let sc = put_scan(s, path, bucket_key, key_reminder, path.len() as int);
    if sc.exists {
        (InsertRes::EntryExists(sc.cl), s)
    } else {
        let (w, slot, link) = put_target(sc, new_cl);
        if w == CacheLine::INVALID_CL {
            (InsertRes::OutOfSpace, s)
        } else {
            let s1 = put_first_write(
                s,
                w,
                slot as int,
                bucket_key,
                id,
                value,
                key_reminder.unwrap(),
                value_prefix,
            );
            let s2 = if link {
                ClStoreView {
                    cls: s1.cls.update(
                        sc.tail as int,
                        ClView { next: w, ..s1.cls[sc.tail as int] },
                    ),
                    ..s1
                }
            } else {
                s1
            };
            (InsertRes::Success(w), s2)
        }
    }
}

/// `Bucket::put` cannot fail: when it writes, there is a key reminder, and the lines it writes
/// exist and have byte stores.
pub open spec fn put_can_write(s: ClStoreView, path: Seq<u32>, bucket_key: u16, key_reminder: Option<Seq<u8>>, new_cl: Option<u32>) -> bool {
    let sc = put_scan(s, path, bucket_key, key_reminder, path.len() as int);
    let (w, slot, link) = put_target(sc, new_cl);
    (!sc.exists && w != CacheLine::INVALID_CL) ==> {
        &&& key_reminder is Some
        &&& link ==> {
            &&& (w as int) < s.stores.len()
            &&& s.stores[w as int] is Some
            &&& path.len() > 0
        }
    }
}

/// Once a write's scan has found the key it stays found.
pub proof fn lemma_put_scan_stable(s: ClStoreView, path: Seq<u32>, bucket_key: u16, key_reminder: Option<Seq<u8>>, n: int, m: int)
    requires
        0 <= n <= m,
        put_scan(s, path, bucket_key, key_reminder, n).exists,
    ensures
        put_scan(s, path, bucket_key, key_reminder, m) == put_scan(s, path, bucket_key, key_reminder, n),
    decreases m - n,
{
    if m > n {
        lemma_put_scan_stable(s, path, bucket_key, key_reminder, n, m - 1);
    }
}

/// A write's scan only targets lines of the chain, at a free slot, and its tail is the last
/// line seen.
pub proof fn lemma_put_scan(s: ClStoreView, head: u32, path: Seq<u32>, bucket_key: u16, key_reminder: Option<Seq<u8>>, n: int)
    requires
        s.wf(),
        is_chain(s, head, path),
        0 <= n <= path.len(),
    ensures
        ({
            let sc = put_scan(s, path, bucket_key, key_reminder, n);
            &&& !sc.exists ==> {
                &&& (n == 0 ==> sc.tail == CacheLine::INVALID_CL)
                &&& (n > 0 ==> sc.tail == path[n - 1])
                &&& sc.to_write != CacheLine::INVALID_CL ==> {
                    &&& exists|k: int| 0 <= k < n && path[k] == sc.to_write
                    &&& sc.slot < 7
                    &&& !bit(s.cls[sc.to_write as int].valid, sc.slot as int)
                    &&& sc.slot as int == first_free_from(s.cls[sc.to_write as int], 0)
                }
            }
        }),
    decreases n,
{
    if n > 0 {
        lemma_put_scan(s, head, path, bucket_key, key_reminder, n - 1);
        let prev = put_scan(s, path, bucket_key, key_reminder, n - 1);
        let sc = put_scan(s, path, bucket_key, key_reminder, n);
        if !prev.exists && !sc.exists {
            let cl = path[n - 1];
            lemma_first_free_from(s.cls[cl as int], 0);
            if first_free_from(s.cls[cl as int], 0) == 7 && sc.to_write != CacheLine::INVALID_CL {
                let k = choose|k: int| 0 <= k < n - 1 && path[k] == prev.to_write;
                assert(0 <= k < n && path[k] == sc.to_write);
            }
        }
    }
}

impl Bucket {
    /// An empty bucket.
    pub fn new() -> (b: Bucket)
        ensures
            b.head == CacheLine::INVALID_CL,
    {
        Bucket { head: CacheLine::INVALID_CL }
    }
}

/// The key reminders of the seven slots of a byte store.
fn reminders_of(store: &PerClVecMemStore) -> (rs: Vec<KeyReminder>)
    ensures
        rs@.map_values(|o: KeyReminder| opt_vec_view(o)) == slot_reminders(store@),
{
    let mut rs: Vec<KeyReminder> = Vec::new();
    let mut i: usize = 0;
    while i < 7
        invariant
            i <= 7,
            rs@.len() == i,
            forall|j: int| 0 <= j < i ==> opt_vec_view(#[trigger] rs@[j]) == field_get(store@.k_rems, j),
        decreases 7 - i,
    {
        let r = match store.get_key_rem(i) {
            Some(bytes) => Some(vstd::slice::slice_to_vec(bytes)),
            None => None,
        };
        rs.push(r);
        i += 1;
    }
    assert(rs@.map_values(|o: KeyReminder| opt_vec_view(o)) =~= slot_reminders(store@));
    rs
}

/// One step of a search: the result of searching a line with its byte store's reminders.
proof fn lemma_line_search(s: ClStoreView, cl: u32, store: PerClView, rs: Seq<Option<Seq<u8>>>, bucket_key: u16, key_reminder: Option<Seq<u8>>)
    requires
        s.stores[cl as int] == Some(store),
        rs == slot_reminders(store),
        s.cls[cl as int].wf(),
    ensures
        reminders_cover(s.cls[cl as int], bucket_key, key_reminder, Some(rs)),
        line_match(s, cl, bucket_key, key_reminder) == first_match_from(s.cls[cl as int], bucket_key, key_reminder, Some(rs), 0),
{
}

impl Bucket {
    /// Looks up the entry with `bucket_key` and `key_reminder` along the bucket's chain: the
    /// first line, and in it the first used slot, whose key and key reminder match.
    pub fn get(&mut self, cl_store: &mut ClStore, bucket_key: InBktKey, key_reminder: KeyReminder) -> (res: FindRes)
        requires
            old(cl_store)@.wf(),
            has_chain(old(cl_store)@, old(self).head),
        ensures
            *final(self) == *old(self),
            final(cl_store)@ == old(cl_store)@,
            find_res_matches(
                res,
                old(cl_store)@,
                find_from(old(cl_store)@, chain(old(cl_store)@, old(self).head), bucket_key, opt_vec_view(key_reminder), 0),
            ),
    {
        let ghost s = cl_store@;
        let ghost path = chain(s, self.head);
        let ghost kr = opt_vec_view(key_reminder);
        let mut cl = self.head;
        let ghost mut k: int = 0;
        while cl != CacheLine::INVALID_CL
            invariant
                s == cl_store@,
                s == old(cl_store)@,
                *self == *old(self),
                s.wf(),
                path == chain(s, self.head),
                is_chain(s, self.head, path),
                kr == opt_vec_view(key_reminder),
                0 <= k <= path.len(),
                cl == (if k < path.len() {
                    path[k]
                } else {
                    CacheLine::INVALID_CL
                }),
                find_from(s, path, bucket_key, kr, 0) == find_from(s, path, bucket_key, kr, k),
            decreases path.len() - k,
        {
            let cl_info = cl_store.get_cl_w_store(cl);
            let line = cl_info.0.unwrap();
            let rs = reminders_of(cl_info.1.unwrap());
            let rs_slice = rs.as_slice();
            proof {
                assert(s.cls[cl as int].wf());
                lemma_line_search(s, cl, cl_info.1.unwrap()@, reminders_view(Some(rs_slice)).unwrap(), bucket_key, kr);
                lemma_first_match_from(s.cls[cl as int], bucket_key, kr, reminders_view(Some(rs_slice)), 0);
            }
            let res = line.find_entry(bucket_key, &key_reminder, Some(rs_slice));
            match res {
                ClFindResult::FoundWSlot((slot, data)) => {
                    return FindRes::Found((slot, cl, data));
                },
                ClFindResult::NotFountFreeSlotsAndNext((_first_empty_slots, next_cl)) => {
                    cl = next_cl;
                },
            }
            proof {
                k = k + 1;
            }
        }
        FindRes::NotFound
    }

    /// Removes the entry that `get` would find: marks its slot unused and reports it.
    pub fn delete(&mut self, cl_store: &mut ClStore, bucket_key: InBktKey, key_reminder: KeyReminder) -> (res: FindRes)
        requires
            old(cl_store)@.wf(),
            has_chain(old(cl_store)@, old(self).head),
        ensures
            *final(self) == *old(self),
            final(cl_store)@.wf(),
            ({
                let found = find_from(
                    old(cl_store)@,
                    chain(old(cl_store)@, old(self).head),
                    bucket_key,
                    opt_vec_view(key_reminder),
                    0,
                );
                &&& find_res_matches(res, old(cl_store)@, found)
                &&& found is None ==> final(cl_store)@ == old(cl_store)@
                &&& found matches Some((cl, slot)) ==> final(cl_store)@ == delete_store(old(cl_store)@, cl, slot)
            }),
    {
        let ghost s = cl_store@;
        let ghost path = chain(s, self.head);
        let ghost kr = opt_vec_view(key_reminder);
        let mut cl = self.head;
        let ghost mut k: int = 0;
        while cl != CacheLine::INVALID_CL
            invariant
                s == cl_store@,
                s == old(cl_store)@,
                *self == *old(self),
                s.wf(),
                path == chain(s, self.head),
                is_chain(s, self.head, path),
                kr == opt_vec_view(key_reminder),
                0 <= k <= path.len(),
                cl == (if k < path.len() {
                    path[k]
                } else {
                    CacheLine::INVALID_CL
                }),
                find_from(s, path, bucket_key, kr, 0) == find_from(s, path, bucket_key, kr, k),
            decreases path.len() - k,
        {
            let rs = reminders_of(cl_store.get_cl_w_store(cl).1.unwrap());
            let rs_slice = rs.as_slice();
            let ghost store_view = s.stores[cl as int].unwrap();
            proof {
                assert(s.cls[cl as int].wf());
                lemma_line_search(s, cl, store_view, reminders_view(Some(rs_slice)).unwrap(), bucket_key, kr);
                lemma_first_match_from(s.cls[cl as int], bucket_key, kr, reminders_view(Some(rs_slice)), 0);
            }
            let (line, _) = cl_store.get_mut_cl_w_store(cl);
            let line = line.unwrap();
            let res = line.remove_entry(bucket_key, &key_reminder, Some(rs_slice));
            match res {
                ClFindResult::FoundWSlot((slot, data)) => {
                    proof {
                        assert(cl_store@.cls =~= delete_store(s, cl, slot as int).cls);
                        assert(cl_store@.stores =~= s.stores);
                        assert(cl_store@.free == s.free);
                        assert(cl_store@ == delete_store(s, cl, slot as int));
                        assert forall|i: int| 0 <= i < cl_store@.cls.len() implies (#[trigger] cl_store@.cls[i]).wf() by {
                            assert(s.cls[i].wf());
                        }
                    }
                    return FindRes::Found((slot, cl, data));
                },
                ClFindResult::NotFountFreeSlotsAndNext((_first_empty_slots, next_cl)) => {
                    proof {
                        assert(cl_store@.cls =~= s.cls);
                        assert(cl_store@.stores =~= s.stores);
                        assert(cl_store@.free == s.free);
                    }
                    cl = next_cl;
                },
            }
            proof {
                k = k + 1;
            }
        }
        FindRes::NotFound
    }

    /// Writes an entry into the bucket's chain unless one with `bucket_key` and
    /// `key_reminder` is already there.
    ///
    /// The chain is scanned line by line: a matching entry ends the scan with `EntryExists`.
    /// Otherwise the entry goes to the first free slot of the last line with a free slot; when
    /// there is none it goes to slot 0 of `new_cl`, which is then linked after the last line;
    /// without `new_cl` the result is `OutOfSpace`. The bucket itself is not changed.
    pub fn put(
        &mut self,
        cl_store: &mut ClStore,
        id: &[u8],
        value: Option<&[u8]>,
        bucket_key: InBktKey,
        key_reminder: KeyReminder,
        value_prefix: ValueType,
        _should_evict: bool,
        new_cl: Option<ClIndex>,
    ) -> (res: InsertRes)
        requires
            old(cl_store)@.wf(),
            has_chain(old(cl_store)@, old(self).head),
            put_can_write(
                old(cl_store)@,
                chain(old(cl_store)@, old(self).head),
                bucket_key,
                opt_vec_view(key_reminder),
                new_cl,
            ),
        ensures
            *final(self) == *old(self),
            final(cl_store)@.wf(),
            (res, final(cl_store)@) == put_outcome(
                old(cl_store)@,
                chain(old(cl_store)@, old(self).head),
                id@,
                opt_slice_view(value),
                bucket_key,
                opt_vec_view(key_reminder),
                value_prefix,
                new_cl,
            ),
    {
        let ghost s = cl_store@;
        let ghost path = chain(s, self.head);
        let ghost kr = opt_vec_view(key_reminder);
        let mut cl = self.head;
        let mut cl_to_write = CacheLine::INVALID_CL;
        let mut slot_to_write: usize = 0;
        let mut cl_tail = CacheLine::INVALID_CL;
        let ghost mut k: int = 0;
        while cl != CacheLine::INVALID_CL
            invariant
                s == cl_store@,
                s == old(cl_store)@,
                *self == *old(self),
                s.wf(),
                path == chain(s, self.head),
                is_chain(s, self.head, path),
                kr == opt_vec_view(key_reminder),
                0 <= k <= path.len(),
                cl == (if k < path.len() {
                    path[k]
                } else {
                    CacheLine::INVALID_CL
                }),
                !put_scan(s, path, bucket_key, kr, k).exists,
                put_scan(s, path, bucket_key, kr, k).to_write == cl_to_write,
                put_scan(s, path, bucket_key, kr, k).slot == slot_to_write,
                put_scan(s, path, bucket_key, kr, k).tail == cl_tail,
            decreases path.len() - k,
        {
            let cl_info = cl_store.get_cl_w_store(cl);
            let line = cl_info.0.unwrap();
            let rs = reminders_of(cl_info.1.unwrap());
            let rs_slice = rs.as_slice();
            proof {
                assert(s.cls[cl as int].wf());
                lemma_line_search(s, cl, cl_info.1.unwrap()@, reminders_view(Some(rs_slice)).unwrap(), bucket_key, kr);
                lemma_first_free_from(s.cls[cl as int], 0);
            }
            let res = line.find_entry(bucket_key, &key_reminder, Some(rs_slice));
            cl_tail = cl;
            match res {
                ClFindResult::FoundWSlot((_slot, _d)) => {
                    proof {
                        assert(put_scan(s, path, bucket_key, kr, k + 1).exists);
                        lemma_put_scan_stable(s, path, bucket_key, kr, k + 1, path.len() as int);
                    }
                    return InsertRes::EntryExists(cl);
                },
                ClFindResult::NotFountFreeSlotsAndNext((first_empty_slots, next_cl)) => {
                    if first_empty_slots != CacheLine::INVALID_SLOT {
                        cl_to_write = cl;
                        slot_to_write = first_empty_slots;
                    }
                    cl = next_cl;
                },
            }
            proof {
                k = k + 1;
            }
        }
        let ghost sc = put_scan(s, path, bucket_key, kr, path.len() as int);
        proof {
            lemma_put_scan(s, self.head, path, bucket_key, kr, path.len() as int);
        }
        let mut set_tail = false;
        if cl_to_write == CacheLine::INVALID_CL {
            match new_cl {
                Some(c) => {
                    cl_to_write = c;
                    slot_to_write = 0;
                    set_tail = true;
                },
                None => {},
            };
        }
        assert((cl_to_write, slot_to_write, set_tail) == put_target(sc, new_cl));
        if cl_to_write != CacheLine::INVALID_CL {
            let ghost w = cl_to_write;
            proof {
                if !set_tail {
                    let kk = choose|kk: int| 0 <= kk < path.len() && path[kk] == sc.to_write;
                    assert(path[kk] == cl_to_write);
                }
            }
            let kr_bytes = key_reminder.unwrap();
            let ghost s1 = put_first_write(s, w, slot_to_write as int, bucket_key, id@, opt_slice_view(value), kr_bytes@, value_prefix);
            {
                let (line, line_store) = cl_store.get_mut_cl_w_store(cl_to_write);
                line.unwrap().insert_entry_to_slot(slot_to_write, bucket_key, value_prefix);
                line_store.unwrap().set(slot_to_write, Some(id), Some(kr_bytes.as_slice()), value);
            }
            proof {
                assert(cl_store@.cls =~= s1.cls);
                assert(cl_store@.stores =~= s1.stores);
                assert forall|i: int| 0 <= i < s1.cls.len() implies (#[trigger] s1.cls[i]).wf() by {
                    assert(s.cls[i].wf());
                }
            }
            if set_tail {
                let (tail, _) = cl_store.get_mut_cl_w_store(cl_tail);
                tail.unwrap().set_next_cl(cl_to_write);
                proof {
                    let s2 = ClStoreView {
                        cls: s1.cls.update(
                            cl_tail as int,
                            ClView { next: w, ..s1.cls[cl_tail as int] },
                        ),
                        ..s1
                    };
                    assert(cl_store@.cls =~= s2.cls);
                    assert(cl_store@.stores =~= s2.stores);
                    assert forall|i: int| 0 <= i < s2.cls.len() implies (#[trigger] s2.cls[i]).wf() by {
                        assert(s1.cls[i].wf());
                    }
                }
            }
            return InsertRes::Success(cl_to_write);
        }
        InsertRes::OutOfSpace
    }
}

/// Two chains from the same head agree up to position `k`.
proof fn lemma_chain_prefix_eq(s: ClStoreView, head: u32, p1: Seq<u32>, p2: Seq<u32>, k: int)
    requires
        is_chain(s, head, p1),
        is_chain(s, head, p2),
        0 <= k < p1.len(),
        k < p2.len(),
    ensures
        p1[k] == p2[k],
    decreases k,
{
    if k > 0 {
        lemma_chain_prefix_eq(s, head, p1, p2, k - 1);
        assert(s.cls[p1[k - 1] as int].next == p1[k]);
        assert(s.cls[p2[k - 1] as int].next == p2[k]);
    }
}

/// The chain from a head is unique.
pub proof fn lemma_chain_unique(s: ClStoreView, head: u32, p1: Seq<u32>, p2: Seq<u32>)
    requires
        is_chain(s, head, p1),
        is_chain(s, head, p2),
    ensures
        p1 == p2,
{
    if p1.len() < p2.len() {
        let k = p1.len() - 1;
        lemma_chain_prefix_eq(s, head, p1, p2, k);
        assert(s.cls[p2[k] as int].next == p2[k + 1]);
        assert(false);
    } else if p2.len() < p1.len() {
        let k = p2.len() - 1;
        lemma_chain_prefix_eq(s, head, p1, p2, k);
        assert(s.cls[p1[k] as int].next == p1[k + 1]);
        assert(false);
    }
    assert forall|k: int| 0 <= k < p1.len() implies p1[k] == p2[k] by {
        lemma_chain_prefix_eq(s, head, p1, p2, k);
    }
    assert(p1 =~= p2);
}

/// A chain that is the chain of its head.
pub proof fn lemma_chain_is(s: ClStoreView, head: u32, p: Seq<u32>)
    requires
        is_chain(s, head, p),
    ensures
        has_chain(s, head),
        chain(s, head) == p,
{
    lemma_chain_unique(s, head, chain(s, head), p);
}

proof fn lemma_chain_repeat(s: ClStoreView, head: u32, p: Seq<u32>, i: int, j: int, m: int)
    requires
        is_chain(s, head, p),
        0 <= i < j,
        j + m < p.len(),
        0 <= m,
        p[i] == p[j],
    ensures
        p[i + m] == p[j + m],
    decreases m,
{
    if m > 0 {
        lemma_chain_repeat(s, head, p, i, j, m - 1);
        assert(s.cls[p[i + m - 1] as int].next == p[i + m]);
        assert(s.cls[p[j + m - 1] as int].next == p[j + m]);
    }
}

/// A chain visits no line twice.
pub proof fn lemma_chain_distinct(s: ClStoreView, head: u32, p: Seq<u32>)
    requires
        is_chain(s, head, p),
    ensures
        forall|i: int, j: int| 0 <= i < j < p.len() ==> p[i] != p[j],
{
    assert forall|i: int, j: int| 0 <= i < j < p.len() implies p[i] != p[j] by {
        if p[i] == p[j] {
            let m = p.len() - 1 - j;
            lemma_chain_repeat(s, head, p, i, j, m);
            assert(s.cls[p[i + m] as int].next == p[i + m + 1]);
        }
    }
}

/// A chain has at most as many lines as the store.
pub proof fn lemma_chain_len(s: ClStoreView, head: u32, p: Seq<u32>)
    requires
        is_chain(s, head, p),
    ensures
        p.len() <= s.cls.len(),
{
    lemma_chain_distinct(s, head, p);
    assert forall|k: int| 0 <= k < p.len() implies (#[trigger] p[k] as int) < s.cls.len() by {}
    crate::cache::bucket::lemma_distinct_below(p, s.cls.len() as int);
}

/// A chain stays a chain in a store whose lines along it keep their links and byte stores.
pub proof fn lemma_chain_frame(s1: ClStoreView, s2: ClStoreView, head: u32, p: Seq<u32>)
    requires
        is_chain(s1, head, p),
        forall|k: int|
            0 <= k < p.len() ==> {
                &&& (#[trigger] p[k] as int) < s2.cls.len()
                &&& s2.cls[p[k] as int].next == s1.cls[p[k] as int].next
                &&& s2.stores[p[k] as int] is Some
            },
    ensures
        is_chain(s2, head, p),
{
    if p.len() > 0 {
        assert(s2.cls[p.last() as int].next == s1.cls[p.last() as int].next);
    }
}

/// A search that finds nothing finds nothing in any line.
pub proof fn lemma_find_from_none(s: ClStoreView, path: Seq<u32>, bucket_key: u16, key_reminder: Option<Seq<u8>>, k: int)
    requires
        0 <= k,
        find_from(s, path, bucket_key, key_reminder, k) is None,
    ensures
        forall|j: int| k <= j < path.len() ==> #[trigger] line_match(s, path[j], bucket_key, key_reminder) is None,
    decreases path.len() - k,
{
    if k < path.len() {
        lemma_find_from_none(s, path, bucket_key, key_reminder, k + 1);
    }
}

/// A search finds the first line that has the entry.
pub proof fn lemma_find_from_at(s: ClStoreView, path: Seq<u32>, bucket_key: u16, key_reminder: Option<Seq<u8>>, k: int, j: int)
    requires
        0 <= k <= j < path.len(),
        forall|i: int| k <= i < j ==> #[trigger] line_match(s, path[i], bucket_key, key_reminder) is None,
        line_match(s, path[j], bucket_key, key_reminder) is Some,
    ensures
        find_from(s, path, bucket_key, key_reminder, k) == Some(
            (path[j], line_match(s, path[j], bucket_key, key_reminder).unwrap()),
        ),
    decreases j - k,
{
    if k < j {
        lemma_find_from_at(s, path, bucket_key, key_reminder, k + 1, j);
    }
}

/// What a search finds is a line of the path and the slot its line search returns.
pub proof fn lemma_find_from_found(s: ClStoreView, path: Seq<u32>, bucket_key: u16, key_reminder: Option<Seq<u8>>, k: int)
    requires
        0 <= k,
        find_from(s, path, bucket_key, key_reminder, k) is Some,
    ensures
        ({
            let (cl, slot) = find_from(s, path, bucket_key, key_reminder, k).unwrap();
            &&& exists|j: int| k <= j < path.len() && path[j] == cl
            &&& line_match(s, cl, bucket_key, key_reminder) == Some(slot)
        }),
    decreases path.len() - k,
{
    if line_match(s, path[k], bucket_key, key_reminder) is None {
        lemma_find_from_found(s, path, bucket_key, key_reminder, k + 1);
    } else {
        assert(path[k] == path[k]);
    }
}

/// A write's scan finds an entry exactly when a search does, in the same line.
pub proof fn lemma_put_scan_find(s: ClStoreView, path: Seq<u32>, bucket_key: u16, key_reminder: Option<Seq<u8>>, k: int)
    requires
        0 <= k <= path.len(),
        !put_scan(s, path, bucket_key, key_reminder, k).exists,
    ensures
        put_scan(s, path, bucket_key, key_reminder, path.len() as int).exists == find_from(s, path, bucket_key, key_reminder, k) is Some,
        put_scan(s, path, bucket_key, key_reminder, path.len() as int).exists ==> put_scan(
            s,
            path,
            bucket_key,
            key_reminder,
            path.len() as int,
        ).cl == find_from(s, path, bucket_key, key_reminder, k).unwrap().0,
    decreases path.len() - k,
{
    if k < path.len() {
        if line_match(s, path[k], bucket_key, key_reminder) is Some {
            assert(put_scan(s, path, bucket_key, key_reminder, k + 1).exists);
            lemma_put_scan_stable(s, path, bucket_key, key_reminder, k + 1, path.len() as int);
        } else {
            lemma_put_scan_find(s, path, bucket_key, key_reminder, k + 1);
        }
    }
}

/// Putting a key that a search finds reports the line it is in and changes nothing.
pub proof fn law_put_finds_existing(
    s: ClStoreView,
    head: u32,
    id: Seq<u8>,
    value: Option<Seq<u8>>,
    bucket_key: u16,
    key_reminder: Option<Seq<u8>>,
    value_prefix: u32,
    new_cl: Option<u32>,
)
    requires
        has_chain(s, head),
        find_from(s, chain(s, head), bucket_key, key_reminder, 0) is Some,
    ensures
        put_outcome(s, chain(s, head), id, value, bucket_key, key_reminder, value_prefix, new_cl) == (
            InsertRes::EntryExists(find_from(s, chain(s, head), bucket_key, key_reminder, 0).unwrap().0),
            s,
        ),
{
    lemma_put_scan_find(s, chain(s, head), bucket_key, key_reminder, 0);
}

/// After a search finds an entry and it is deleted, the same search does not find it again.
pub proof fn law_get_after_delete(s: ClStoreView, head: u32, bucket_key: u16, key_reminder: Option<Seq<u8>>)
    requires
        s.wf(),
        has_chain(s, head),
        find_from(s, chain(s, head), bucket_key, key_reminder, 0) is Some,
    ensures
        ({
            let (cl, slot) = find_from(s, chain(s, head), bucket_key, key_reminder, 0).unwrap();
            let d = delete_store(s, cl, slot);
            &&& has_chain(d, head)
            &&& chain(d, head) == chain(s, head)
            &&& find_from(d, chain(d, head), bucket_key, key_reminder, 0) != Some((cl, slot))
        }),
{
    let path = chain(s, head);
    let (cl, slot) = find_from(s, path, bucket_key, key_reminder, 0).unwrap();
    let d = delete_store(s, cl, slot);
    lemma_find_from_found(s, path, bucket_key, key_reminder, 0);
    let v = s.cls[cl as int];
    let rs = Some(slot_reminders(s.stores[cl as int].unwrap()));
    lemma_first_match_from(v, bucket_key, key_reminder, rs, 0);
    assert forall|k: int| 0 <= k < path.len() implies {
        &&& (#[trigger] path[k] as int) < d.cls.len()
        &&& d.cls[path[k] as int].next == s.cls[path[k] as int].next
        &&& d.stores[path[k] as int] is Some
    } by {}
    lemma_chain_frame(s, d, head, path);
    lemma_chain_is(d, head, path);
    if find_from(d, path, bucket_key, key_reminder, 0) == Some((cl, slot)) {
        lemma_find_from_found(d, path, bucket_key, key_reminder, 0);
        let dv = d.cls[cl as int];
        lemma_first_match_from(dv, bucket_key, key_reminder, rs, 0);
        crate::bits::lemma_bit_xor(v.valid, 1u8 << (slot as u8));
        crate::bits::lemma_bit_single(slot as u8);
        assert(!bit(dv.valid, slot));
    }
}

/// The preconditions under which a successful put of a new key is examined: the key is not
/// found, the put writes, and a linked line is free, ends its own chain and is not in the chain.
pub open spec fn put_new_key_pre(
    s: ClStoreView,
    head: u32,
    id: Seq<u8>,
    value: Option<Seq<u8>>,
    bucket_key: u16,
    key_reminder: Seq<u8>,
    value_prefix: u32,
    new_cl: Option<u32>,
) -> bool {
    let path = chain(s, head);
    let kr = Some(key_reminder);
    let (w, slot, link) = put_target(put_scan(s, path, bucket_key, kr, path.len() as int), new_cl);
    &&& s.wf()
    &&& has_chain(s, head)
    &&& key_reminder.len() > 0
    &&& put_can_write(s, path, bucket_key, kr, new_cl)
    &&& put_outcome(s, path, id, value, bucket_key, kr, value_prefix, new_cl).0 is Success
    &&& link ==> {
        &&& (w as int) < s.cls.len()
        &&& !bit(s.cls[w as int].valid, 0)
        &&& s.cls[w as int].next == CacheLine::INVALID_CL
        &&& !path.contains(w)
    }
}

/// After a successful put of a new key, the chain is the old one, with the linked line at its
/// end when one was linked.
proof fn lemma_put_new_chain(
    s: ClStoreView,
    head: u32,
    id: Seq<u8>,
    value: Option<Seq<u8>>,
    bucket_key: u16,
    key_reminder: Seq<u8>,
    value_prefix: u32,
    new_cl: Option<u32>,
)
    requires
        put_new_key_pre(s, head, id, value, bucket_key, key_reminder, value_prefix, new_cl),
    ensures
        ({
            let path = chain(s, head);
            let kr = Some(key_reminder);
            let (w, slot, link) = put_target(put_scan(s, path, bucket_key, kr, path.len() as int), new_cl);
            let s2 = put_outcome(s, path, id, value, bucket_key, kr, value_prefix, new_cl).1;
            &&& has_chain(s2, head)
            &&& chain(s2, head) == if link { path.push(w) } else { path }
            &&& put_outcome(s, path, id, value, bucket_key, kr, value_prefix, new_cl).0 == InsertRes::Success(w)
            &&& !put_scan(s, path, bucket_key, kr, path.len() as int).exists
        }),
{
    let path = chain(s, head);
    let kr = Some(key_reminder);
    let sc = put_scan(s, path, bucket_key, kr, path.len() as int);
    let (w, slot, link) = put_target(sc, new_cl);
    lemma_chain_is(s, head, path);
    lemma_put_scan(s, head, path, bucket_key, kr, path.len() as int);
    lemma_chain_distinct(s, head, path);
    let s2 = put_outcome(s, path, id, value, bucket_key, kr, value_prefix, new_cl).1;
    let tail = sc.tail;
    if link {
        let np = path.push(w);
        assert(w != tail);
        assert(is_chain(s2, head, np)) by {
            assert forall|k: int| 0 <= k < np.len() - 1 implies s2.cls[#[trigger] np[k] as int].next == np[k + 1] by {
                if k < path.len() - 1 {
                    assert(np[k] != tail);
                    assert(s.cls[path[k] as int].next == path[k + 1]);
                }
            }
        }
        lemma_chain_is(s2, head, np);
    } else {
        assert forall|k: int| 0 <= k < path.len() implies {
            &&& (#[trigger] path[k] as int) < s2.cls.len()
            &&& s2.cls[path[k] as int].next == s.cls[path[k] as int].next
            &&& s2.stores[path[k] as int] is Some
        } by {}
        lemma_chain_frame(s, s2, head, path);
        lemma_chain_is(s2, head, path);
    }
}

/// After a successful put of a new key, the written line matches the key at the written slot,
/// and no other line of the old chain matches it.
proof fn lemma_put_new_lines(
    s: ClStoreView,
    head: u32,
    id: Seq<u8>,
    value: Option<Seq<u8>>,
    bucket_key: u16,
    key_reminder: Seq<u8>,
    value_prefix: u32,
    new_cl: Option<u32>,
)
    requires
        put_new_key_pre(s, head, id, value, bucket_key, key_reminder, value_prefix, new_cl),
        !put_scan(s, chain(s, head), bucket_key, Some(key_reminder), chain(s, head).len() as int).exists,
    ensures
        ({
            let path = chain(s, head);
            let kr = Some(key_reminder);
            let (w, slot, link) = put_target(put_scan(s, path, bucket_key, kr, path.len() as int), new_cl);
            let s2 = put_outcome(s, path, id, value, bucket_key, kr, value_prefix, new_cl).1;
            &&& line_match(s2, w, bucket_key, kr) == Some(slot as int)
            &&& s2.cls[w as int].values[slot as int] == value_prefix
            &&& forall|k: int|
                0 <= k < path.len() && path[k] != w ==> #[trigger] line_match(s2, path[k], bucket_key, kr) is None
            &&& !link ==> path.contains(w)
        }),
{
    let path = chain(s, head);
    let kr = Some(key_reminder);
    let sc = put_scan(s, path, bucket_key, kr, path.len() as int);
    let (w, slot, link) = put_target(sc, new_cl);
    let slot = slot as int;
    lemma_chain_is(s, head, path);
    lemma_put_scan(s, head, path, bucket_key, kr, path.len() as int);
    lemma_put_scan_find(s, path, bucket_key, kr, 0);
    lemma_find_from_none(s, path, bucket_key, kr, 0);
    let s2 = put_outcome(s, path, id, value, bucket_key, kr, value_prefix, new_cl).1;
    let v = s.cls[w as int];
    let v2 = s2.cls[w as int];
    let rs = Some(slot_reminders(s.stores[w as int].unwrap()));
    let rs2 = Some(slot_reminders(s2.stores[w as int].unwrap()));
    assert(w != sc.tail || !link);
    assert(v2 == insert_view(v, slot, bucket_key, value_prefix));
    crate::bits::lemma_bit_xor(v.valid, 1u8 << (slot as u8));
    crate::bits::lemma_bit_single(slot as u8);
    assert(slot_matches(v2, bucket_key, kr, rs2, slot));
    if !link {
        let kw = choose|kw: int| 0 <= kw < path.len() && path[kw] == sc.to_write;
        assert(line_match(s, path[kw], bucket_key, kr) is None);
        lemma_first_match_from(v, bucket_key, kr, rs, 0);
        lemma_first_free_from(v, 0);
        assert(path.contains(w));
    }
    assert forall|j: int| 0 <= j < slot implies !slot_matches(v2, bucket_key, kr, rs2, j) by {
        assert(reminder_at(rs2, j) == reminder_at(rs, j));
        assert(!slot_matches(v, bucket_key, kr, rs, j));
    }
    lemma_first_match_at(v2, bucket_key, kr, rs2, 0, slot);
    assert forall|k: int| 0 <= k < path.len() && path[k] != w implies #[trigger] line_match(s2, path[k], bucket_key, kr) is None by {
        assert(line_match(s, path[k], bucket_key, kr) is None);
        assert(s2.cls[path[k] as int].valid == s.cls[path[k] as int].valid);
        assert(s2.cls[path[k] as int].keys == s.cls[path[k] as int].keys);
        assert(s2.stores[path[k] as int] == s.stores[path[k] as int]);
        lemma_first_match_same(
            s.cls[path[k] as int],
            s2.cls[path[k] as int],
            bucket_key,
            kr,
            Some(slot_reminders(s.stores[path[k] as int].unwrap())),
            0,
        );
    }
}

/// Putting a non-empty key reminder that a search does not find, when the put succeeds, makes
/// the search find the new entry, with its value. When the put links `new_cl`, that line must
/// have slot 0 free, end the chain it starts, and not be in the bucket's chain already.
pub proof fn law_get_after_put(
    s: ClStoreView,
    head: u32,
    id: Seq<u8>,
    value: Option<Seq<u8>>,
    bucket_key: u16,
    key_reminder: Seq<u8>,
    value_prefix: u32,
    new_cl: Option<u32>,
)
    requires
        put_new_key_pre(s, head, id, value, bucket_key, key_reminder, value_prefix, new_cl),
    ensures
        ({
            let (res, s2) = put_outcome(s, chain(s, head), id, value, bucket_key, Some(key_reminder), value_prefix, new_cl);
            let w = res->Success_0;
            &&& has_chain(s2, head)
            &&& find_from(s2, chain(s2, head), bucket_key, Some(key_reminder), 0) matches Some((cl, slot))
            &&& cl == w
            &&& s2.cls[w as int].values[slot] == value_prefix
        }),
{
    let path = chain(s, head);
    let kr = Some(key_reminder);
    let sc = put_scan(s, path, bucket_key, kr, path.len() as int);
    let (w, slot, link) = put_target(sc, new_cl);
    lemma_put_new_chain(s, head, id, value, bucket_key, key_reminder, value_prefix, new_cl);
    lemma_put_new_lines(s, head, id, value, bucket_key, key_reminder, value_prefix, new_cl);
    let s2 = put_outcome(s, path, id, value, bucket_key, kr, value_prefix, new_cl).1;
    lemma_chain_is(s, head, path);
    lemma_chain_distinct(s, head, path);
    if link {
        let np = path.push(w);
        assert forall|i: int| 0 <= i < path.len() implies #[trigger] line_match(s2, np[i], bucket_key, kr) is None by {
            assert(np[i] == path[i]);
            assert(path[i] != w);
        }
        assert(np[path.len() as int] == w);
        lemma_find_from_at(s2, np, bucket_key, kr, 0, path.len() as int);
    } else {
        let kw = choose|kw: int| 0 <= kw < path.len() && path[kw] == w;
        assert forall|i: int| 0 <= i < kw implies #[trigger] line_match(s2, path[i], bucket_key, kr) is None by {
            assert(path[i] != path[kw]);
        }
        lemma_find_from_at(s2, path, bucket_key, kr, 0, kw);
    }
}

/// What a read of a slot's key reminder gives after a put stores `key_reminder` there.
pub open spec fn stored_read(key_reminder: Seq<u8>) -> Option<Seq<u8>> {
    if key_reminder.len() > 0 {
        Some(key_reminder)
    } else {
        None
    }
}

/// A line search agrees on two lines whose slots from `i` on match alike.
proof fn lemma_first_match_same_slots(
    v1: ClView,
    rs1: Option<Seq<Option<Seq<u8>>>>,
    v2: ClView,
    rs2: Option<Seq<Option<Seq<u8>>>>,
    bucket_key: u16,
    key_reminder: Option<Seq<u8>>,
    i: int,
)
    requires
        0 <= i <= 7,
        forall|j: int|
            i <= j < 7 ==> #[trigger] slot_matches(v1, bucket_key, key_reminder, rs1, j) == slot_matches(
                v2,
                bucket_key,
                key_reminder,
                rs2,
                j,
            ),
    ensures
        first_match_from(v1, bucket_key, key_reminder, rs1, i) == first_match_from(v2, bucket_key, key_reminder, rs2, i),
    decreases 7 - i,
{
    if i < 7 {
        lemma_first_match_same_slots(v1, rs1, v2, rs2, bucket_key, key_reminder, i + 1);
    }
}

/// Where a search along a path finds an entry: the position of its line, every line before it
/// finding nothing.
proof fn lemma_find_from_position(s: ClStoreView, path: Seq<u32>, bucket_key: u16, key_reminder: Option<Seq<u8>>, k: int)
    requires
        0 <= k,
        find_from(s, path, bucket_key, key_reminder, k) is Some,
    ensures
        exists|p: int|
            k <= p < path.len() && #[trigger] path[p] == find_from(s, path, bucket_key, key_reminder, k).unwrap().0
                && line_match(s, path[p], bucket_key, key_reminder) == Some(
                find_from(s, path, bucket_key, key_reminder, k).unwrap().1,
            ) && forall|i: int| k <= i < p ==> #[trigger] line_match(s, path[i], bucket_key, key_reminder) is None,
    decreases path.len() - k,
{
    if line_match(s, path[k], bucket_key, key_reminder) is None {
        lemma_find_from_position(s, path, bucket_key, key_reminder, k + 1);
        let p = choose|p: int|
            k + 1 <= p < path.len() && #[trigger] path[p] == find_from(s, path, bucket_key, key_reminder, k + 1).unwrap().0
                && line_match(s, path[p], bucket_key, key_reminder) == Some(
                find_from(s, path, bucket_key, key_reminder, k + 1).unwrap().1,
            ) && forall|i: int| k + 1 <= i < p ==> #[trigger] line_match(s, path[i], bucket_key, key_reminder) is None;
        assert(k <= p < path.len() && path[p] == find_from(s, path, bucket_key, key_reminder, k).unwrap().0);
    } else {
        assert(path[k] == find_from(s, path, bucket_key, key_reminder, k).unwrap().0);
    }
}

/// A put leaves every entry it did not write as it was: a search for a key that found an
/// entry before finds the same line and slot after the put, with the same inline value and the
/// same bytes in the line's byte store, unless the put wrote that very key (the same in-bucket
/// key, and a key reminder that reads back as the one searched for). When the put links
/// `new_cl`, that line must end its own chain and not be in the bucket's chain already.
pub proof fn law_put_keeps_other_entries(
    s: ClStoreView,
    head: u32,
    id: Seq<u8>,
    value: Option<Seq<u8>>,
    bucket_key: u16,
    key_reminder: Option<Seq<u8>>,
    value_prefix: u32,
    new_cl: Option<u32>,
    other_key: u16,
    other_reminder: Option<Seq<u8>>,
)
    requires
        s.wf(),
        has_chain(s, head),
        put_can_write(s, chain(s, head), bucket_key, key_reminder, new_cl),
        put_outcome(s, chain(s, head), id, value, bucket_key, key_reminder, value_prefix, new_cl).0 is Success,
        put_target(put_scan(s, chain(s, head), bucket_key, key_reminder, chain(s, head).len() as int), new_cl).2 ==> {
            &&& s.cls[new_cl.unwrap() as int].next == CacheLine::INVALID_CL
            &&& !chain(s, head).contains(new_cl.unwrap())
        },
        find_from(s, chain(s, head), other_key, other_reminder, 0) is Some,
        !(other_key == bucket_key && other_reminder == stored_read(key_reminder.unwrap())),
    ensures
        ({
            let path = chain(s, head);
            let s2 = put_outcome(s, path, id, value, bucket_key, key_reminder, value_prefix, new_cl).1;
            let (cl2, slot2) = find_from(s, path, other_key, other_reminder, 0).unwrap();
            let p = s.stores[cl2 as int].unwrap();
            let p2 = s2.stores[cl2 as int].unwrap();
            &&& has_chain(s2, head)
            &&& find_from(s2, chain(s2, head), other_key, other_reminder, 0) == Some((cl2, slot2))
            &&& s2.cls[cl2 as int].values[slot2] == s.cls[cl2 as int].values[slot2]
            &&& field_get(p2.ids, slot2) == field_get(p.ids, slot2)
            &&& field_get(p2.k_rems, slot2) == field_get(p.k_rems, slot2)
            &&& field_get(p2.v_s, slot2) == field_get(p.v_s, slot2)
        }),
{
    let path = chain(s, head);
    lemma_chain_is(s, head, path);
    lemma_chain_distinct(s, head, path);
    let sc = put_scan(s, path, bucket_key, key_reminder, path.len() as int);
    let (w, slot, link) = put_target(sc, new_cl);
    let slot = slot as int;
    lemma_put_scan(s, head, path, bucket_key, key_reminder, path.len() as int);
    let kr = key_reminder.unwrap();
    let s1 = put_first_write(s, w, slot, bucket_key, id, value, kr, value_prefix);
    let s2 = put_outcome(s, path, id, value, bucket_key, key_reminder, value_prefix, new_cl).1;
    let tail = sc.tail;
    let (cl2, slot2) = find_from(s, path, other_key, other_reminder, 0).unwrap();
    lemma_find_from_position(s, path, other_key, other_reminder, 0);
    let k2 = choose|q: int|
        0 <= q < path.len() && #[trigger] path[q] == cl2 && line_match(s, path[q], other_key, other_reminder) == Some(slot2)
            && forall|i: int| 0 <= i < q ==> #[trigger] line_match(s, path[i], other_key, other_reminder) is None;
    if !link {
        let kw = choose|kw: int| 0 <= kw < path.len() && path[kw] == sc.to_write;
        assert(path[kw] == w);
    }
    assert((w as int) < s.cls.len());
    // the written line
    let v = s.cls[w as int];
    let v1 = s1.cls[w as int];
    assert(v.wf());
    crate::cl::law_insert_writes_only_its_slot(v, slot, bucket_key, value_prefix);
    assert(!link ==> !bit(v.valid, slot));
    let pw = s.stores[w as int].unwrap();
    let pw1 = s1.stores[w as int].unwrap();
    assert(pw1.k_rems == field_set(pw.k_rems, slot, Some(kr)));
    // the chain after the put
    let np = if link { path.push(w) } else { path };
    if link {
        assert(w != tail);
        assert(is_chain(s2, head, np)) by {
            assert forall|k: int| 0 <= k < np.len() - 1 implies s2.cls[#[trigger] np[k] as int].next == np[k + 1] by {
                if k < path.len() - 1 {
                    assert(np[k] != tail);
                    assert(s.cls[path[k] as int].next == path[k + 1]);
                }
            }
        }
    } else {
        assert forall|k: int| 0 <= k < path.len() implies {
            &&& (#[trigger] path[k] as int) < s2.cls.len()
            &&& s2.cls[path[k] as int].next == s.cls[path[k] as int].next
            &&& s2.stores[path[k] as int] is Some
        } by {}
        lemma_chain_frame(s, s2, head, path);
    }
    lemma_chain_is(s2, head, np);
    // every line up to the other entry's line searches as before
    assert forall|i: int| 0 <= i <= k2 implies #[trigger] line_match(s2, path[i], other_key, other_reminder) == line_match(
        s,
        path[i],
        other_key,
        other_reminder,
    ) by {
        let line = path[i];
        if line == w {
            assert(!link);
            let rs = Some(slot_reminders(pw));
            let rs1 = Some(slot_reminders(pw1));
            assert(s2.cls[w as int] == v1 && s2.stores[w as int] == s1.stores[w as int]);
            assert forall|j: int| 0 <= j < 7 implies #[trigger] slot_matches(v1, other_key, other_reminder, rs1, j)
                == slot_matches(v, other_key, other_reminder, rs, j) by {
                if j != slot {
                    crate::cl_store::law_get_after_set(pw.k_rems, slot, Some(kr), j);
                    assert(reminder_at(rs1, j) == reminder_at(rs, j));
                } else {
                    crate::cl_store::law_get_after_set(pw.k_rems, slot, Some(kr), slot + 1);
                    assert(reminder_at(rs1, j) == stored_read(kr));
                }
            }
            lemma_first_match_same_slots(v1, rs1, v, rs, other_key, other_reminder, 0);
        } else {
            assert(s2.cls[line as int].valid == s.cls[line as int].valid);
            assert(s2.cls[line as int].keys == s.cls[line as int].keys);
            assert(s2.stores[line as int] == s.stores[line as int]);
            lemma_first_match_same(
                s2.cls[line as int],
                s.cls[line as int],
                other_key,
                other_reminder,
                Some(slot_reminders(s.stores[line as int].unwrap())),
                0,
            );
        }
    }
    assert forall|i: int| 0 <= i < k2 implies #[trigger] line_match(s2, np[i], other_key, other_reminder) is None by {
        assert(np[i] == path[i]);
        assert(line_match(s2, path[i], other_key, other_reminder) == line_match(s, path[i], other_key, other_reminder));
    }
    assert(np[k2] == path[k2]);
    assert(line_match(s2, path[k2], other_key, other_reminder) == line_match(s, path[k2], other_key, other_reminder));
    lemma_find_from_at(s2, np, other_key, other_reminder, 0, k2);
    // the other entry's slot keeps its value and bytes
    if cl2 == w {
        let rs = Some(slot_reminders(pw));
        lemma_first_match_from(v, other_key, other_reminder, rs, 0);
        assert(slot_matches(v, other_key, other_reminder, rs, slot2));
        assert(slot2 != slot);
        crate::cl_store::law_get_after_set(pw.ids, slot, Some(id), slot2);
        crate::cl_store::law_get_after_set(pw.k_rems, slot, Some(kr), slot2);
        crate::cl_store::law_get_after_set(pw.v_s, slot, value, slot2);
    }
}

} // verus!
