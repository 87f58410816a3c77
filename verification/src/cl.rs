//! Cache lines of the single-bucket store: seven slots, each holding an in-bucket key and a
//! `u32` value, a one-byte mask of the slots in use, and the index of the next cache line.
use vstd::prelude::*;

use crate::bits::{bit, lemma_bit_consts, lemma_bit_single, lemma_bit_xor, lemma_test_bit};
use crate::bytes::bytes_eq;
use crate::cl_store::ClIndex;

verus! {

pub type ClValidSlotsMask = u8;

pub type ClSlot = usize;

pub type ValueType = u32;

pub type InBktKey = u16;

pub type KeyReminder = Option<Vec<u8>>;

#[derive(Clone, Copy, Debug)]
pub struct CacheDataEntry {
    pub value: ValueType,
}

#[derive(Clone, Copy, Debug)]
pub struct CacheMetaEntry {
    blob: ValueType,
}

#[derive(Clone, Copy, PartialEq, Eq, Debug)]
pub struct CLFlags {
    valid_slots: ClValidSlotsMask,
    flags1: u8,
    flags2: u16,
}

pub struct CacheLine {
    flags: CLFlags,
    entries: [CacheDataEntry; 7],
    bkt_keys: [InBktKey; 7],
    next: ClIndex,
}

#[derive(Debug)]
pub enum ClFindResult {
    FoundWSlot((ClSlot, CacheDataEntry)),
    NotFountFreeSlotsAndNext((ClSlot, ClIndex)),
}

/// The abstract content of a cache line.
pub struct ClView {
    /// bit `i` set: slot `i` holds an entry
    pub valid: u8,
    /// the in-bucket key of each slot
    pub keys: Seq<u16>,
    /// the value of each slot
    pub values: Seq<u32>,
    /// the next cache line
    pub next: u32,
}

impl ClView {
    /// Seven slots.
    pub open spec fn wf(self) -> bool {
        &&& self.keys.len() == 7
        &&& self.values.len() == 7
    }
}

impl View for CacheLine {
    type V = ClView;

    closed spec fn view(&self) -> ClView {
        ClView {
            valid: self.flags.valid_slots,
            keys: self.bkt_keys@,
            values: self.entries@.map_values(|e: CacheDataEntry| e.value),
            next: self.next,
        }
    }
}

/// The line after writing `bucket_key` and `value` to slot `offset` and flipping that slot's
/// bit of the used mask.
pub open spec fn insert_view(v: ClView, offset: int, bucket_key: u16, value: u32) -> ClView {
    ClView {
        valid: v.valid ^ (1u8 << (offset as u8)),
        keys: v.keys.update(offset, bucket_key),
        values: v.values.update(offset, value),
        next: v.next,
    }
}

/// Inserting into slot `offset` of a line writes that slot's key and value and flips its use
/// bit; every other slot keeps its key, value and use bit, and the next link is kept.
pub proof fn law_insert_writes_only_its_slot(v: ClView, offset: int, bucket_key: u16, value: u32)
    requires
        0 <= offset < 7,
        v.keys.len() == 7,
        v.values.len() == 7,
    ensures
        insert_view(v, offset, bucket_key, value).values[offset] == value,
        insert_view(v, offset, bucket_key, value).keys[offset] == bucket_key,
        bit(insert_view(v, offset, bucket_key, value).valid, offset) == !bit(v.valid, offset),
        insert_view(v, offset, bucket_key, value).next == v.next,
        insert_view(v, offset, bucket_key, value).values.len() == 7,
        insert_view(v, offset, bucket_key, value).keys.len() == 7,
        forall|j: int|
            0 <= j < 7 && j != offset ==> #[trigger] insert_view(v, offset, bucket_key, value).values[j]
                == v.values[j] && insert_view(v, offset, bucket_key, value).keys[j] == v.keys[j],
        forall|j: int|
            0 <= j < 8 && j != offset ==> #[trigger] bit(insert_view(v, offset, bucket_key, value).valid, j)
                == bit(v.valid, j),
{
    lemma_bit_xor(v.valid, 1u8 << (offset as u8));
    lemma_bit_single(offset as u8);
}

pub open spec fn opt_vec_view(o: Option<Vec<u8>>) -> Option<Seq<u8>> {
    match o {
        Some(v) => Some(v@),
        None => None,
    }
}

/// The key reminders of the slots, as byte strings.
pub open spec fn reminders_view(key_reminders: Option<&[KeyReminder]>) -> Option<Seq<Option<Seq<u8>>>> {
    match key_reminders {
        Some(rs) => Some(rs@.map_values(|o: KeyReminder| opt_vec_view(o))),
        None => None,
    }
}

/// The key reminder of slot `i` (none when no reminders are given).
pub open spec fn reminder_at(key_reminders: Option<Seq<Option<Seq<u8>>>>, i: int) -> Option<Seq<u8>> {
    match key_reminders {
        Some(rs) => rs[i],
        None => None,
    }
}

/// Slot `i` is used, holds `bucket_key` and has the key reminder `key_reminder`.
pub open spec fn slot_matches(
    v: ClView,
    bucket_key: u16,
    key_reminder: Option<Seq<u8>>,
    key_reminders: Option<Seq<Option<Seq<u8>>>>,
    i: int,
) -> bool {
    bit(v.valid, i) && v.keys[i] == bucket_key && reminder_at(key_reminders, i) == key_reminder
}

/// The first matching slot at or after `i` among the seven.
pub open spec fn first_match_from(
    v: ClView,
    bucket_key: u16,
    key_reminder: Option<Seq<u8>>,
    key_reminders: Option<Seq<Option<Seq<u8>>>>,
    i: int,
) -> Option<int>
    decreases 7 - i,
{
    if i < 0 || i >= 7 {
        None
    } else if slot_matches(v, bucket_key, key_reminder, key_reminders, i) {
        Some(i)
    } else {
        first_match_from(v, bucket_key, key_reminder, key_reminders, i + 1)
    }
}

/// The first unused slot at or after `i` among the seven, or `7`.
pub open spec fn first_free_from(v: ClView, i: int) -> int
    decreases 7 - i,
{
    if i < 0 || i >= 7 {
        7
    } else if !bit(v.valid, i) {
        i
    } else {
        first_free_from(v, i + 1)
    }
}

/// The search never reads a key reminder beyond the given ones: every slot that it compares
/// before a match lies within them.
pub open spec fn reminders_cover(
    v: ClView,
    bucket_key: u16,
    key_reminder: Option<Seq<u8>>,
    key_reminders: Option<Seq<Option<Seq<u8>>>>,
) -> bool {
    key_reminders matches Some(rs) ==> forall|i: int|
        0 <= i < 7 && bit(v.valid, i) && v.keys[i] == bucket_key && (forall|j: int|
            0 <= j < i ==> !slot_matches(v, bucket_key, key_reminder, key_reminders, j)) ==> i
            < rs.len()
}

/// `res` is what `find_entry` returns on line `v`.
pub open spec fn find_result_matches(
    res: ClFindResult,
    v: ClView,
    bucket_key: u16,
    key_reminder: Option<Seq<u8>>,
    key_reminders: Option<Seq<Option<Seq<u8>>>>,
) -> bool {
    match first_match_from(v, bucket_key, key_reminder, key_reminders, 0) {
        Some(i) => res == ClFindResult::FoundWSlot((i as usize, CacheDataEntry { value: v.values[i] })),
        None => res == ClFindResult::NotFountFreeSlotsAndNext(
            (first_free_from(v, 0) as usize, v.next),
        ),
    }
}

/// What `first_match_from` returns.
pub proof fn lemma_first_match_from(
    v: ClView,
    bucket_key: u16,
    key_reminder: Option<Seq<u8>>,
    key_reminders: Option<Seq<Option<Seq<u8>>>>,
    i: int,
)
    requires
        0 <= i <= 7,
    ensures
        first_match_from(v, bucket_key, key_reminder, key_reminders, i) matches Some(k) ==> i <= k
            < 7 && slot_matches(v, bucket_key, key_reminder, key_reminders, k) && forall|j: int|
            i <= j < k ==> !slot_matches(v, bucket_key, key_reminder, key_reminders, j),
        first_match_from(v, bucket_key, key_reminder, key_reminders, i) is None ==> forall|j: int|
            i <= j < 7 ==> !slot_matches(v, bucket_key, key_reminder, key_reminders, j),
    decreases 7 - i,
{
    if i < 7 {
        lemma_first_match_from(v, bucket_key, key_reminder, key_reminders, i + 1);
    }
}

/// `first_match_from` returns `t` when `t` is the first matching slot from `i` on.
pub proof fn lemma_first_match_at(
    v: ClView,
    bucket_key: u16,
    key_reminder: Option<Seq<u8>>,
    key_reminders: Option<Seq<Option<Seq<u8>>>>,
    i: int,
    t: int,
)
    requires
        0 <= i <= t < 7,
        slot_matches(v, bucket_key, key_reminder, key_reminders, t),
        forall|j: int| i <= j < t ==> !slot_matches(v, bucket_key, key_reminder, key_reminders, j),
    ensures
        first_match_from(v, bucket_key, key_reminder, key_reminders, i) == Some(t),
    decreases t - i,
{
    if i < t {
        lemma_first_match_at(v, bucket_key, key_reminder, key_reminders, i + 1, t);
    }
}

/// A line search looks only at the slots' use bits and keys.
pub proof fn lemma_first_match_same(
    v1: ClView,
    v2: ClView,
    bucket_key: u16,
    key_reminder: Option<Seq<u8>>,
    key_reminders: Option<Seq<Option<Seq<u8>>>>,
    i: int,
)
    requires
        v1.valid == v2.valid,
        v1.keys == v2.keys,
    ensures
        first_match_from(v1, bucket_key, key_reminder, key_reminders, i) == first_match_from(
            v2,
            bucket_key,
            key_reminder,
            key_reminders,
            i,
        ),
    decreases 7 - i,
{
    if 0 <= i < 7 {
        lemma_first_match_same(v1, v2, bucket_key, key_reminder, key_reminders, i + 1);
    }
}

/// What `first_free_from` returns.
pub proof fn lemma_first_free_from(v: ClView, i: int)
    requires
        0 <= i <= 7,
    ensures
        i <= first_free_from(v, i) <= 7,
        first_free_from(v, i) < 7 ==> !bit(v.valid, first_free_from(v, i)),
        forall|j: int| i <= j < first_free_from(v, i) ==> bit(v.valid, j),
    decreases 7 - i,
{
    if i < 7 {
        lemma_first_free_from(v, i + 1);
    }
}

/// Equality of two optional byte strings.
fn opt_bytes_eq(a: &KeyReminder, b: &KeyReminder) -> (eq: bool)
    ensures
        eq == (opt_vec_view(*a) == opt_vec_view(*b)),
{
    match (a, b) {
        (Some(x), Some(y)) => bytes_eq(x.as_slice(), y.as_slice()),
        (None, None) => true,
        _ => false,
    }
}

#[allow(dead_code)]
impl CacheLine {
    pub const INVALID_CL: u32 = 0xffff_ffff;
    pub const INVALID_SLOT: usize = 7;
    pub const NUM_SLOTS: usize = 7;

    /// An empty line: no slot used, keys and values zero, no next line.
    pub fn new() -> (cl: CacheLine)
        ensures
            cl@.wf(),
            cl@.valid == 0,
            cl@.keys == Seq::new(7, |i: int| 0u16),
            cl@.values == Seq::new(7, |i: int| 0u32),
            cl@.next == CacheLine::INVALID_CL,
    {
        let cl = CacheLine {
            entries: [CacheDataEntry { value: 0 };7],
            flags: CLFlags { valid_slots: 0x0, flags1: 0, flags2: 0 },
            next: CacheLine::INVALID_CL,
            bkt_keys: [0;7],
        };
        assert(cl@.keys =~= Seq::new(7, |i: int| 0u16));
        assert(cl@.values =~= Seq::new(7, |i: int| 0u32));
        cl
    }

    /// An empty line with an entry in slot 0.
    pub fn new_with_entry(bucket_key: InBktKey, value: ValueType) -> (cl: CacheLine)
        ensures
            cl@.wf(),
            cl@.valid == 1,
            cl@.keys == Seq::new(7, |i: int| 0u16).update(0, bucket_key),
            cl@.values == Seq::new(7, |i: int| 0u32).update(0, value),
            cl@.next == CacheLine::INVALID_CL,
    {
        let mut cl = CacheLine::new();
        cl.insert_entry_to_slot(0, bucket_key, value);
        assert(0u8 ^ (1u8 << 0u8) == 1u8) by (bit_vector);
        cl
    }

    /// The next line of the bucket.
    pub(crate) fn next_cl(&self) -> (next: ClIndex)
        ensures
            next == self@.next,
    {
        self.next
    }

    /// Links the next line; returns the previous link unless it was `INVALID_CL`.
    pub fn set_next_cl(&mut self, next_cl: ClIndex) -> (prev: Option<ClIndex>)
        ensures
            final(self)@ == (ClView { next: next_cl, ..old(self)@ }),
            prev == (if old(self)@.next == CacheLine::INVALID_CL {
                None::<ClIndex>
            } else {
                Some(old(self)@.next)
            }),
    {
        let old_next = self.next;
        self.next = next_cl;
        if old_next == CacheLine::INVALID_CL {
            None
        } else {
            Some(old_next)
        }
    }

    /// Writes `bucket_key` and `value` to slot `offset` and flips that slot's bit of the used
    /// mask.
    pub fn insert_entry_to_slot(&mut self, offset: ClSlot, bucket_key: InBktKey, value: ValueType)
        requires
            offset < 7,
        ensures
            final(self)@ == insert_view(old(self)@, offset as int, bucket_key, value),
            final(self)@.values[offset as int] == value,
            final(self)@.keys[offset as int] == bucket_key,
            bit(final(self)@.valid, offset as int) == !bit(old(self)@.valid, offset as int),
            final(self)@.next == old(self)@.next,
            forall|j: int|
                0 <= j < 7 && j != offset ==> #[trigger] final(self)@.values[j] == old(self)@.values[j]
                    && final(self)@.keys[j] == old(self)@.keys[j],
            forall|j: int| 0 <= j < 8 && j != offset ==> #[trigger] bit(final(self)@.valid, j) == bit(old(self)@.valid, j),
    {
        self.bkt_keys[offset] = bucket_key;
        self.flags.valid_slots = self.flags.valid_slots ^ (1u8 << (offset as u8));
        self.entries[offset] = CacheDataEntry { value: value };
        assert(self@.values =~= old(self)@.values.update(offset as int, value));
        proof {
            law_insert_writes_only_its_slot(old(self)@, offset as int, bucket_key, value);
        }
    }

    /// The first used slot holding `bucket_key` whose key reminder (none when no reminders are
    /// given) equals `key_reminder`, with its value; otherwise the first unused slot (or
    /// `INVALID_SLOT`) and the next line.
    pub fn find_entry(
        &self,
        bucket_key: InBktKey,
        key_reminder: &KeyReminder,
        key_reminders: Option<&[KeyReminder]>,
    ) -> (res: ClFindResult)
        requires
            reminders_cover(self@, bucket_key, opt_vec_view(*key_reminder), reminders_view(key_reminders)),
        ensures
            find_result_matches(
                res,
                self@,
                bucket_key,
                opt_vec_view(*key_reminder),
                reminders_view(key_reminders),
            ),
    {
        let ghost v = self@;
        let ghost kr = opt_vec_view(*key_reminder);
        let ghost krs = reminders_view(key_reminders);
        let mut first_empty_slots = CacheLine::INVALID_SLOT;
        let mut i: usize = 0;
        proof {
            lemma_first_free_from(v, 0);
        }
        while i < 7
            invariant
                i <= 7,
                v == self@,
                kr == opt_vec_view(*key_reminder),
                krs == reminders_view(key_reminders),
                reminders_cover(v, bucket_key, kr, krs),
                self.bkt_keys@.len() == 7,
                forall|j: int| 0 <= j < i ==> !slot_matches(v, bucket_key, kr, krs, j),
                first_match_from(v, bucket_key, kr, krs, 0) == first_match_from(v, bucket_key, kr, krs, i as int),
                first_empty_slots == (if first_free_from(v, 0) < i {
                    first_free_from(v, 0)
                } else {
                    7
                }),
            decreases 7 - i,
        {
            proof {
                lemma_test_bit(self.flags.valid_slots, i as u8);
                lemma_first_free_from(v, 0);
            }
            if self.flags.valid_slots & (1u8 << (i as u8)) != 0 {
                if self.bkt_keys[i] == bucket_key {
                    let matches = match key_reminders {
                        Some(rs) => opt_bytes_eq(key_reminder, &rs[i]),
                        None => key_reminder.is_none(),
                    };
                    if matches {
                        proof {
                            assert(slot_matches(v, bucket_key, kr, krs, i as int));
                        }
                        return ClFindResult::FoundWSlot((i as ClSlot, self.entries[i]));
                    }
                }
            } else if first_empty_slots == CacheLine::INVALID_SLOT {
                first_empty_slots = i;
            }
            proof {
                assert(!slot_matches(v, bucket_key, kr, krs, i as int));
            }
            i += 1;
        }
        proof {
            lemma_first_match_from(v, bucket_key, kr, krs, 7);
        }
        ClFindResult::NotFountFreeSlotsAndNext((first_empty_slots, self.next))
    }

    /// Finds as `find_entry` does and, when an entry is found, marks its slot unused.
    pub fn remove_entry(
        &mut self,
        bucket_key: InBktKey,
        key_reminder: &KeyReminder,
        key_reminders: Option<&[KeyReminder]>,
    ) -> (res: ClFindResult)
        requires
            reminders_cover(old(self)@, bucket_key, opt_vec_view(*key_reminder), reminders_view(key_reminders)),
        ensures
            find_result_matches(
                res,
                old(self)@,
                bucket_key,
                opt_vec_view(*key_reminder),
                reminders_view(key_reminders),
            ),
            final(self)@ == (match first_match_from(
                old(self)@,
                bucket_key,
                opt_vec_view(*key_reminder),
                reminders_view(key_reminders),
                0,
            ) {
                Some(i) => ClView { valid: old(self)@.valid ^ (1u8 << (i as u8)), ..old(self)@ },
                None => old(self)@,
            }),
    {
        let res = self.find_entry(bucket_key, key_reminder, key_reminders);
        proof {
            lemma_first_match_from(
                old(self)@,
                bucket_key,
                opt_vec_view(*key_reminder),
                reminders_view(key_reminders),
                0,
            );
        }
        match res {
            ClFindResult::FoundWSlot((slot, _entry)) => {
                self.flags.valid_slots = self.flags.valid_slots ^ (1u8 << (slot as u8));
            },
            _ => {},
        }
        res
    }
}

} // verus!
