//! Cache lines: seven slots, each holding an in-bucket key and a four-byte inline value, a
//! one-byte mask of the slots in use, and the index of the next cache line of the bucket.
use vstd::prelude::*;

use crate::bits::{bit, lemma_bit_and, lemma_bit_consts, lemma_bit_or, lemma_bit_single, lemma_bit_xor};
use crate::cache::bucket::{InBktKey, ValueType};
use crate::cache::cl_store::ClIndex;

verus! {

pub type ClSlotMask = u8;

pub type ClCondidSlotsMask = ClSlotMask;

pub type ClTakenSlotsMask = ClSlotMask;

pub type ClFreeSlotsMask = ClSlotMask;

pub type ClSlot = usize;

pub enum EntryType {
    Data,
    Metadata,
}

/// Typed access to the entries of a cache line.
pub trait TCacheEntry {
    fn get_type(&self, slot: ClSlot) -> EntryType;

    fn get_value(&self, slot: ClSlot) -> Vec<u8>;

    fn get_raw(&self, slot: ClSlot) -> Vec<u8>;
}

/// The abstract content of a cache line.
pub struct ClView {
    /// bit `i` set: slot `i` holds an entry
    pub valid: u8,
    /// the in-bucket key of each slot
    pub keys: Seq<u16>,
    /// the four inline value bytes of each slot
    pub values: Seq<Seq<u8>>,
    /// the next cache line of the bucket
    pub next: u32,
}

impl ClView {
    /// Seven slots of four bytes, and no slot beyond the seventh in use.
    pub open spec fn wf(self) -> bool {
        &&& !bit(self.valid, 7)
        &&& self.keys.len() == 7
        &&& self.values.len() == 7
        &&& forall|i: int| 0 <= i < 7 ==> (#[trigger] self.values[i]).len() == 4
    }
}

/// A cache line with no slot in use, all keys and values zero, and no next line.
pub open spec fn empty_cl_view(invalid_cl: u32) -> ClView {
    ClView {
        valid: 0,
        keys: Seq::new(7, |i: int| 0u16),
        values: Seq::new(7, |i: int| seq![0u8, 0u8, 0u8, 0u8]),
        next: invalid_cl,
    }
}

/// The mask of the slots among the first `n` whose key is `bucket_key`, used or not.
pub open spec fn key_match_bits(keys: Seq<u16>, bucket_key: u16, n: int) -> u8
    decreases n,
{
    if n <= 0 {
        0
    } else if keys[n - 1] == bucket_key {
        key_match_bits(keys, bucket_key, n - 1) | (1u8 << ((n - 1) as u8))
    } else {
        key_match_bits(keys, bucket_key, n - 1)
    }
}

/// The candidate mask of a read: used slots whose key is `bucket_key`.
pub open spec fn read_condid(v: ClView, bucket_key: u16) -> u8 {
    key_match_bits(v.keys, bucket_key, 7) & v.valid
}

/// The candidate mask of a write: the key-match mask exclusive-or the used mask.
pub open spec fn write_condid(v: ClView, bucket_key: u16) -> u8 {
    key_match_bits(v.keys, bucket_key, 7) ^ v.valid
}

/// The mask of the free slots among the seven.
pub open spec fn write_free(v: ClView) -> u8 {
    0x7fu8 ^ v.valid
}

/// `old` with its first `n` bytes taken from `src`.
pub open spec fn copy_prefix(old: Seq<u8>, src: Seq<u8>, n: int) -> Seq<u8> {
    Seq::new(old.len(), |k: int| if k < n { src[k] } else { old[k] })
}

/// The number of value bytes that fit inline.
pub open spec fn inline_len(value: Seq<u8>) -> int {
    if value.len() < 4 {
        value.len() as int
    } else {
        4
    }
}

/// The line after writing `bucket_key` and the inline prefix of `value` to slot `offset` and
/// flipping that slot's bit of the used mask.
pub open spec fn set_entry_view(v: ClView, offset: int, bucket_key: u16, value: Seq<u8>) -> ClView {
    ClView {
        valid: v.valid ^ (1u8 << (offset as u8)),
        keys: v.keys.update(offset, bucket_key),
        values: v.values.update(offset, copy_prefix(v.values[offset], value, inline_len(value))),
        next: v.next,
    }
}

/// The line after marking slot `slot` unused, if it was used.
pub open spec fn clear_entry_view(v: ClView, slot: int) -> ClView {
    if bit(v.valid, slot) {
        ClView { valid: v.valid ^ (1u8 << (slot as u8)), ..v }
    } else {
        v
    }
}

/// Bit `i` of the key-match mask is set exactly for the slots below `n` that hold `bucket_key`.
pub proof fn lemma_key_match_bits(keys: Seq<u16>, bucket_key: u16, n: int)
    requires
        0 <= n <= 8,
        keys.len() >= n,
    ensures
        forall|i: int|
            #[trigger] bit(key_match_bits(keys, bucket_key, n), i) == (0 <= i < n && keys[i]
                == bucket_key),
    decreases n,
{
    lemma_bit_consts();
    if n > 0 {
        lemma_key_match_bits(keys, bucket_key, n - 1);
        let prev = key_match_bits(keys, bucket_key, n - 1);
        if keys[n - 1] == bucket_key {
            lemma_bit_or(prev, 1u8 << ((n - 1) as u8));
            lemma_bit_single((n - 1) as u8);
            assert forall|i: int|
                #[trigger] bit(key_match_bits(keys, bucket_key, n), i) == (0 <= i < n && keys[i]
                    == bucket_key) by {
                assert(key_match_bits(keys, bucket_key, n) == prev | (1u8 << ((n - 1) as u8)));
                assert(bit(prev | (1u8 << ((n - 1) as u8)), i) == (bit(prev, i) || bit(
                    1u8 << ((n - 1) as u8),
                    i,
                )));
            }
        } else {
            assert forall|i: int|
                #[trigger] bit(key_match_bits(keys, bucket_key, n), i) == (0 <= i < n && keys[i]
                    == bucket_key) by {
                assert(key_match_bits(keys, bucket_key, n) == prev);
                assert(bit(prev, i) == (0 <= i < n - 1 && keys[i] == bucket_key));
            }
        }
    }
}

/// Bit `i` of the read candidates: slot `i` is used and holds `bucket_key`.
pub proof fn lemma_read_condid(v: ClView, bucket_key: u16)
    requires
        v.wf(),
    ensures
        forall|i: int|
            #[trigger] bit(read_condid(v, bucket_key), i) == (0 <= i < 7 && bit(v.valid, i)
                && v.keys[i] == bucket_key),
{
    lemma_key_match_bits(v.keys, bucket_key, 7);
    lemma_bit_and(key_match_bits(v.keys, bucket_key, 7), v.valid);
}

/// Bit `i` of the write candidates: slot `i` holds `bucket_key` or is used, but not both.
pub proof fn lemma_write_condid(v: ClView, bucket_key: u16)
    requires
        v.wf(),
    ensures
        forall|i: int|
            #[trigger] bit(write_condid(v, bucket_key), i) == (0 <= i < 7 && (bit(v.valid, i)
                != (v.keys[i] == bucket_key))),
{
    lemma_key_match_bits(v.keys, bucket_key, 7);
    lemma_bit_xor(key_match_bits(v.keys, bucket_key, 7), v.valid);
}

/// Bit `i` of the free mask: slot `i` is one of the seven and unused.
pub proof fn lemma_write_free(v: ClView)
    requires
        v.wf(),
    ensures
        forall|i: int| #[trigger] bit(write_free(v), i) == (0 <= i < 7 && !bit(v.valid, i)),
{
    lemma_bit_consts();
    lemma_bit_xor(0x7fu8, v.valid);
}

/// Writing a slot flips exactly its bit and keeps a well-formed line well-formed.
pub proof fn lemma_set_entry_view(v: ClView, offset: int, bucket_key: u16, value: Seq<u8>)
    requires
        v.wf(),
        0 <= offset < 7,
    ensures
        set_entry_view(v, offset, bucket_key, value).wf(),
        forall|i: int|
            #[trigger] bit(set_entry_view(v, offset, bucket_key, value).valid, i) == (if i
                == offset {
                !bit(v.valid, i)
            } else {
                bit(v.valid, i)
            }),
{
    lemma_bit_xor(v.valid, 1u8 << (offset as u8));
    lemma_bit_single(offset as u8);
    let w = set_entry_view(v, offset, bucket_key, value);
    assert forall|i: int| 0 <= i < 7 implies (#[trigger] w.values[i]).len() == 4 by {}
}

/// Clearing a slot keeps a well-formed line well-formed and leaves that slot unused.
pub proof fn lemma_clear_entry_view(v: ClView, slot: int)
    requires
        v.wf(),
        0 <= slot < 8,
    ensures
        clear_entry_view(v, slot).wf(),
        forall|i: int|
            #[trigger] bit(clear_entry_view(v, slot).valid, i) == (i != slot && bit(
                v.valid,
                i,
            )),
{
    lemma_bit_xor(v.valid, 1u8 << (slot as u8));
    lemma_bit_single(slot as u8);
}

/// Writing slot `offset` of a well-formed line stores `bucket_key` there, copies the first
/// bytes of `value` (at most four) over its inline value, keeping the rest, and flips its use
/// bit; every other slot keeps its key, inline value and use bit, and the next link is kept,
/// however long `value` is.
pub proof fn law_set_entry_writes_only_its_slot(v: ClView, offset: int, bucket_key: u16, value: Seq<u8>)
    requires
        v.wf(),
        0 <= offset < 7,
    ensures
        set_entry_view(v, offset, bucket_key, value).wf(),
        set_entry_view(v, offset, bucket_key, value).keys[offset] == bucket_key,
        forall|q: int|
            0 <= q < 4 ==> #[trigger] set_entry_view(v, offset, bucket_key, value).values[offset][q] == (if q
                < value.len() {
                value[q]
            } else {
                v.values[offset][q]
            }),
        bit(set_entry_view(v, offset, bucket_key, value).valid, offset) == !bit(v.valid, offset),
        set_entry_view(v, offset, bucket_key, value).next == v.next,
        forall|j: int|
            0 <= j < 7 && j != offset ==> #[trigger] set_entry_view(v, offset, bucket_key, value).values[j]
                == v.values[j] && set_entry_view(v, offset, bucket_key, value).keys[j] == v.keys[j],
        forall|j: int|
            j != offset ==> #[trigger] bit(set_entry_view(v, offset, bucket_key, value).valid, j) == bit(
                v.valid,
                j,
            ),
{
    lemma_set_entry_view(v, offset, bucket_key, value);
}

/// Clearing slot `slot` of a well-formed line only marks it unused: the keys, inline values and
/// next link are kept, and so is the use bit of every other slot.
pub proof fn law_clear_entry_only_marks_unused(v: ClView, slot: int)
    requires
        v.wf(),
        0 <= slot < 8,
    ensures
        clear_entry_view(v, slot).keys == v.keys,
        clear_entry_view(v, slot).values == v.values,
        clear_entry_view(v, slot).next == v.next,
        !bit(clear_entry_view(v, slot).valid, slot),
        forall|j: int| j != slot ==> #[trigger] bit(clear_entry_view(v, slot).valid, j) == bit(v.valid, j),
{
    lemma_clear_entry_view(v, slot);
}

/// Writing a free slot makes it a read candidate for its key; clearing it again makes it no
/// read candidate for any key and restores the used mask.
pub proof fn law_set_then_clear(v: ClView, slot: int, bucket_key: u16, value: Seq<u8>, other_key: u16)
    requires
        v.wf(),
        0 <= slot < 7,
        !bit(v.valid, slot),
    ensures
        bit(read_condid(set_entry_view(v, slot, bucket_key, value), bucket_key), slot),
        !bit(read_condid(clear_entry_view(set_entry_view(v, slot, bucket_key, value), slot), other_key), slot),
        clear_entry_view(set_entry_view(v, slot, bucket_key, value), slot).valid == v.valid,
{
    let w = set_entry_view(v, slot, bucket_key, value);
    lemma_set_entry_view(v, slot, bucket_key, value);
    lemma_read_condid(w, bucket_key);
    lemma_clear_entry_view(w, slot);
    let c = clear_entry_view(w, slot);
    lemma_read_condid(c, other_key);
    assert forall|i: int| 0 <= i < 8 implies bit(c.valid, i) == bit(v.valid, i) by {}
    crate::bits::lemma_bit_ext(c.valid, v.valid);
}

/// A read's candidates are the used slots holding the key; writing another slot with another
/// key leaves them unchanged.
pub proof fn law_set_entry_keeps_other_candidates(v: ClView, slot: int, bucket_key: u16, value: Seq<u8>, key: u16)
    requires
        v.wf(),
        0 <= slot < 7,
        !bit(v.valid, slot),
        key != bucket_key,
    ensures
        read_condid(set_entry_view(v, slot, bucket_key, value), key) == read_condid(v, key),
{
    let w = set_entry_view(v, slot, bucket_key, value);
    lemma_set_entry_view(v, slot, bucket_key, value);
    lemma_read_condid(w, key);
    lemma_read_condid(v, key);
    assert forall|i: int| 0 <= i < 8 implies bit(read_condid(w, key), i) == bit(read_condid(v, key), i) by {}
    crate::bits::lemma_bit_ext(read_condid(w, key), read_condid(v, key));
}

/// The operations on a cache line, stated over its abstract content `cl_view`.
pub trait TCacheLine: Sized {
    const INVALID_CL: u32;
    const INVALID_SLOT: usize = 7;
    const NUM_SLOTS: usize = 7;
    const SLOTS_MASK: u8 = 0x7f;
    const NUM_BYTES_INLINE_VAL: usize = 4;

    spec fn cl_view(&self) -> ClView;

    /// The index that marks "no line" lies above every index a cache of at most `2^24`
    /// buckets hands out.
    proof fn lemma_invalid_cl_above_lines()
        ensures
            0x100_0000 < Self::INVALID_CL,
    ;

    /// An empty line.
    fn new() -> (cl: Self)
        ensures
            cl.cl_view() == empty_cl_view(Self::INVALID_CL),
    ;

    /// An empty line with an entry written to slot 0.
    fn new_with_entry(bucket_key: InBktKey, value: &ValueType) -> (cl: Self)
        ensures
            cl.cl_view() == set_entry_view(empty_cl_view(Self::INVALID_CL), 0, bucket_key, value@),
    ;

    /// Links the next line; returns the previous link unless it was `INVALID_CL`.
    fn set_next_cl(&mut self, next_cl: ClIndex) -> (prev: Option<ClIndex>)
        ensures
            final(self).cl_view() == (ClView { next: next_cl, ..old(self).cl_view() }),
            prev == (if old(self).cl_view().next == Self::INVALID_CL {
                None::<ClIndex>
            } else {
                Some(old(self).cl_view().next)
            }),
    ;

    /// The next line of the bucket.
    fn get_next_cl(&self) -> (next: ClIndex)
        ensures
            next == self.cl_view().next,
    ;

    /// Marks slot `slot` unused; returns whether it was used.
    fn clear_entry(&mut self, slot: ClSlot) -> (was_used: bool)
        requires
            slot < 8,
            old(self).cl_view().wf(),
        ensures
            was_used == bit(old(self).cl_view().valid, slot as int),
            final(self).cl_view() == clear_entry_view(old(self).cl_view(), slot as int),
            final(self).cl_view().keys == old(self).cl_view().keys,
            final(self).cl_view().values == old(self).cl_view().values,
            final(self).cl_view().next == old(self).cl_view().next,
            !bit(final(self).cl_view().valid, slot as int),
            forall|j: int|
                j != slot ==> #[trigger] bit(final(self).cl_view().valid, j) == bit(old(self).cl_view().valid, j),
    ;

    /// The inline value of slot `offset`.
    fn get_entry(&self, offset: ClSlot) -> (entry: CacheDataEntry)
        requires
            offset < 7,
            self.cl_view().wf(),
        ensures
            entry.value@ == self.cl_view().values[offset as int],
    ;

    /// Writes `bucket_key` and the inline prefix of `value` to slot `offset` and flips that
    /// slot's bit of the used mask; returns the number of value bytes copied.
    fn set_entry(&mut self, offset: ClSlot, bucket_key: InBktKey, value: &ValueType) -> (copied:
        usize)
        requires
            offset < 7,
            old(self).cl_view().wf(),
        ensures
            copied == inline_len(value@),
            final(self).cl_view() == set_entry_view(
                old(self).cl_view(),
                offset as int,
                bucket_key,
                value@,
            ),
            final(self).cl_view().wf(),
            final(self).cl_view().keys[offset as int] == bucket_key,
            forall|q: int|
                0 <= q < 4 ==> #[trigger] final(self).cl_view().values[offset as int][q] == (if q
                    < value@.len() {
                    value@[q]
                } else {
                    old(self).cl_view().values[offset as int][q]
                }),
            bit(final(self).cl_view().valid, offset as int) == !bit(old(self).cl_view().valid, offset as int),
            final(self).cl_view().next == old(self).cl_view().next,
            forall|j: int|
                0 <= j < 7 && j != offset ==> #[trigger] final(self).cl_view().values[j] == old(
                    self,
                ).cl_view().values[j] && final(self).cl_view().keys[j] == old(self).cl_view().keys[j],
            forall|j: int|
                j != offset ==> #[trigger] bit(final(self).cl_view().valid, j) == bit(old(self).cl_view().valid, j),
    ;

    /// The used slots that hold `bucket_key`.
    fn find_entry_for_read(&self, bucket_key: InBktKey) -> (res: ReadClFindResult)
        requires
            self.cl_view().wf(),
        ensures
            res.condid == read_condid(self.cl_view(), bucket_key),
    ;

    /// The write candidates for `bucket_key` and the free slots.
    fn find_entry_for_write(&self, bucket_key: InBktKey) -> (res: WriteClFindResult)
        requires
            self.cl_view().wf(),
        ensures
            res.condid == write_condid(self.cl_view(), bucket_key),
            res.free == write_free(self.cl_view()),
    ;
}

#[derive(Clone, Copy, Debug)]
pub struct ReadClFindResult {
    pub condid: ClCondidSlotsMask,
}

#[derive(Clone, Copy, Debug)]
pub struct WriteClFindResult {
    pub condid: ClCondidSlotsMask,
    pub free: ClFreeSlotsMask,
}

#[derive(Clone, Copy, Debug)]
pub struct CacheDataEntry {
    pub value: [u8; 4],
}

#[derive(Clone, Copy, Debug)]
pub struct CacheMetaEntry {
    blob: [u8; 4],
}

#[derive(Clone, Copy, PartialEq, Eq, Debug)]
pub struct CLFlags {
    valid_slots: ClTakenSlotsMask,
    flags1: u8,
    flags2: u16,
}

pub struct CacheLine {
    flags: CLFlags,
    entries: [CacheDataEntry; 7],
    bkt_keys: [InBktKey; 7],
    next: ClIndex,
}

impl TCacheLine for CacheLine {
    const INVALID_CL: u32 = 0xffff_ffff;
    const INVALID_SLOT: usize = 7;
    const NUM_SLOTS: usize = 7;
    const SLOTS_MASK: u8 = 0x7f;
    const NUM_BYTES_INLINE_VAL: usize = 4;

    proof fn lemma_invalid_cl_above_lines() {
    }

    closed spec fn cl_view(&self) -> ClView {
        ClView {
            valid: self.flags.valid_slots,
            keys: self.bkt_keys@,
            values: self.entries@.map_values(|e: CacheDataEntry| e.value@),
            next: self.next,
        }
    }

    fn new() -> (cl: CacheLine) {
        let cl = CacheLine {
            entries: [CacheDataEntry { value: [0, 0, 0, 0] };7],
            flags: CLFlags { valid_slots: 0x0, flags1: 0, flags2: 0 },
            next: Self::INVALID_CL,
            bkt_keys: [0;7],
        };
        assert(cl.cl_view().keys =~= empty_cl_view(Self::INVALID_CL).keys);
        assert(cl.cl_view().values =~= empty_cl_view(Self::INVALID_CL).values);
        cl
    }

    fn new_with_entry(bucket_key: InBktKey, value: &ValueType) -> (cl: CacheLine) {
        let mut cl = CacheLine::new();
        proof {
            lemma_bit_consts();
        }
        cl.set_entry(0, bucket_key, value);
        cl
    }

    fn set_next_cl(&mut self, next_cl: ClIndex) -> (prev: Option<ClIndex>) {
        let old_next = self.next;
        self.next = next_cl;
        if old_next == Self::INVALID_CL {
            None
        } else {
            Some(old_next)
        }
    }

    fn get_next_cl(&self) -> (next: ClIndex) {
        self.next
    }

    fn clear_entry(&mut self, slot: ClSlot) -> (was_used: bool) {
        proof {
            crate::bits::lemma_test_bit(self.flags.valid_slots, slot as u8);
            law_clear_entry_only_marks_unused(self.cl_view(), slot as int);
        }
        if self.flags.valid_slots & (1u8 << (slot as u8)) != 0 {
            self.flags.valid_slots = self.flags.valid_slots ^ (1u8 << (slot as u8));
            true
        } else {
            false
        }
    }

    fn get_entry(&self, offset: ClSlot) -> (entry: CacheDataEntry) {
        self.entries[offset]
    }

    fn set_entry(&mut self, offset: ClSlot, bucket_key: InBktKey, value: &ValueType) -> (copied:
        usize) {
        self.bkt_keys[offset] = bucket_key;
        self.flags.valid_slots = self.flags.valid_slots ^ (1u8 << (offset as u8));
        let cp_len: usize = if value.len() < 4 {
            value.len()
        } else {
            4
        };
        let mut ent = self.entries[offset];
        let ghost before = ent.value@;
        let mut k: usize = 0;
        while k < cp_len
            invariant
                k <= cp_len <= 4,
                cp_len <= value@.len(),
                ent.value@.len() == 4,
                forall|j: int| 0 <= j < k ==> ent.value@[j] == value@[j],
                forall|j: int| k <= j < 4 ==> ent.value@[j] == before[j],
            decreases cp_len - k,
        {
            ent.value[k] = value[k];
            k += 1;
        }
        self.entries[offset] = ent;
        assert(ent.value@ =~= copy_prefix(before, value@, inline_len(value@)));
        assert(self.cl_view().values =~= set_entry_view(
            old(self).cl_view(),
            offset as int,
            bucket_key,
            value@,
        ).values);
        proof {
            law_set_entry_writes_only_its_slot(old(self).cl_view(), offset as int, bucket_key, value@);
        }
        cp_len
    }

    fn find_entry_for_read(&self, bucket_key: InBktKey) -> (res: ReadClFindResult) {
        let found_slot = self.key_match_mask(bucket_key);
        ReadClFindResult { condid: found_slot & self.flags.valid_slots }
    }

    fn find_entry_for_write(&self, bucket_key: InBktKey) -> (res: WriteClFindResult) {
        let found_slot = self.key_match_mask(bucket_key);
        WriteClFindResult {
            condid: found_slot ^ self.flags.valid_slots,
            free: Self::SLOTS_MASK ^ self.flags.valid_slots,
        }
    }
}

impl CacheLine {
    /// The mask of the slots, used or not, whose key is `bucket_key`.
    fn key_match_mask(&self, bucket_key: InBktKey) -> (found_slot: ClCondidSlotsMask)
        ensures
            found_slot == key_match_bits(self.cl_view().keys, bucket_key, 7),
    {
        let mut found_slot: ClCondidSlotsMask = 0x0;
        let mut curr_bit: ClCondidSlotsMask = 1;
        let mut i: usize = 0;
        assert(1u8 << 0u8 == 1u8) by (bit_vector);
        while i < 7
            invariant
                i <= 7,
                curr_bit == 1u8 << (i as u8),
                found_slot == key_match_bits(self.bkt_keys@, bucket_key, i as int),
            decreases 7 - i,
        {
            if self.bkt_keys[i] == bucket_key {
                found_slot = found_slot | curr_bit;
            }
            assert((1u8 << (i as u8)) << 1u8 == 1u8 << ((i + 1) as u8)) by (bit_vector)
                requires
                    i < 7,
            ;
            curr_bit = curr_bit << 1u8;
            i += 1;
        }
        found_slot
    }
}

} // verus!
