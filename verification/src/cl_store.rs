//! The cache-line store of the single-bucket layout: all cache lines, the per-line byte store
//! of each allocated line, and the set of freed line indices.
//!
//! Store data associated to the entry in the corresponding cl; the index is a direct mapping
//! from cl index + offset in the cl. The basic kinds of data: the id, the key reminder, and the
//! value suffix.
use vstd::prelude::*;

use crate::bucket::{chain, has_chain, is_chain, lemma_chain_len, put_can_write};
use crate::cl::{CacheLine, ClSlot, ClView};
use crate::free_set::{
    bitmap_insert, bitmap_min, bitmap_new, lemma_set_min, roaring_contents, set_min,
};
use roaring::RoaringBitmap;

verus! {

pub type ClIndex = u32;

/// The byte data of the slots of one cache line: ids, key reminders and value suffixes.
pub struct PerClView {
    pub ids: Seq<Seq<u8>>,
    pub k_rems: Seq<Seq<u8>>,
    pub v_s: Seq<Seq<u8>>,
}

impl PerClView {
    pub open spec fn empty() -> PerClView {
        PerClView { ids: Seq::empty(), k_rems: Seq::empty(), v_s: Seq::empty() }
    }
}

/// The bytes of slot `slot` of one field, unless the slot is beyond the field or empty.
pub open spec fn field_get(field: Seq<Seq<u8>>, slot: int) -> Option<Seq<u8>> {
    if 0 <= slot < field.len() && field[slot].len() > 0 {
        Some(field[slot])
    } else {
        None
    }
}

/// The bytes of slot `slot` of one field, or no bytes.
pub open spec fn field_or_empty(field: Seq<Seq<u8>>, slot: int) -> Seq<u8> {
    if 0 <= slot < field.len() {
        field[slot]
    } else {
        Seq::empty()
    }
}

/// One field after setting slot `slot`: given bytes are stored (the field grows with empty
/// slots to reach it); no bytes empty the slot if it exists.
pub open spec fn field_set(field: Seq<Seq<u8>>, slot: int, bytes: Option<Seq<u8>>) -> Seq<
    Seq<u8>,
> {
    match bytes {
        Some(b) => if slot + 1 > field.len() {
            (field + Seq::new((slot + 1 - field.len()) as nat, |i: int| Seq::<u8>::empty())).update(
                slot,
                b,
            )
        } else {
            field.update(slot, b)
        },
        None => if slot < field.len() {
            field.update(slot, Seq::empty())
        } else {
            field
        },
    }
}

/// One field after freeing slot `slot`.
pub open spec fn field_freed(field: Seq<Seq<u8>>, slot: int) -> Seq<Seq<u8>> {
    if field.len() <= slot {
        field
    } else {
        field.update(slot, Seq::empty())
    }
}

pub open spec fn opt_slice_view(o: Option<&[u8]>) -> Option<Seq<u8>> {
    match o {
        Some(s) => Some(s@),
        None => None,
    }
}

/// The byte store of one cache line's slots.
pub trait PerClStore {
    spec fn per_cl_view(&self) -> PerClView;

    /// Empties slot `slot` of every field.
    fn free(&mut self, slot: ClSlot)
        requires
            (slot as int) < old(self).per_cl_view().ids.len(),
            (slot as int) < old(self).per_cl_view().k_rems.len(),
            (slot as int) < old(self).per_cl_view().v_s.len(),
        ensures
            final(self).per_cl_view() == (PerClView {
                ids: field_freed(old(self).per_cl_view().ids, slot as int),
                k_rems: field_freed(old(self).per_cl_view().k_rems, slot as int),
                v_s: field_freed(old(self).per_cl_view().v_s, slot as int),
            }),
    ;

    /// Sets the id, key reminder and value suffix of slot `slot`.
    fn set(&mut self, slot: ClSlot, id: Option<&[u8]>, k_rem: Option<&[u8]>, val_rem: Option<&[u8]>)
        requires
            slot < usize::MAX || (id is None && k_rem is None && val_rem is None),
        ensures
            final(self).per_cl_view() == (PerClView {
                ids: field_set(old(self).per_cl_view().ids, slot as int, opt_slice_view(id)),
                k_rems: field_set(
                    old(self).per_cl_view().k_rems,
                    slot as int,
                    opt_slice_view(k_rem),
                ),
                v_s: field_set(old(self).per_cl_view().v_s, slot as int, opt_slice_view(val_rem)),
            }),
    ;

    /// The id, key reminder and value suffix of slot `slot`.
    fn get_data(&self, slot: ClSlot) -> (data: (Option<&[u8]>, Option<&[u8]>, Option<&[u8]>))
        ensures
            opt_slice_view(data.0) == field_get(self.per_cl_view().ids, slot as int),
            opt_slice_view(data.1) == field_get(self.per_cl_view().k_rems, slot as int),
            opt_slice_view(data.2) == field_get(self.per_cl_view().v_s, slot as int),
    ;

    /// The id of slot `slot`.
    fn get_id(&self, slot: ClSlot) -> (id: Option<&[u8]>)
        ensures
            opt_slice_view(id) == field_get(self.per_cl_view().ids, slot as int),
    ;

    /// The key reminder of slot `slot`.
    fn get_key_rem(&self, slot: ClSlot) -> (k_rem: Option<&[u8]>)
        ensures
            opt_slice_view(k_rem) == field_get(self.per_cl_view().k_rems, slot as int),
    ;

    /// The value suffix of slot `slot`.
    fn get_value_suffix(&self, slot: ClSlot) -> (v_s: Option<&[u8]>)
        ensures
            opt_slice_view(v_s) == field_get(self.per_cl_view().v_s, slot as int),
    ;
}

/// A byte store held in memory, one vector of byte strings per field.
pub struct PerClVecMemStore {
    ids: Vec<Vec<u8>>,
    k_rems: Vec<Vec<u8>>,
    v_s: Vec<Vec<u8>>,
}

pub open spec fn fields_view(f: Vec<Vec<u8>>) -> Seq<Seq<u8>> {
    f@.map_values(|v: Vec<u8>| v@)
}

impl View for PerClVecMemStore {
    type V = PerClView;

    closed spec fn view(&self) -> PerClView {
        PerClView {
            ids: fields_view(self.ids),
            k_rems: fields_view(self.k_rems),
            v_s: fields_view(self.v_s),
        }
    }
}

impl PerClVecMemStore {
    /// An empty store.
    pub fn new() -> (s: PerClVecMemStore)
        ensures
            s@ == PerClView::empty(),
    {
        let s = PerClVecMemStore { ids: Vec::new(), k_rems: Vec::new(), v_s: Vec::new() };
        assert(s@.ids =~= Seq::<Seq<u8>>::empty());
        assert(s@.k_rems =~= Seq::<Seq<u8>>::empty());
        assert(s@.v_s =~= Seq::<Seq<u8>>::empty());
        s
    }
}

/// Empties slot `slot` of one field.
fn free_field(a: &mut Vec<Vec<u8>>, slot: ClSlot)
    requires
        (slot as int) < old(a)@.len(),
    ensures
        fields_view(*final(a)) == field_freed(fields_view(*old(a)), slot as int),
{
    a[slot] = Vec::new();
    assert(fields_view(*a) =~= field_freed(fields_view(*old(a)), slot as int));
}

/// Sets slot `slot` of one field.
fn set_field(b: Option<&[u8]>, a: &mut Vec<Vec<u8>>, slot: ClSlot)
    requires
        slot < usize::MAX || b is None,
    ensures
        fields_view(*final(a)) == field_set(fields_view(*old(a)), slot as int, opt_slice_view(b)),
{
    match b {
        Some(id) => {
            if slot + 1 > a.len() {
                let ghost before = fields_view(*a);
                while a.len() < slot + 1
                    invariant
                        before.len() <= a.len() <= slot + 1,
                        slot < usize::MAX,
                        fields_view(*a) == before + Seq::new(
                            (a.len() - before.len()) as nat,
                            |i: int| Seq::<u8>::empty(),
                        ),
                    decreases slot + 1 - a.len(),
                {
                    let ghost prev = fields_view(*a);
                    a.push(Vec::new());
                    assert(fields_view(*a) =~= prev.push(Seq::<u8>::empty()));
                    assert(fields_view(*a) =~= before + Seq::new(
                        (a.len() - before.len()) as nat,
                        |i: int| Seq::<u8>::empty(),
                    ));
                }
            }
            let ghost grown = fields_view(*a);
            a[slot] = vstd::slice::slice_to_vec(id);
            assert(fields_view(*a) =~= grown.update(slot as int, id@));
        },
        None => {
            if slot < a.len() {
                a[slot] = Vec::new();
                assert(fields_view(*a) =~= fields_view(*old(a)).update(
                    slot as int,
                    Seq::empty(),
                ));
            }
        },
    }
}

/// The bytes of slot `slot` of one field, unless the slot is beyond the field or empty.
fn get_field(a: &Vec<Vec<u8>>, slot: ClSlot) -> (r: Option<&[u8]>)
    ensures
        opt_slice_view(r) == field_get(fields_view(*a), slot as int),
{
    if slot < a.len() {
        if a[slot].len() != 0 {
            Some(a[slot].as_slice())
        } else {
            None
        }
    } else {
        None
    }
}

impl PerClStore for PerClVecMemStore {
    open spec fn per_cl_view(&self) -> PerClView {
        self@
    }

    fn free(&mut self, slot: ClSlot) {
        free_field(&mut self.ids, slot);
        free_field(&mut self.k_rems, slot);
        free_field(&mut self.v_s, slot);
    }

    fn set(&mut self, slot: ClSlot, id: Option<&[u8]>, k_rem: Option<&[u8]>, val_rem: Option<&[u8]>) {
        set_field(id, &mut self.ids, slot);
        set_field(k_rem, &mut self.k_rems, slot);
        set_field(val_rem, &mut self.v_s, slot);
    }

    fn get_data(&self, slot: ClSlot) -> (data: (Option<&[u8]>, Option<&[u8]>, Option<&[u8]>)) {
        (self.get_id(slot), self.get_key_rem(slot), self.get_value_suffix(slot))
    }

    fn get_id(&self, slot: ClSlot) -> (id: Option<&[u8]>) {
        get_field(&self.ids, slot)
    }

    fn get_key_rem(&self, slot: ClSlot) -> (k_rem: Option<&[u8]>) {
        get_field(&self.k_rems, slot)
    }

    fn get_value_suffix(&self, slot: ClSlot) -> (v_s: Option<&[u8]>) {
        get_field(&self.v_s, slot)
    }
}

/// The abstract content of a cache-line store.
pub struct ClStoreView {
    pub cls: Seq<ClView>,
    pub stores: Seq<Option<PerClView>>,
    pub free: Set<u32>,
}

impl ClStoreView {
    /// As many byte stores as lines, freed indices within range, well-formed lines.
    pub open spec fn wf(self) -> bool {
        &&& self.cls.len() == self.stores.len()
        &&& forall|x: u32| self.free.contains(x) ==> x < self.stores.len()
        &&& forall|i: int| 0 <= i < self.cls.len() ==> (#[trigger] self.cls[i]).wf()
    }
}

/// An empty line: no slot used, keys and values zero, no next line.
pub open spec fn empty_cl_view() -> ClView {
    ClView {
        valid: 0,
        keys: Seq::new(7, |i: int| 0u16),
        values: Seq::new(7, |i: int| 0u32),
        next: CacheLine::INVALID_CL,
    }
}

/// The store after `allocate_cl`, and the index it returns.
pub open spec fn allocate_outcome(s: ClStoreView) -> (u32, ClStoreView) {
    if s.free == Set::<u32>::empty() {
        (
            s.cls.len() as u32,
            ClStoreView {
                cls: s.cls.push(empty_cl_view()),
                stores: s.stores.push(Some(PerClView::empty())),
                free: s.free,
            },
        )
    } else {
        let ix = set_min(s.free);
        (
            ix,
            ClStoreView {
                stores: if s.stores[ix as int] is None {
                    s.stores.update(ix as int, Some(PerClView::empty()))
                } else {
                    s.stores
                },
                ..s
            },
        )
    }
}

/// Setting a slot to non-empty bytes makes a read of it give those bytes; setting it to no
/// bytes makes the read give none; the other slots read as before.
pub proof fn law_get_after_set(field: Seq<Seq<u8>>, slot: int, bytes: Option<Seq<u8>>, other: int)
    requires
        0 <= slot,
        other != slot,
    ensures
        bytes matches Some(b) && b.len() > 0 ==> field_get(field_set(field, slot, bytes), slot) == bytes,
        bytes is None ==> field_get(field_set(field, slot, bytes), slot) is None,
        field_get(field_set(field, slot, bytes), other) == field_get(field, other),
{
}

/// A freed slot reads as empty; the other slots read as before.
pub proof fn law_get_after_free(field: Seq<Seq<u8>>, slot: int, other: int)
    requires
        0 <= slot,
        other != slot,
    ensures
        field_get(field_freed(field, slot), slot) is None,
        field_get(field_freed(field, slot), other) == field_get(field, other),
{
}

/// With no freed line, allocation hands out a new line, past all existing ones.
pub proof fn law_allocate_fresh(s: ClStoreView)
    requires
        s.wf(),
        s.free == Set::<u32>::empty(),
        s.cls.len() < 0x1_0000_0000,
    ensures
        allocate_outcome(s).0 as int == s.cls.len(),
        allocate_outcome(s).1.cls.len() == s.cls.len() + 1,
{
}

/// Deleting a line whose index is below every freed index makes the next allocation hand that
/// index out again, with an empty byte store.
pub proof fn law_allocate_reuses_deleted(s: ClStoreView, ix: u32)
    requires
        s.wf(),
        (ix as int) < s.stores.len(),
        forall|x: u32| s.free.contains(x) ==> ix <= x,
    ensures
        ({
            let d = ClStoreView {
                stores: s.stores.update(ix as int, None),
                free: s.free.insert(ix),
                ..s
            };
            &&& allocate_outcome(d).0 == ix
            &&& allocate_outcome(d).1.stores[ix as int] == Some(PerClView::empty())
        }),
{
    let d = ClStoreView { stores: s.stores.update(ix as int, None), free: s.free.insert(ix), ..s };
    assert(d.free.contains(ix));
    lemma_set_min(d.free, ix);
}

/// All cache lines, the byte store of each allocated line, and the freed line indices.
pub struct ClStore {
    cls: Vec<CacheLine>,
    cls_store: Vec<Option<PerClVecMemStore>>,
    free_cls: RoaringBitmap,
}

pub open spec fn opt_store_view(o: Option<PerClVecMemStore>) -> Option<PerClView> {
    match o {
        Some(p) => Some(p@),
        None => None,
    }
}

impl View for ClStore {
    type V = ClStoreView;

    closed spec fn view(&self) -> ClStoreView {
        ClStoreView {
            cls: self.cls@.map_values(|c: CacheLine| c@),
            stores: self.cls_store@.map_values(|o: Option<PerClVecMemStore>| opt_store_view(o)),
            free: roaring_contents(self.free_cls),
        }
    }
}

impl ClStore {
    /// An empty store.
    pub fn new(_num_cl_entries: u16) -> (s: ClStore)
        ensures
            s@.wf(),
            s@.cls == Seq::<ClView>::empty(),
            s@.stores == Seq::<Option<PerClView>>::empty(),
            s@.free == Set::<u32>::empty(),
    {
        let s = ClStore { cls: Vec::new(), free_cls: bitmap_new(), cls_store: Vec::new() };
        assert(s@.cls =~= Seq::<ClView>::empty());
        assert(s@.stores =~= Seq::<Option<PerClView>>::empty());
        s
    }

    /// Hands out the least freed index (giving it a byte store again if it has none), or else
    /// a new empty line with an empty byte store. The freed index stays in the freed set.
    pub fn allocate_cl(&mut self) -> (ix: ClIndex)
        requires
            old(self)@.wf(),
        ensures
            (ix, final(self)@) == allocate_outcome(old(self)@),
            final(self)@.wf(),
    {
        match bitmap_min(&self.free_cls) {
            Some(cl_ix) => {
                proof {
                    lemma_set_min(self@.free, cl_ix);
                }
                if self.cls_store[cl_ix as usize].is_none() {
                    self.cls_store.set(cl_ix as usize, Some(PerClVecMemStore::new()));
                }
                assert(self@.stores =~= allocate_outcome(old(self)@).1.stores);
                assert(self@.cls =~= old(self)@.cls);
                cl_ix
            },
            None => {
                self.cls.push(CacheLine::new());
                self.cls_store.push(Some(PerClVecMemStore::new()));
                assert(self@.cls =~= old(self)@.cls.push(empty_cl_view()));
                assert(self@.stores =~= old(self)@.stores.push(Some(PerClView::empty())));
                (self.cls.len() - 1) as ClIndex
            },
        }
    }

    /// Drops the byte store of line `cl_ix` and adds the index to the freed set, if the index
    /// is within the store.
    pub fn delete_cl(&mut self, cl_ix: ClIndex)
        requires
            old(self)@.wf(),
        ensures
            final(self)@.wf(),
            (cl_ix as int) < old(self)@.stores.len() ==> final(self)@ == (ClStoreView {
                stores: old(self)@.stores.update(cl_ix as int, None),
                free: old(self)@.free.insert(cl_ix),
                ..old(self)@
            }),
            (cl_ix as int) >= old(self)@.stores.len() ==> final(self)@ == old(self)@,
    {
        if (cl_ix as usize) < self.cls_store.len() {
            self.cls_store.set(cl_ix as usize, None);
            bitmap_insert(&mut self.free_cls, cl_ix);
            assert(self@.stores =~= old(self)@.stores.update(cl_ix as int, None));
            assert(self@.cls =~= old(self)@.cls);
        }
    }

    /// The line `cl_ix`.
    pub fn get_cl(&mut self, cl_ix: ClIndex) -> (cl: Option<&CacheLine>)
        requires
            (cl_ix as int) < old(self)@.cls.len(),
        ensures
            cl is Some,
            cl.unwrap()@ == old(self)@.cls[cl_ix as int],
            final(self)@ == old(self)@,
    {
        Some(&self.cls[cl_ix as usize])
    }

    /// Whether the lines from `head` on, following the next links, end at `INVALID_CL`, each
    /// line existing and having a byte store: exactly when the bucket operations can be called
    /// on the chain from `head`.
    pub fn chain_is_sound(&self, head: ClIndex) -> (b: bool)
        requires
            self@.wf(),
        ensures
            b == has_chain(self@, head),
    {
        let ghost s = self@;
        let ghost c = chain(s, head);
        proof {
            if has_chain(s, head) {
                lemma_chain_len(s, head, c);
            }
        }
        let n = self.cls.len();
        let mut cl = head;
        let mut steps: usize = 0;
        let ghost mut path: Seq<u32> = Seq::empty();
        while cl != CacheLine::INVALID_CL
            invariant
                s == self@,
                s.wf(),
                n == s.cls.len(),
                c == chain(s, head),
                has_chain(s, head) ==> is_chain(s, head, c) && c.len() <= n,
                steps == path.len(),
                steps <= n,
                path.len() == 0 ==> cl == head,
                path.len() > 0 ==> path[0] == head && s.cls[path.last() as int].next == cl,
                forall|k: int|
                    0 <= k < path.len() ==> #[trigger] path[k] != CacheLine::INVALID_CL && (path[k] as int)
                        < s.cls.len() && s.stores[path[k] as int] is Some,
                forall|k: int| 0 <= k < path.len() - 1 ==> s.cls[#[trigger] path[k] as int].next == path[k + 1],
                has_chain(s, head) ==> {
                    &&& path.len() <= c.len()
                    &&& forall|k: int| 0 <= k < path.len() ==> #[trigger] path[k] == c[k]
                    &&& cl == (if path.len() < c.len() { c[path.len() as int] } else { CacheLine::INVALID_CL })
                },
            decreases n - steps,
        {
            if steps >= n || cl as usize >= n {
                return false;
            }
            if self.cls_store[cl as usize].is_none() {
                return false;
            }
            let next = self.cls[cl as usize].next_cl();
            proof {
                if has_chain(s, head) {
                    let k = path.len() as int;
                    if k + 1 < c.len() {
                        assert(s.cls[c[k] as int].next == c[k + 1]);
                    }
                }
                path = path.push(cl);
            }
            cl = next;
            steps += 1;
        }
        proof {
            assert(is_chain(s, head, path));
        }
        true
    }

    /// Whether a put with a key reminder into the bucket with head `head` may be called with
    /// `new_cl` as the line to link: the chain is sound, and a line to link exists with a byte
    /// store, after a first line.
    pub fn put_ready(&self, head: ClIndex, new_cl: Option<ClIndex>) -> (b: bool)
        requires
            self@.wf(),
        ensures
            b == (has_chain(self@, head) && (new_cl matches Some(n) ==> head != CacheLine::INVALID_CL
                && (n as int) < self@.stores.len() && self@.stores[n as int] is Some)),
            b ==> forall|bucket_key: u16, key_reminder: Seq<u8>|
                #[trigger] put_can_write(self@, chain(self@, head), bucket_key, Some(key_reminder), new_cl),
    {
        if !self.chain_is_sound(head) {
            return false;
        }
        match new_cl {
            None => true,
            Some(n) => head != CacheLine::INVALID_CL && (n as usize) < self.cls_store.len()
                && self.cls_store[n as usize].is_some(),
        }
    }

    /// The line `cl_ix`, if it exists, and its byte store, if it has one.
    pub fn get_cl_w_store(&self, cl_ix: ClIndex) -> (r: (Option<&CacheLine>, Option<&PerClVecMemStore>))
        requires
            (cl_ix as int) < self@.stores.len(),
        ensures
            r.0 is Some <==> (cl_ix as int) < self@.cls.len(),
            r.0 is Some ==> r.0.unwrap()@ == self@.cls[cl_ix as int],
            r.1 is Some <==> self@.stores[cl_ix as int] is Some,
            r.1 is Some ==> Some(r.1.unwrap()@) == self@.stores[cl_ix as int],
    {
        let cl = if (cl_ix as usize) < self.cls.len() {
            Some(&self.cls[cl_ix as usize])
        } else {
            None
        };
        (cl, self.cls_store[cl_ix as usize].as_ref())
    }

    /// Mutable access to the line `cl_ix` and to its byte store, if it has one.
    pub fn get_mut_cl_w_store(&mut self, cl_ix: ClIndex) -> (r: (
        Option<&mut CacheLine>,
        Option<&mut PerClVecMemStore>,
    ))
        requires
            old(self)@.wf(),
            (cl_ix as int) < old(self)@.stores.len(),
        ensures
            r.0 is Some,
            r.0.unwrap()@ == old(self)@.cls[cl_ix as int],
            r.1 is Some <==> old(self)@.stores[cl_ix as int] is Some,
            r.1 is Some ==> Some(r.1.unwrap()@) == old(self)@.stores[cl_ix as int],
            final(self)@.cls == old(self)@.cls.update(
                cl_ix as int,
                final(r.0.unwrap())@,
            ),
            final(self)@.stores == (match r.1 {
                Some(p) => old(self)@.stores.update(cl_ix as int, Some(final(p)@)),
                None => old(self)@.stores,
            }),
            final(self)@.free == old(self)@.free,
    {
        let ghost old_cls = self.cls@;
        let ghost old_stores = self.cls_store@;
        let cl = Some(&mut self.cls[cl_ix as usize]);
        let st = self.cls_store[cl_ix as usize].as_mut();
        (cl, st)
    }
}

} // verus!
