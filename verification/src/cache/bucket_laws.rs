//! Laws of one bucket of the cache layout: a put of a new key is what a read then finds, and
//! what a delete then takes out, leaving nothing for the read to find.
use vstd::prelude::*;

use crate::bits::{bit, lemma_bit_consts, lemma_bit_low, lemma_lowest_bit_from, lowest_bit};
use crate::cache::bucket::{
    chain, delete_store, find_from, first_candidate, has_chain, is_chain, lemma_chain_distinct,
    lemma_chain_frame, lemma_chain_is, lemma_delete_store_wf, lemma_find_from_at,
    lemma_find_from_none, lemma_first_candidate, lemma_first_candidate_same,
    lemma_first_write_wf, lemma_put_scan, line_find, put_can_write, put_outcome, put_outcome_first_write,
    put_scan, put_target,
};
use crate::cache::cl::{
    copy_prefix, inline_len, law_clear_entry_only_marks_unused, law_set_entry_writes_only_its_slot,
    lemma_clear_entry_view, lemma_read_condid,
    lemma_set_entry_view, lemma_write_free, read_condid, set_entry_view, write_free,
};
use crate::cache::cl_store::{
    field_freed, field_get, field_or_empty, field_set, field_taken, law_get_after_set, ClStoreView,
    PerClView,
};

verus! {

/// A put of `key_reminder` under `bucket_key` that a read of the bucket from `head` does not
/// find, and that succeeds. When the put links `new_cl`, that line exists, has a byte store and
/// a free slot 0, and ends its own chain.
pub open spec fn put_new_key_pre(
    s: ClStoreView,
    head: u32,
    invalid_cl: u32,
    id: Seq<u8>,
    value: Seq<u8>,
    bucket_key: u16,
    key_reminder: Seq<u8>,
    value_prefix: Seq<u8>,
    new_cl: Option<u32>,
) -> bool {
    let path = chain(s, head, invalid_cl);
    &&& s.wf()
    &&& head != invalid_cl
    &&& has_chain(s, head, invalid_cl)
    &&& find_from(s, path, bucket_key, key_reminder, 0) is None
    &&& put_outcome(
        s,
        path,
        id,
        Some(value),
        bucket_key,
        Some(key_reminder),
        value_prefix,
        new_cl,
        invalid_cl,
    ).0 is Success
    &&& put_target(
        put_scan(s, path, bucket_key, key_reminder, invalid_cl, path.len() as int),
        new_cl,
        invalid_cl,
    ).2 ==> {
        let n = new_cl.unwrap();
        &&& n != invalid_cl
        &&& (n as int) < s.cls.len()
        &&& s.stores[n as int] is Some
        &&& s.cls[n as int].next == invalid_cl
        &&& !bit(s.cls[n as int].valid, 0)
    }
}

/// Once a write's scan has passed a line with a free slot (and found no entry), it has a line
/// to write to.
proof fn lemma_scan_sees_free(
    s: ClStoreView,
    path: Seq<u32>,
    bucket_key: u16,
    key_reminder: Seq<u8>,
    invalid_cl: u32,
    n: int,
    k: int,
)
    requires
        0 <= k < n <= path.len(),
        forall|i: int| 0 <= i < path.len() ==> #[trigger] path[i] != invalid_cl,
        write_free(s.cls[path[k] as int]) != 0,
        !put_scan(s, path, bucket_key, key_reminder, invalid_cl, n).exists,
    ensures
        put_scan(s, path, bucket_key, key_reminder, invalid_cl, n).to_write != invalid_cl,
    decreases n,
{
    let prev = put_scan(s, path, bucket_key, key_reminder, invalid_cl, n - 1);
    assert(path[n - 1] != invalid_cl);
    if !prev.exists && n - 1 > k {
        lemma_scan_sees_free(s, path, bucket_key, key_reminder, invalid_cl, n - 1, k);
    }
}

/// Setting or then freeing one slot of a field leaves every other slot's bytes.
proof fn lemma_field_other_slot(f: Seq<Seq<u8>>, slot: int, b: Option<Seq<u8>>, j: int)
    requires
        0 <= slot,
        0 <= j,
        j != slot,
    ensures
        field_or_empty(field_set(f, slot, b), j) == field_or_empty(f, j),
        field_or_empty(field_freed(field_set(f, slot, b), slot), j) == field_or_empty(f, j),
{
    let g = field_set(f, slot, b);
    match b {
        Some(x) => {
            if slot + 1 > f.len() {
                let e = f + Seq::new((slot + 1 - f.len()) as nat, |i: int| Seq::<u8>::empty());
                assert(g == e.update(slot, x));
                if j < f.len() {
                    assert(e[j] == f[j]);
                } else if j < e.len() {
                    assert(e[j] == Seq::<u8>::empty());
                }
            }
        },
        None => {},
    }
    if j < g.len() {
        assert(field_freed(g, slot).len() == g.len());
    }
}

/// Where a put of a new key writes: a free slot of a line of the chain where a read finds
/// nothing, or slot 0 of the linked line, which cannot be in the chain (the scan would have
/// picked it for its free slot).
proof fn lemma_put_new_target(
    s: ClStoreView,
    head: u32,
    invalid_cl: u32,
    id: Seq<u8>,
    value: Seq<u8>,
    bucket_key: u16,
    key_reminder: Seq<u8>,
    value_prefix: Seq<u8>,
    new_cl: Option<u32>,
)
    requires
        put_new_key_pre(s, head, invalid_cl, id, value, bucket_key, key_reminder, value_prefix, new_cl),
    ensures
        ({
            let path = chain(s, head, invalid_cl);
            let sc = put_scan(s, path, bucket_key, key_reminder, invalid_cl, path.len() as int);
            let (w, m, link) = put_target(sc, new_cl, invalid_cl);
            let slot = lowest_bit(m);
            &&& is_chain(s, head, invalid_cl, path)
            &&& path.len() > 0
            &&& !sc.exists
            &&& w != invalid_cl
            &&& 0 <= slot < 7
            &&& (w as int) < s.cls.len()
            &&& s.stores[w as int] is Some
            &&& !bit(s.cls[w as int].valid, slot)
            &&& !link ==> line_find(s, w, bucket_key, key_reminder) is None
            &&& link ==> w == new_cl.unwrap() && !path.contains(w) && sc.tail == path.last()
                && s.cls[w as int].next == invalid_cl && slot == 0
            &&& !link ==> path.contains(w)
        }),
{
    let path = chain(s, head, invalid_cl);
    lemma_chain_is(s, head, invalid_cl, path);
    let sc = put_scan(s, path, bucket_key, key_reminder, invalid_cl, path.len() as int);
    let (w, m, link) = put_target(sc, new_cl, invalid_cl);
    lemma_put_scan(s, head, path, bucket_key, key_reminder, invalid_cl, path.len() as int);
    lemma_find_from_none(s, path, bucket_key, key_reminder, 0);
    if link {
        assert(1u8 & 1u8 != 0u8) by (bit_vector);
        lemma_bit_low(1u8);
        lemma_lowest_bit_from(1u8, 0);
        if path.contains(w) {
            let k = choose|k: int| 0 <= k < path.len() && path[k] == w;
            let v = s.cls[w as int];
            assert(v.wf());
            lemma_write_free(v);
            lemma_bit_consts();
            assert(bit(write_free(v), 0));
            assert(write_free(v) != 0);
            lemma_scan_sees_free(s, path, bucket_key, key_reminder, invalid_cl, path.len() as int, k);
        }
    } else {
        let k = choose|k: int| 0 <= k < path.len() && path[k] == sc.to_write;
        let v = s.cls[w as int];
        assert(v.wf());
        lemma_write_free(v);
        lemma_lowest_bit_from(m, 0);
        assert(line_find(s, path[k], bucket_key, key_reminder) is None);
        assert(path.contains(w));
    }
}

/// Writing an entry to a free slot of a line where a read of the key found nothing (or to slot
/// 0) makes the read find that slot.
proof fn lemma_first_write_find(
    s: ClStoreView,
    w: u32,
    slot: int,
    bucket_key: u16,
    id: Seq<u8>,
    value: Seq<u8>,
    key_reminder: Seq<u8>,
    value_prefix: Seq<u8>,
)
    requires
        s.wf(),
        (w as int) < s.cls.len(),
        s.stores[w as int] is Some,
        0 <= slot < 7,
        !bit(s.cls[w as int].valid, slot),
        slot == 0 || line_find(s, w, bucket_key, key_reminder) is None,
    ensures
        line_find(
            put_outcome_first_write(s, w, slot, bucket_key, id, Some(value), Some(key_reminder), value_prefix),
            w,
            bucket_key,
            key_reminder,
        ) == Some(slot),
{
    let s1 = put_outcome_first_write(s, w, slot, bucket_key, id, Some(value), Some(key_reminder), value_prefix);
    let v = s.cls[w as int];
    let v1 = s1.cls[w as int];
    let p = s.stores[w as int].unwrap();
    let p1 = s1.stores[w as int].unwrap();
    assert(v.wf());
    lemma_set_entry_view(v, slot, bucket_key, value_prefix);
    assert(v1 == set_entry_view(v, slot, bucket_key, value_prefix));
    assert(p1.k_rems == field_set(p.k_rems, slot, Some(key_reminder)));
    lemma_read_condid(v, bucket_key);
    lemma_read_condid(v1, bucket_key);
    lemma_first_candidate(p, key_reminder, read_condid(v, bucket_key), 0);
    assert forall|j: int| 0 <= j < slot implies !(bit(read_condid(v1, bucket_key), j) && field_or_empty(p1.k_rems, j) == key_reminder) by {
        lemma_field_other_slot(p.k_rems, slot, Some(key_reminder), j);
        assert(bit(v1.valid, j) == bit(v.valid, j));
        assert(v1.keys[j] == v.keys[j]);
        assert(field_or_empty(p1.k_rems, j) == field_or_empty(p.k_rems, j));
        assert(bit(read_condid(v1, bucket_key), j) == bit(read_condid(v, bucket_key), j));
    }
    assert(field_or_empty(p1.k_rems, slot) == key_reminder);
    assert(bit(read_condid(v1, bucket_key), slot));
    crate::cache::bucket::lemma_first_candidate_at(p1, key_reminder, read_condid(v1, bucket_key), 0, slot);
}

/// A read along a path where no line holds the key finds nothing.
proof fn lemma_find_from_all_none(s: ClStoreView, path: Seq<u32>, bucket_key: u16, key_reminder: Seq<u8>, k: int)
    requires
        0 <= k,
        forall|j: int| 0 <= j < path.len() ==> #[trigger] line_find(s, path[j], bucket_key, key_reminder) is None,
    ensures
        find_from(s, path, bucket_key, key_reminder, k) is None,
    decreases path.len() - k,
{
    if k < path.len() {
        lemma_find_from_all_none(s, path, bucket_key, key_reminder, k + 1);
    }
}

/// After a successful put of a key that a read of the bucket did not find, the bucket's chain
/// is the old one (with `new_cl` at its end when it was linked), and a read of the key finds
/// the written line and slot, with the inline value copied from `value_prefix`, and the id, key
/// reminder and value in the line's byte store (each read back when it is non-empty).
pub proof fn law_get_after_put(
    s: ClStoreView,
    head: u32,
    invalid_cl: u32,
    id: Seq<u8>,
    value: Seq<u8>,
    bucket_key: u16,
    key_reminder: Seq<u8>,
    value_prefix: Seq<u8>,
    new_cl: Option<u32>,
)
    requires
        put_new_key_pre(s, head, invalid_cl, id, value, bucket_key, key_reminder, value_prefix, new_cl),
    ensures
        ({
            let path = chain(s, head, invalid_cl);
            let (res, s2) = put_outcome(
                s,
                path,
                id,
                Some(value),
                bucket_key,
                Some(key_reminder),
                value_prefix,
                new_cl,
                invalid_cl,
            );
            let (w, sl) = res->Success_0;
            let p2 = s2.stores[w as int].unwrap();
            &&& s2.wf()
            &&& has_chain(s2, head, invalid_cl)
            &&& chain(s2, head, invalid_cl) == (if path.contains(w) { path } else { path.push(w) })
            &&& find_from(s2, chain(s2, head, invalid_cl), bucket_key, key_reminder, 0) == Some((w, sl as int))
            &&& forall|k: int|
                0 <= k < path.len() && path[k] != w ==> #[trigger] line_find(s2, path[k], bucket_key, key_reminder) is None
            &&& s2.cls[w as int].values[sl as int] == copy_prefix(
                s.cls[w as int].values[sl as int],
                value_prefix,
                inline_len(value_prefix),
            )
            &&& s2.stores[w as int] is Some
            &&& id.len() > 0 ==> field_get(p2.ids, sl as int) == Some(id)
            &&& key_reminder.len() > 0 ==> field_get(p2.k_rems, sl as int) == Some(key_reminder)
            &&& value.len() > 0 ==> field_get(p2.v_s, sl as int) == Some(value)
            &&& field_taken(p2.ids, sl as int) == Some(id)
            &&& field_taken(p2.k_rems, sl as int) == Some(key_reminder)
            &&& field_taken(p2.v_s, sl as int) == Some(value)
        }),
{
    let path = chain(s, head, invalid_cl);
    let kr = key_reminder;
    let sc = put_scan(s, path, bucket_key, kr, invalid_cl, path.len() as int);
    let (w, m, link) = put_target(sc, new_cl, invalid_cl);
    let slot = lowest_bit(m);
    lemma_put_new_target(s, head, invalid_cl, id, value, bucket_key, kr, value_prefix, new_cl);
    lemma_chain_distinct(s, head, invalid_cl, path);
    lemma_find_from_none(s, path, bucket_key, kr, 0);
    let s1 = put_outcome_first_write(s, w, slot, bucket_key, id, Some(value), Some(kr), value_prefix);
    let s2 = put_outcome(s, path, id, Some(value), bucket_key, Some(kr), value_prefix, new_cl, invalid_cl).1;
    lemma_first_write_wf(s, w, slot, bucket_key, id, Some(value), Some(kr), value_prefix);
    lemma_first_write_find(s, w, slot, bucket_key, id, value, kr, value_prefix);
    let tail = sc.tail;
    // the chain
    let np = if link { path.push(w) } else { path };
    if link {
        assert(w != tail);
        assert(s2.cls[w as int] == s1.cls[w as int]);
        assert(is_chain(s2, head, invalid_cl, np)) by {
            assert forall|k: int| 0 <= k < np.len() - 1 implies s2.cls[#[trigger] np[k] as int].next == np[k + 1] by {
                if k < path.len() - 1 {
                    assert(np[k] != tail);
                    assert(s.cls[path[k] as int].next == path[k + 1]);
                }
            }
        }
        let tv = s1.cls[tail as int];
        assert(s2.cls[tail as int].wf()) by {
            assert(tv.wf());
        }
        assert forall|i: int| 0 <= i < s2.cls.len() implies (#[trigger] s2.cls[i]).wf() by {
            if i != tail as int {
                assert(s1.cls[i].wf());
            }
        }
    } else {
        assert forall|k: int| 0 <= k < path.len() implies {
            &&& (#[trigger] path[k] as int) < s2.cls.len()
            &&& s2.cls[path[k] as int].next == s.cls[path[k] as int].next
            &&& s2.stores[path[k] as int] is Some
        } by {}
        lemma_chain_frame(s, s2, head, invalid_cl, path);
    }
    lemma_chain_is(s2, head, invalid_cl, np);
    assert(path.contains(w) == !link);
    // the written line, and the other lines of the chain
    assert(s2.cls[w as int] == s1.cls[w as int] && s2.stores[w as int] == s1.stores[w as int]);
    assert(line_find(s2, w, bucket_key, kr) == Some(slot));
    assert forall|k: int| 0 <= k < path.len() && path[k] != w implies #[trigger] line_find(s2, path[k], bucket_key, kr) is None by {
        let cl = path[k];
        assert(s2.cls[cl as int].valid == s.cls[cl as int].valid);
        assert(s2.cls[cl as int].keys == s.cls[cl as int].keys);
        assert(read_condid(s2.cls[cl as int], bucket_key) == read_condid(s.cls[cl as int], bucket_key));
        assert(s2.stores[cl as int] == s.stores[cl as int]);
        assert(line_find(s, path[k], bucket_key, kr) is None);
    }
    if link {
        assert forall|i: int| 0 <= i < path.len() implies #[trigger] line_find(s2, np[i], bucket_key, kr) is None by {
            assert(np[i] == path[i]);
        }
        lemma_find_from_at(s2, np, bucket_key, kr, 0, path.len() as int);
    } else {
        let kw = choose|kw: int| 0 <= kw < path.len() && path[kw] == w;
        assert forall|i: int| 0 <= i < kw implies #[trigger] line_find(s2, np[i], bucket_key, kr) is None by {
            assert(path[i] != path[kw]);
        }
        lemma_find_from_at(s2, np, bucket_key, kr, 0, kw);
    }
    // what the slot holds
    let p = s.stores[w as int].unwrap();
    let p2 = s2.stores[w as int].unwrap();
    assert(p2.ids == field_set(p.ids, slot, Some(id)));
    assert(p2.k_rems == field_set(p.k_rems, slot, Some(kr)));
    assert(p2.v_s == field_set(p.v_s, slot, Some(value)));
}

/// Clearing the only slot of a line where a read found the key, after it was written to a
/// slot that was free, leaves nothing there for the read to find.
proof fn lemma_deleted_line_finds_nothing(
    s: ClStoreView,
    s2: ClStoreView,
    w: u32,
    slot: int,
    bucket_key: u16,
    kr: Seq<u8>,
    value_prefix: Seq<u8>,
)
    requires
        s.wf(),
        s2.wf(),
        (w as int) < s.cls.len(),
        (w as int) < s2.cls.len(),
        s.stores[w as int] is Some,
        s2.stores[w as int] is Some,
        0 <= slot < 7,
        !bit(s.cls[w as int].valid, slot),
        line_find(s, w, bucket_key, kr) is None,
        s2.cls[w as int] == set_entry_view(s.cls[w as int], slot, bucket_key, value_prefix),
        s2.stores[w as int].unwrap().k_rems == field_set(s.stores[w as int].unwrap().k_rems, slot, Some(kr)),
    ensures
        line_find(delete_store(s2, w, slot), w, bucket_key, kr) is None,
{
    let d = delete_store(s2, w, slot);
    let v = s.cls[w as int];
    let v2 = s2.cls[w as int];
    let vd = d.cls[w as int];
    let p = s.stores[w as int].unwrap();
    let pd = d.stores[w as int].unwrap();
    assert(v.wf());
    lemma_set_entry_view(v, slot, bucket_key, value_prefix);
    assert(v2.valid == set_entry_view(v, slot, bucket_key, value_prefix).valid);
    assert(v2.keys == set_entry_view(v, slot, bucket_key, value_prefix).keys);
    lemma_clear_entry_view(v2, slot);
    lemma_read_condid(v, bucket_key);
    lemma_read_condid(vd, bucket_key);
    assert forall|j: int| 0 <= j < 8 implies (bit(read_condid(vd, bucket_key), j) && field_or_empty(pd.k_rems, j) == kr) == (bit(
        read_condid(v, bucket_key),
        j,
    ) && field_or_empty(p.k_rems, j) == kr) by {
        if j != slot && j < 7 {
            lemma_field_other_slot(p.k_rems, slot, Some(kr), j);
            assert(bit(vd.valid, j) == bit(v.valid, j));
            assert(vd.keys[j] == v.keys[j]);
            assert(field_or_empty(pd.k_rems, j) == field_or_empty(p.k_rems, j));
        }
    }
    lemma_first_candidate_same(pd, read_condid(vd, bucket_key), p, read_condid(v, bucket_key), kr, 0);
    assert(line_find(d, w, bucket_key, kr) is None);
}

/// After a successful put of a key that a read of the bucket did not find (nor, when the put
/// linked `new_cl`, a read of that line), deleting that key takes out the written line and
/// slot, keeps the chain, empties the slot's byte store, and leaves nothing for a read of the
/// key to find.
pub proof fn law_delete_after_put(
    s: ClStoreView,
    head: u32,
    invalid_cl: u32,
    id: Seq<u8>,
    value: Seq<u8>,
    bucket_key: u16,
    key_reminder: Seq<u8>,
    value_prefix: Seq<u8>,
    new_cl: Option<u32>,
)
    requires
        put_new_key_pre(s, head, invalid_cl, id, value, bucket_key, key_reminder, value_prefix, new_cl),
        put_target(
            put_scan(
                s,
                chain(s, head, invalid_cl),
                bucket_key,
                key_reminder,
                invalid_cl,
                chain(s, head, invalid_cl).len() as int,
            ),
            new_cl,
            invalid_cl,
        ).2 ==> line_find(s, new_cl.unwrap(), bucket_key, key_reminder) is None,
    ensures
        ({
            let path = chain(s, head, invalid_cl);
            let (res, s2) = put_outcome(
                s,
                path,
                id,
                Some(value),
                bucket_key,
                Some(key_reminder),
                value_prefix,
                new_cl,
                invalid_cl,
            );
            let (w, sl) = res->Success_0;
            let d = delete_store(s2, w, sl as int);
            let pd = d.stores[w as int].unwrap();
            &&& find_from(s2, chain(s2, head, invalid_cl), bucket_key, key_reminder, 0) == Some((w, sl as int))
            &&& d.wf()
            &&& has_chain(d, head, invalid_cl)
            &&& chain(d, head, invalid_cl) == chain(s2, head, invalid_cl)
            &&& find_from(d, chain(d, head, invalid_cl), bucket_key, key_reminder, 0) is None
            &&& field_get(pd.ids, sl as int) is None
            &&& field_get(pd.k_rems, sl as int) is None
            &&& field_get(pd.v_s, sl as int) is None
        }),
{
    let path = chain(s, head, invalid_cl);
    let kr = key_reminder;
    let sc = put_scan(s, path, bucket_key, kr, invalid_cl, path.len() as int);
    let (w, m, link) = put_target(sc, new_cl, invalid_cl);
    let slot = lowest_bit(m);
    lemma_put_new_target(s, head, invalid_cl, id, value, bucket_key, kr, value_prefix, new_cl);
    law_get_after_put(s, head, invalid_cl, id, value, bucket_key, kr, value_prefix, new_cl);
    lemma_find_from_none(s, path, bucket_key, kr, 0);
    let s2 = put_outcome(s, path, id, Some(value), bucket_key, Some(kr), value_prefix, new_cl, invalid_cl).1;
    let np = chain(s2, head, invalid_cl);
    let d = delete_store(s2, w, slot);
    lemma_delete_store_wf(s2, w, slot);
    lemma_chain_is(s2, head, invalid_cl, np);
    assert forall|k: int| 0 <= k < np.len() implies {
        &&& (#[trigger] np[k] as int) < d.cls.len()
        &&& d.cls[np[k] as int].next == s2.cls[np[k] as int].next
        &&& d.stores[np[k] as int] is Some
    } by {}
    lemma_chain_frame(s2, d, head, invalid_cl, np);
    lemma_chain_is(d, head, invalid_cl, np);
    // the line written: only the written slot ever matched, and it is now unused
    assert(s2.cls[w as int] == set_entry_view(s.cls[w as int], slot, bucket_key, value_prefix));
    assert(s2.stores[w as int].unwrap().k_rems == field_set(s.stores[w as int].unwrap().k_rems, slot, Some(kr)));
    lemma_deleted_line_finds_nothing(s, s2, w, slot, bucket_key, kr, value_prefix);
    assert forall|j: int| 0 <= j < np.len() implies #[trigger] line_find(d, np[j], bucket_key, kr) is None by {
        if np[j] != w {
            let cl = np[j];
            assert(j < path.len() && np[j] == path[j]);
            assert(line_find(s2, path[j], bucket_key, kr) is None);
            assert(d.cls[cl as int] == s2.cls[cl as int]);
            assert(d.stores[cl as int] == s2.stores[cl as int]);
        }
    }
    lemma_find_from_all_none(d, np, bucket_key, kr, 0);
}

/// Where a read along a path finds an entry: the position of its line, every line before it
/// finding nothing.
proof fn lemma_find_from_position(s: ClStoreView, path: Seq<u32>, bucket_key: u16, key_reminder: Seq<u8>, k: int)
    requires
        0 <= k,
        find_from(s, path, bucket_key, key_reminder, k) is Some,
    ensures
        exists|p: int|
            k <= p < path.len() && #[trigger] path[p] == find_from(s, path, bucket_key, key_reminder, k).unwrap().0
                && line_find(s, path[p], bucket_key, key_reminder) == Some(
                find_from(s, path, bucket_key, key_reminder, k).unwrap().1,
            ) && forall|i: int| k <= i < p ==> #[trigger] line_find(s, path[i], bucket_key, key_reminder) is None,
    decreases path.len() - k,
{
    if line_find(s, path[k], bucket_key, key_reminder) is None {
        lemma_find_from_position(s, path, bucket_key, key_reminder, k + 1);
        let p = choose|p: int|
            k + 1 <= p < path.len() && #[trigger] path[p] == find_from(s, path, bucket_key, key_reminder, k + 1).unwrap().0
                && line_find(s, path[p], bucket_key, key_reminder) == Some(
                find_from(s, path, bucket_key, key_reminder, k + 1).unwrap().1,
            ) && forall|i: int| k + 1 <= i < p ==> #[trigger] line_find(s, path[i], bucket_key, key_reminder) is None;
        assert(k <= p < path.len() && path[p] == find_from(s, path, bucket_key, key_reminder, k).unwrap().0);
    } else {
        assert(path[k] == find_from(s, path, bucket_key, key_reminder, k).unwrap().0);
    }
}

/// The slot `first_candidate` returns is the first matching candidate from `from` on.
proof fn lemma_first_candidate_before(p: PerClView, key_reminder: Seq<u8>, condids: u8, from: int)
    requires
        0 <= from <= 8,
    ensures
        first_candidate(p, key_reminder, condids, from) matches Some(t) ==> forall|j: int|
            from <= j < t ==> !(#[trigger] bit(condids, j) && field_or_empty(p.k_rems, j) == key_reminder),
    decreases 8 - from,
{
    if from < 8 {
        lemma_first_candidate_before(p, key_reminder, condids, from + 1);
    }
}

/// After deleting the entry at line `cl`, slot `slot`, a slot of any line is a read candidate
/// for a key only if it was one before, and every slot other than the deleted one keeps its
/// candidacy and its bytes.
proof fn lemma_delete_candidates(
    s: ClStoreView,
    cl: u32,
    slot: int,
    line: u32,
    bucket_key: u16,
    key_reminder: Seq<u8>,
)
    requires
        s.wf(),
        (cl as int) < s.cls.len(),
        (line as int) < s.cls.len(),
        s.stores[cl as int] is Some,
        s.stores[line as int] is Some,
        0 <= slot < 7,
    ensures
        ({
            let d = delete_store(s, cl, slot);
            let v = s.cls[line as int];
            let dv = d.cls[line as int];
            let p = s.stores[line as int].unwrap();
            let pd = d.stores[line as int].unwrap();
            &&& forall|j: int|
                0 <= j < 8 && (bit(read_condid(dv, bucket_key), j) && field_or_empty(pd.k_rems, j) == key_reminder)
                    ==> #[trigger] bit(read_condid(v, bucket_key), j) && field_or_empty(p.k_rems, j) == key_reminder
            &&& forall|j: int|
                0 <= j < 8 && (line != cl || j != slot) ==> (#[trigger] bit(read_condid(dv, bucket_key), j)
                    == bit(read_condid(v, bucket_key), j) && field_or_empty(pd.k_rems, j) == field_or_empty(
                    p.k_rems,
                    j,
                ))
            &&& forall|j: int|
                0 <= j < 8 && (line != cl || j != slot) ==> #[trigger] field_get(pd.ids, j) == field_get(p.ids, j)
                    && field_get(pd.k_rems, j) == field_get(p.k_rems, j) && field_get(pd.v_s, j) == field_get(p.v_s, j)
            &&& dv.values == v.values
        }),
{
    let d = delete_store(s, cl, slot);
    let v = s.cls[line as int];
    let dv = d.cls[line as int];
    assert(v.wf());
    assert(s.cls[cl as int].wf());
    law_clear_entry_only_marks_unused(s.cls[cl as int], slot);
    lemma_clear_entry_view(s.cls[cl as int], slot);
    assert(dv.wf());
    lemma_read_condid(v, bucket_key);
    lemma_read_condid(dv, bucket_key);
}

/// Deleting the entry a read of one key finds leaves every other entry as it was: a read of a
/// key that found a different line or slot finds the same line and slot afterwards, with the
/// same inline value and the same bytes in the line's byte store.
pub proof fn law_delete_keeps_other_entries(
    s: ClStoreView,
    head: u32,
    invalid_cl: u32,
    bucket_key: u16,
    key_reminder: Seq<u8>,
    other_key: u16,
    other_reminder: Seq<u8>,
)
    requires
        s.wf(),
        has_chain(s, head, invalid_cl),
        find_from(s, chain(s, head, invalid_cl), bucket_key, key_reminder, 0) is Some,
        find_from(s, chain(s, head, invalid_cl), other_key, other_reminder, 0) is Some,
        find_from(s, chain(s, head, invalid_cl), other_key, other_reminder, 0) != find_from(
            s,
            chain(s, head, invalid_cl),
            bucket_key,
            key_reminder,
            0,
        ),
    ensures
        ({
            let path = chain(s, head, invalid_cl);
            let (cl, slot) = find_from(s, path, bucket_key, key_reminder, 0).unwrap();
            let (cl2, slot2) = find_from(s, path, other_key, other_reminder, 0).unwrap();
            let d = delete_store(s, cl, slot);
            let p = s.stores[cl2 as int].unwrap();
            let pd = d.stores[cl2 as int].unwrap();
            &&& has_chain(d, head, invalid_cl)
            &&& chain(d, head, invalid_cl) == path
            &&& find_from(d, path, other_key, other_reminder, 0) == Some((cl2, slot2))
            &&& d.cls[cl2 as int].values[slot2] == s.cls[cl2 as int].values[slot2]
            &&& field_get(pd.ids, slot2) == field_get(p.ids, slot2)
            &&& field_get(pd.k_rems, slot2) == field_get(p.k_rems, slot2)
            &&& field_get(pd.v_s, slot2) == field_get(p.v_s, slot2)
        }),
{
    let path = chain(s, head, invalid_cl);
    lemma_chain_is(s, head, invalid_cl, path);
    let (cl, slot) = find_from(s, path, bucket_key, key_reminder, 0).unwrap();
    let (cl2, slot2) = find_from(s, path, other_key, other_reminder, 0).unwrap();
    crate::cache::bucket::lemma_find_from_found(s, path, bucket_key, key_reminder, 0);
    lemma_find_from_position(s, path, other_key, other_reminder, 0);
    let k2 = choose|p: int|
        0 <= p < path.len() && #[trigger] path[p] == cl2 && line_find(s, path[p], other_key, other_reminder) == Some(slot2)
            && forall|i: int| 0 <= i < p ==> #[trigger] line_find(s, path[i], other_key, other_reminder) is None;
    let v = s.cls[cl as int];
    assert(v.wf());
    lemma_read_condid(v, bucket_key);
    lemma_first_candidate(s.stores[cl as int].unwrap(), key_reminder, read_condid(v, bucket_key), 0);
    let d = delete_store(s, cl, slot);
    lemma_delete_store_wf(s, cl, slot);
    assert forall|k: int| 0 <= k < path.len() implies {
        &&& (#[trigger] path[k] as int) < d.cls.len()
        &&& d.cls[path[k] as int].next == s.cls[path[k] as int].next
        &&& d.stores[path[k] as int] is Some
    } by {
        law_clear_entry_only_marks_unused(s.cls[cl as int], slot);
    }
    lemma_chain_frame(s, d, head, invalid_cl, path);
    lemma_chain_is(d, head, invalid_cl, path);
    // the lines before the other entry's line still find nothing
    assert forall|i: int| 0 <= i < k2 implies #[trigger] line_find(d, path[i], other_key, other_reminder) is None by {
        let line = path[i];
        lemma_delete_candidates(s, cl, slot, line, other_key, other_reminder);
        let ps = s.stores[line as int].unwrap();
        let pd = d.stores[line as int].unwrap();
        let cs = read_condid(s.cls[line as int], other_key);
        let cd = read_condid(d.cls[line as int], other_key);
        assert(line_find(s, path[i], other_key, other_reminder) is None);
        lemma_first_candidate(ps, other_reminder, cs, 0);
        assert forall|j: int| 0 <= j < 8 implies (bit(cd, j) && field_or_empty(pd.k_rems, j) == other_reminder) == (
            bit(cs, j) && field_or_empty(ps.k_rems, j) == other_reminder) by {
            if bit(cd, j) && field_or_empty(pd.k_rems, j) == other_reminder {
                assert(bit(cs, j) && field_or_empty(ps.k_rems, j) == other_reminder);
            }
        }
        lemma_first_candidate_same(pd, cd, ps, cs, other_reminder, 0);
    }
    // the other entry's line still finds it first
    lemma_delete_candidates(s, cl, slot, cl2, other_key, other_reminder);
    let ps = s.stores[cl2 as int].unwrap();
    let pd = d.stores[cl2 as int].unwrap();
    let cs = read_condid(s.cls[cl2 as int], other_key);
    let cd = read_condid(d.cls[cl2 as int], other_key);
    lemma_first_candidate(ps, other_reminder, cs, 0);
    lemma_first_candidate_before(ps, other_reminder, cs, 0);
    assert(cl2 != cl || slot2 != slot);
    assert forall|j: int| 0 <= j < slot2 implies !(bit(cd, j) && field_or_empty(pd.k_rems, j) == other_reminder) by {
        if bit(cd, j) && field_or_empty(pd.k_rems, j) == other_reminder {
            assert(bit(cs, j) && field_or_empty(ps.k_rems, j) == other_reminder);
        }
    }
    crate::cache::bucket::lemma_first_candidate_at(pd, other_reminder, cd, 0, slot2);
    lemma_find_from_at(d, path, other_key, other_reminder, 0, k2);
}

/// The bytes a put leaves as the stored key reminder of the slot it writes.
pub open spec fn stored_reminder(key_reminder: Option<Seq<u8>>) -> Seq<u8> {
    match key_reminder {
        Some(r) => r,
        None => Seq::empty(),
    }
}

/// A put that may link `new_cl`, when it does, links a line that exists with a byte store, ends
/// its own chain and is not in the bucket's chain.
pub open spec fn put_link_ok(
    s: ClStoreView,
    path: Seq<u32>,
    bucket_key: u16,
    key_reminder: Option<Seq<u8>>,
    new_cl: Option<u32>,
    invalid_cl: u32,
) -> bool {
    put_target(
        put_scan(s, path, bucket_key, stored_reminder(key_reminder), invalid_cl, path.len() as int),
        new_cl,
        invalid_cl,
    ).2 ==> {
        let n = new_cl.unwrap();
        &&& n != invalid_cl
        &&& (n as int) < s.cls.len()
        &&& s.stores[n as int] is Some
        &&& s.cls[n as int].next == invalid_cl
        &&& !path.contains(n)
    }
}

/// Where a successful put writes: a free slot of a line of the chain, or slot 0 of the linked
/// line after the chain's last line.
proof fn lemma_put_written_slot(
    s: ClStoreView,
    head: u32,
    path: Seq<u32>,
    id: Seq<u8>,
    value: Option<Seq<u8>>,
    bucket_key: u16,
    key_reminder: Option<Seq<u8>>,
    value_prefix: Seq<u8>,
    new_cl: Option<u32>,
    invalid_cl: u32,
)
    requires
        s.wf(),
        is_chain(s, head, invalid_cl, path),
        put_can_write(s, path, bucket_key, stored_reminder(key_reminder), new_cl, invalid_cl),
        put_link_ok(s, path, bucket_key, key_reminder, new_cl, invalid_cl),
        put_outcome(s, path, id, value, bucket_key, key_reminder, value_prefix, new_cl, invalid_cl).0 is Success,
    ensures
        ({
            let sc = put_scan(s, path, bucket_key, stored_reminder(key_reminder), invalid_cl, path.len() as int);
            let (w, m, link) = put_target(sc, new_cl, invalid_cl);
            let slot = lowest_bit(m);
            &&& !sc.exists
            &&& w != invalid_cl
            &&& 0 <= slot < 7
            &&& (w as int) < s.cls.len()
            &&& s.stores[w as int] is Some
            &&& !link ==> path.contains(w) && !bit(s.cls[w as int].valid, slot)
            &&& link ==> w == new_cl.unwrap() && slot == 0 && path.len() > 0 && sc.tail == path.last()
                && !path.contains(w) && s.cls[w as int].next == invalid_cl
        }),
{
    let rem = stored_reminder(key_reminder);
    let sc = put_scan(s, path, bucket_key, rem, invalid_cl, path.len() as int);
    let (w, m, link) = put_target(sc, new_cl, invalid_cl);
    lemma_put_scan(s, head, path, bucket_key, rem, invalid_cl, path.len() as int);
    if link {
        assert(1u8 & 1u8 != 0u8) by (bit_vector);
        lemma_bit_low(1u8);
        lemma_lowest_bit_from(1u8, 0);
    } else {
        let k = choose|k: int| 0 <= k < path.len() && path[k] == sc.to_write;
        let v = s.cls[w as int];
        assert(v.wf());
        lemma_write_free(v);
        lemma_lowest_bit_from(m, 0);
        assert(path.contains(w));
    }
}

/// A put leaves every entry it did not write as it was: a read of a key that found an entry
/// before finds the same line and slot after the put, with the same inline value and the same
/// bytes in the line's byte store, unless the put wrote that very key (the same in-bucket key
/// and the same stored key reminder).
pub proof fn law_put_keeps_other_entries(
    s: ClStoreView,
    head: u32,
    invalid_cl: u32,
    id: Seq<u8>,
    value: Option<Seq<u8>>,
    bucket_key: u16,
    key_reminder: Option<Seq<u8>>,
    value_prefix: Seq<u8>,
    new_cl: Option<u32>,
    other_key: u16,
    other_reminder: Seq<u8>,
)
    requires
        s.wf(),
        has_chain(s, head, invalid_cl),
        put_can_write(s, chain(s, head, invalid_cl), bucket_key, stored_reminder(key_reminder), new_cl, invalid_cl),
        put_link_ok(s, chain(s, head, invalid_cl), bucket_key, key_reminder, new_cl, invalid_cl),
        put_outcome(
            s,
            chain(s, head, invalid_cl),
            id,
            value,
            bucket_key,
            key_reminder,
            value_prefix,
            new_cl,
            invalid_cl,
        ).0 is Success,
        find_from(s, chain(s, head, invalid_cl), other_key, other_reminder, 0) is Some,
        !(other_key == bucket_key && other_reminder == stored_reminder(key_reminder)),
    ensures
        ({
            let path = chain(s, head, invalid_cl);
            let s2 = put_outcome(s, path, id, value, bucket_key, key_reminder, value_prefix, new_cl, invalid_cl).1;
            let (cl2, slot2) = find_from(s, path, other_key, other_reminder, 0).unwrap();
            let p = s.stores[cl2 as int].unwrap();
            let p2 = s2.stores[cl2 as int].unwrap();
            &&& has_chain(s2, head, invalid_cl)
            &&& find_from(s2, chain(s2, head, invalid_cl), other_key, other_reminder, 0) == Some((cl2, slot2))
            &&& s2.cls[cl2 as int].values[slot2] == s.cls[cl2 as int].values[slot2]
            &&& field_get(p2.ids, slot2) == field_get(p.ids, slot2)
            &&& field_get(p2.k_rems, slot2) == field_get(p.k_rems, slot2)
            &&& field_get(p2.v_s, slot2) == field_get(p.v_s, slot2)
        }),
{
    let path = chain(s, head, invalid_cl);
    lemma_chain_is(s, head, invalid_cl, path);
    lemma_chain_distinct(s, head, invalid_cl, path);
    let rem = stored_reminder(key_reminder);
    let sc = put_scan(s, path, bucket_key, rem, invalid_cl, path.len() as int);
    let (w, m, link) = put_target(sc, new_cl, invalid_cl);
    let slot = lowest_bit(m);
    lemma_put_written_slot(s, head, path, id, value, bucket_key, key_reminder, value_prefix, new_cl, invalid_cl);
    let s1 = put_outcome_first_write(s, w, slot, bucket_key, id, value, key_reminder, value_prefix);
    let s2 = put_outcome(s, path, id, value, bucket_key, key_reminder, value_prefix, new_cl, invalid_cl).1;
    let tail = sc.tail;
    let (cl2, slot2) = find_from(s, path, other_key, other_reminder, 0).unwrap();
    lemma_find_from_position(s, path, other_key, other_reminder, 0);
    let k2 = choose|q: int|
        0 <= q < path.len() && #[trigger] path[q] == cl2 && line_find(s, path[q], other_key, other_reminder) == Some(slot2)
            && forall|i: int| 0 <= i < q ==> #[trigger] line_find(s, path[i], other_key, other_reminder) is None;
    // the written line
    let v = s.cls[w as int];
    assert(v.wf());
    law_set_entry_writes_only_its_slot(v, slot, bucket_key, value_prefix);
    lemma_read_condid(v, other_key);
    let v1 = s1.cls[w as int];
    assert(v1 == set_entry_view(v, slot, bucket_key, value_prefix));
    lemma_read_condid(v1, other_key);
    let pw = s.stores[w as int].unwrap();
    let pw1 = s1.stores[w as int].unwrap();
    assert(pw1.k_rems == field_set(pw.k_rems, slot, key_reminder));
    // the chain after the put
    let np = if link { path.push(w) } else { path };
    if link {
        assert(w != tail);
        assert(is_chain(s2, head, invalid_cl, np)) by {
            assert forall|k: int| 0 <= k < np.len() - 1 implies s2.cls[#[trigger] np[k] as int].next == np[k + 1] by {
                if k < path.len() - 1 {
                    assert(np[k] != tail);
                    assert(s.cls[path[k] as int].next == path[k + 1]);
                }
            }
        }
    } else {
        assert forall|k: int| 0 <= k < path.len() implies {
            &&& (#[trigger] path[k] as int) < s2.cls.len()
            &&& s2.cls[path[k] as int].next == s.cls[path[k] as int].next
            &&& s2.stores[path[k] as int] is Some
        } by {}
        lemma_chain_frame(s, s2, head, invalid_cl, path);
    }
    lemma_chain_is(s2, head, invalid_cl, np);
    // every line up to the other entry's line reads as before
    assert forall|i: int| 0 <= i <= k2 implies #[trigger] line_find(s2, path[i], other_key, other_reminder) == line_find(
        s,
        path[i],
        other_key,
        other_reminder,
    ) by {
        let line = path[i];
        if line == w {
            assert(!link);
            let c = read_condid(v, other_key);
            let c1 = read_condid(v1, other_key);
            assert(s2.cls[w as int] == v1 && s2.stores[w as int] == s1.stores[w as int]);
            assert forall|j: int| 0 <= j < 8 implies (bit(c1, j) && field_or_empty(pw1.k_rems, j) == other_reminder)
                == (bit(c, j) && field_or_empty(pw.k_rems, j) == other_reminder) by {
                if j != slot {
                    if j >= 0 {
                        lemma_field_other_slot(pw.k_rems, slot, key_reminder, j);
                    }
                } else {
                    assert(!bit(v.valid, slot));
                    assert(field_or_empty(pw1.k_rems, slot) == rem);
                }
            }
            lemma_first_candidate_same(pw1, c1, pw, c, other_reminder, 0);
        } else {
            assert(s2.cls[line as int].valid == s.cls[line as int].valid);
            assert(s2.cls[line as int].keys == s.cls[line as int].keys);
            assert(read_condid(s2.cls[line as int], other_key) == read_condid(s.cls[line as int], other_key));
            assert(s2.stores[line as int] == s.stores[line as int]);
        }
    }
    assert forall|i: int| 0 <= i < k2 implies #[trigger] line_find(s2, np[i], other_key, other_reminder) is None by {
        assert(np[i] == path[i]);
        assert(line_find(s2, path[i], other_key, other_reminder) == line_find(s, path[i], other_key, other_reminder));
    }
    assert(np[k2] == path[k2]);
    assert(line_find(s2, path[k2], other_key, other_reminder) == line_find(s, path[k2], other_key, other_reminder));
    lemma_find_from_at(s2, np, other_key, other_reminder, 0, k2);
    // the other entry's slot keeps its value and bytes
    if cl2 == w {
        let cs = read_condid(v, other_key);
        lemma_first_candidate(pw, other_reminder, cs, 0);
        assert(bit(cs, slot2));
        assert(slot2 != slot);
        law_get_after_set(pw.ids, slot, Some(id), slot2);
        law_get_after_set(pw.k_rems, slot, key_reminder, slot2);
        law_get_after_set(pw.v_s, slot, value, slot2);
    }
}

} // verus!
