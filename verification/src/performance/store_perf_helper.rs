//! What the synthetic load computes: the key of each vector and the key range that a wanted
//! cache hit ratio allows.
use vstd::prelude::*;

use crate::cache::cache::{upsert_all, Cache};
use crate::cache::cl::TCacheLine;
use crate::cache::cl_store::opt_slice_view;

verus! {

/// The eight bytes of `id`, most significant first.
pub open spec fn id_be_bytes(id: u64) -> Seq<u8> {
    Seq::new(8, |i: int| ((id >> ((8 * (7 - i)) as u64)) & 0xffu64) as u8)
}

/// The key of vector `id`: its id in big-endian bytes, followed by the suffix, if any.
pub open spec fn load_key_spec(op_key_suffix: Option<Seq<u8>>, id: u64) -> Seq<u8> {
    match op_key_suffix {
        Some(suf) => id_be_bytes(id) + suf,
        None => id_be_bytes(id),
    }
}

/// Builds the key of vector `id`: its id in big-endian bytes, followed by the suffix bytes.
pub fn load_key(op_key_suffix: Option<&[u8]>, id: u64) -> (key: Vec<u8>)
    ensures
        key@ == load_key_spec(
            match op_key_suffix {
                Some(s) => Some(s@),
                None => None,
            },
            id,
        ),
{
    let mut key: Vec<u8> = Vec::new();
    let mut i: u64 = 0;
    while i < 8
        invariant
            i <= 8,
            key@.len() == i,
            forall|j: int| 0 <= j < i ==> key@[j] == id_be_bytes(id)[j],
        decreases 8 - i,
    {
        key.push(((id >> (8 * (7 - i))) & 0xff) as u8);
        i += 1;
    }
    assert(key@ =~= id_be_bytes(id));
    match op_key_suffix {
        Some(suf) => {
            let ghost start = key@;
            let mut k: usize = 0;
            while k < suf.len()
                invariant
                    k <= suf@.len(),
                    start == id_be_bytes(id),
                    key@ == start + suf@.subrange(0, k as int),
                decreases suf@.len() - k,
            {
                key.push(suf[k]);
                k += 1;
                assert(key@ =~= start + suf@.subrange(0, k as int));
            }
            assert(suf@.subrange(0, suf@.len() as int) =~= suf@);
        },
        None => {},
    }
    key
}

/// The number of vectors of `vec_len_u8` bytes that fill nine tenths of a cache of
/// `cache_size_mb` mebibytes.
pub open spec fn vecs_in_cache(cache_size_mb: u32, vec_len_u8: usize) -> int {
    (9 * cache_size_mb * 1024 * 1024) / (10 * vec_len_u8)
}

/// The largest vector id a load should use so that a share `cache_hit` percent of its reads
/// hit the cache: all the vectors when `cache_hit` is zero or the share allows more.
pub open spec fn range_for_cache_hit_spec(
    cache_size_mb: u32,
    vec_len_u8: usize,
    expected_num_vectors: usize,
    cache_hit: usize,
) -> int {
    if cache_hit != 0 {
        let wanted = vecs_in_cache(cache_size_mb, vec_len_u8) * 100 / (cache_hit as int);
        if wanted < expected_num_vectors {
            wanted
        } else {
            expected_num_vectors as int
        }
    } else {
        expected_num_vectors as int
    }
}

/// Computes the range of vector ids for an expected cache hit ratio, truncated to `u32`.
pub fn range_for_cache_hit(
    cache_size_mb: u32,
    vec_len_u8: usize,
    expected_num_vectors: usize,
    cache_hit: usize,
) -> (r: u32)
    requires
        vec_len_u8 > 0,
        10 * vec_len_u8 <= usize::MAX,
        9 * cache_size_mb * 1024 * 1024 <= usize::MAX,
        cache_hit != 0 ==> vecs_in_cache(cache_size_mb, vec_len_u8) * 100 <= usize::MAX,
    ensures
        r == range_for_cache_hit_spec(cache_size_mb, vec_len_u8, expected_num_vectors, cache_hit) as u32,
{
    let in_cache: usize = 9 * (cache_size_mb as usize) * 1024 * 1024 / (10 * vec_len_u8);
    let range: usize = if cache_hit != 0 {
        let wanted: usize = (in_cache * 100) / cache_hit;
        if wanted < expected_num_vectors {
            wanted
        } else {
            expected_num_vectors
        }
    } else {
        expected_num_vectors
    };
    range as u32
}

/// The next batch of an append that has reached `curr` and stops at `target`: it starts at
/// `curr` and holds `batch` ids, or the ids left when fewer are left.
pub fn next_batch(curr: u64, target: u64, batch: u64) -> (r: (u64, u64))
    requires
        batch > 0,
        curr < target,
    ensures
        r.0 == curr,
        r.1 == curr + (if batch < target - curr { batch as int } else { target - curr }),
        curr < r.1 <= target,
{
    let left = target - curr;
    let n = if batch < left { batch } else { left };
    (curr, curr + n)
}

/// The ids of batch `batch_id` of `batch_size` ids: `batch_id * batch_size` up to, not
/// including, `(batch_id + 1) * batch_size`.
pub fn batch_range(batch_id: u64, batch_size: u64) -> (r: (u64, u64))
    requires
        batch_id < u64::MAX,
        (batch_id + 1) * batch_size <= u64::MAX,
    ensures
        r == ((batch_id * batch_size) as u64, ((batch_id + 1) * batch_size) as u64),
{
    proof {
        assert(batch_id * batch_size <= (batch_id + 1) * batch_size) by (nonlinear_arith);
    }
    (batch_id * batch_size, (batch_id + 1) * batch_size)
}

/// The percentage of `total` that `done` is, rounded down and truncated to `u32`.
pub fn progress(done: u64, total: u64) -> (p: u32)
    requires
        total > 0,
        done * 100 <= u64::MAX,
    ensures
        p == ((done * 100) as u64 / total) as u32,
{
    (done * 100 / total) as u32
}

/// Whether a write load reports after reaching `curr` percent, having last reported at
/// `prev` percent: one more percent done, or the last report was at a hundred.
pub fn should_report(curr: u32, prev: u32) -> (b: bool)
    ensures
        b == (curr >= prev + 1 || prev == 100),
{
    curr as u64 >= prev as u64 + 1 || prev == 100
}

/// Whether a read load reports after reaching `curr` percent, having last reported at `prev`
/// percent: one more percent done, or a hundred reached.
pub fn should_report_read(curr: u32, prev: u32) -> (b: bool)
    ensures
        b == (curr >= prev + 1 || curr == 100),
{
    curr as u64 >= prev as u64 + 1 || curr == 100
}

/// The bytes of a read agree with vector `id` when they start with its big-endian bytes, as
/// far as both go.
pub open spec fn read_agrees(bytes: Seq<u8>, id: u64) -> bool {
    forall|j: int| 0 <= j < bytes.len() && j < 8 ==> bytes[j] == #[trigger] id_be_bytes(id)[j]
}

/// A read that found nothing, or found no bytes.
pub open spec fn read_missing(r: Option<Vec<u8>>) -> bool {
    match r {
        Some(v) => v@.len() == 0,
        None => true,
    }
}

/// A read that found bytes that do not agree with `id`.
pub open spec fn read_wrong(r: Option<Vec<u8>>, id: u64) -> bool {
    match r {
        Some(v) => v@.len() > 0 && !read_agrees(v@, id),
        None => false,
    }
}

/// The number of missing reads among the first `n`.
pub open spec fn missing_count(results: Seq<Option<Vec<u8>>>, n: int) -> nat
    decreases n,
{
    if n <= 0 {
        0
    } else {
        missing_count(results, n - 1) + if read_missing(results[n - 1]) { 1nat } else { 0nat }
    }
}

proof fn lemma_missing_count_le(results: Seq<Option<Vec<u8>>>, n: int)
    requires
        0 <= n,
    ensures
        missing_count(results, n) <= n,
    decreases n,
{
    if n > 0 {
        lemma_missing_count_le(results, n - 1);
    }
}

/// Checks the reads of a batch against the ids they were written with: the number of reads
/// that found nothing or no bytes, or the first read whose bytes do not start with its id's
/// big-endian bytes (as far as the bytes go).
pub fn count_bad_reads(results: &[Option<Vec<u8>>], ids: &[u64]) -> (r: Result<u32, usize>)
    requires
        results@.len() <= ids@.len(),
        results@.len() <= u32::MAX,
    ensures
        match r {
            Ok(n) => {
                &&& forall|k: int| 0 <= k < results@.len() ==> !read_wrong(#[trigger] results@[k], ids@[k])
                &&& n == missing_count(results@, results@.len() as int)
            },
            Err(i) => {
                &&& i < results@.len()
                &&& read_wrong(results@[i as int], ids@[i as int])
                &&& forall|k: int| 0 <= k < i ==> !read_wrong(#[trigger] results@[k], ids@[k])
            },
        },
{
    let mut bad: u32 = 0;
    let mut i: usize = 0;
    while i < results.len()
        invariant
            i <= results@.len(),
            results@.len() <= ids@.len(),
            results@.len() <= u32::MAX,
            bad == missing_count(results@, i as int),
            forall|k: int| 0 <= k < i ==> !read_wrong(#[trigger] results@[k], ids@[k]),
        decreases results@.len() - i,
    {
        proof {
            lemma_missing_count_le(results@, i as int);
        }
        match &results[i] {
            Some(bytes) => {
                if bytes.len() == 0 {
                    bad = bad + 1;
                } else {
                    let want = load_key(None, ids[i]);
                    let mut j: usize = 0;
                    while j < bytes.len() && j < 8
                        invariant
                            i < results@.len(),
                            results@.len() <= ids@.len(),
                            results@[i as int] matches Some(v) && v@ == bytes@ && v@.len() > 0,
                            forall|k: int| 0 <= k < i ==> !read_wrong(#[trigger] results@[k], ids@[k]),
                            j <= bytes@.len(),
                            j <= 8,
                            want@ == id_be_bytes(ids@[i as int]),
                            forall|q: int| 0 <= q < j ==> bytes@[q] == want@[q],
                        decreases 8 - j,
                    {
                        if bytes[j] != want[j] {
                            assert(!read_agrees(bytes@, ids@[i as int]));
                            return Err(i);
                        }
                        j += 1;
                    }
                    assert(read_agrees(bytes@, ids@[i as int]));
                }
            },
            None => {
                bad = bad + 1;
            },
        }
        i += 1;
    }
    Ok(bad)
}

/// The value written for vector `id`: the load's bytes `v` with the id's big-endian bytes over
/// its first eight.
pub open spec fn with_id_prefix(v: Seq<u8>, id: u64) -> Seq<u8> {
    Seq::new(v.len(), |j: int| if j < 8 { id_be_bytes(id)[j] } else { v[j] })
}

/// The (key, value) pairs a batch of `ids` writes, in order.
pub open spec fn load_pairs(op_key_suffix: Option<Seq<u8>>, ids: Seq<u64>, v: Seq<u8>) -> Seq<(Seq<u8>, Seq<u8>)> {
    Seq::new(ids.len(), |i: int| (load_key_spec(op_key_suffix, ids[i]), with_id_prefix(v, ids[i])))
}

/// Writes a batch of vectors to the cache, in order: for each id, the id's big-endian bytes go
/// over the first eight bytes of `vector`, which is then upserted under the id's key. Stops at
/// the first upsert that fails and returns its position in `ids`.
pub fn set_ids_data<C: TCacheLine>(
    cache: &mut Cache<C>,
    op_key_suffix: Option<&[u8]>,
    ids: &[u64],
    vector: &mut Vec<u8>,
) -> (r: Result<(), usize>)
    requires
        old(cache).wf(),
        old(vector)@.len() >= 8,
    ensures
        final(cache).wf(),
        final(vector)@.len() == old(vector)@.len(),
        ({
            let pairs = load_pairs(opt_slice_view(op_key_suffix), ids@, old(vector)@);
            match r {
                Ok(()) => upsert_all(old(cache)@, pairs, C::INVALID_CL) == (true, final(cache)@),
                Err(k) => {
                    &&& k < ids@.len()
                    &&& upsert_all(old(cache)@, pairs.take(k as int), C::INVALID_CL).0
                    &&& upsert_all(old(cache)@, pairs.take(k + 1), C::INVALID_CL) == (false, final(cache)@)
                },
            }
        }),
{
    let ghost c0 = cache@;
    let ghost v0 = vector@;
    let ghost pairs = load_pairs(opt_slice_view(op_key_suffix), ids@, v0);
    let mut i: usize = 0;
    proof {
        assert(pairs.take(0) =~= Seq::<(Seq<u8>, Seq<u8>)>::empty());
    }
    while i < ids.len()
        invariant
            i <= ids@.len(),
            c0 == old(cache)@,
            v0 == old(vector)@,
            pairs == load_pairs(opt_slice_view(op_key_suffix), ids@, v0),
            cache.wf(),
            vector@.len() == v0.len(),
            v0.len() >= 8,
            forall|j: int| 8 <= j < v0.len() ==> vector@[j] == v0[j],
            upsert_all(c0, pairs.take(i as int), C::INVALID_CL) == (true, cache@),
        decreases ids@.len() - i,
    {
        let id = ids[i];
        let mut j: usize = 0;
        while j < 8
            invariant
                j <= 8,
                i < ids@.len(),
                id == ids@[i as int],
                c0 == old(cache)@,
                v0 == old(vector)@,
                pairs == load_pairs(opt_slice_view(op_key_suffix), ids@, v0),
                cache.wf(),
                upsert_all(c0, pairs.take(i as int), C::INVALID_CL) == (true, cache@),
                vector@.len() == v0.len(),
                v0.len() >= 8,
                forall|q: int| 8 <= q < v0.len() ==> vector@[q] == v0[q],
                forall|q: int| 0 <= q < j ==> vector@[q] == id_be_bytes(id)[q],
            decreases 8 - j,
        {
            vector.set(j, ((id >> (8 * (7 - j as u64))) & 0xff) as u8);
            j += 1;
        }
        proof {
            assert(vector@ =~= with_id_prefix(v0, id));
        }
        let key = load_key(op_key_suffix, id);
        let ghost before = cache@;
        let ok = cache.upsert(&key, vector.as_slice());
        proof {
            assert(pairs.take(i + 1).drop_last() =~= pairs.take(i as int));
            assert(pairs.take(i + 1).last() == pairs[i as int]);
            assert(key@ == pairs[i as int].0);
            assert(vector@ == pairs[i as int].1);
        }
        if !ok {
            return Err(i);
        }
        i += 1;
    }
    proof {
        assert(pairs.take(ids@.len() as int) =~= pairs);
    }
    Ok(())
}

/// The ids an append writes from `curr` up to `target`, batch after batch of `batch` ids (the
/// last batch holding what is left), in the order written.
pub open spec fn append_ids(curr: int, target: int, batch: int) -> Seq<int>
    decreases target - curr,
{
    if curr >= target || batch <= 0 {
        Seq::empty()
    } else {
        let hi = curr + if batch < target - curr { batch } else { target - curr };
        Seq::new((hi - curr) as nat, |i: int| curr + i) + append_ids(hi, target, batch)
    }
}

/// An append from `curr` to `target` writes every id from `curr` up to, not including,
/// `target` exactly once, in increasing order.
pub proof fn law_append_covers_range(curr: int, target: int, batch: int)
    requires
        batch > 0,
        curr <= target,
    ensures
        append_ids(curr, target, batch) == Seq::new((target - curr) as nat, |i: int| curr + i),
    decreases target - curr,
{
    if curr < target {
        let hi = curr + if batch < target - curr { batch } else { target - curr };
        law_append_covers_range(hi, target, batch);
        assert(append_ids(curr, target, batch) =~= Seq::new((target - curr) as nat, |i: int| curr + i));
    } else {
        assert(append_ids(curr, target, batch) =~= Seq::new((target - curr) as nat, |i: int| curr + i));
    }
}

/// Where a sequential append stands: the next id to write, the batches written, and the
/// percentage last reported.
#[derive(Clone, Copy, Debug)]
pub struct AppendState {
    pub curr: u64,
    pub op_num: u64,
    pub prev_perc: u32,
}

/// One step of a sequential append: the ids `lo` up to `hi` to write, the state after them,
/// the percentage done, and whether to report it.
#[derive(Clone, Copy, Debug)]
pub struct AppendStep {
    pub lo: u64,
    pub hi: u64,
    pub next: AppendState,
    pub perc: u32,
    pub report: bool,
}

/// The next step of an append that started at `start` and stops at `target`: the next batch
/// (the first batch of `append_ids` from the current id), one more batch counted, the
/// percentage of the range the batches count for, and whether that is reported.
pub fn append_step(st: AppendState, start: u64, target: u64, batch: u64) -> (r: AppendStep)
    requires
        batch > 0,
        start <= st.curr < target,
        st.op_num < u64::MAX,
        (st.op_num + 1) * batch * 100 <= u64::MAX,
    ensures
        r.lo == st.curr,
        r.hi == st.curr + (if batch < target - st.curr { batch as int } else { target - st.curr }),
        Seq::new((r.hi - r.lo) as nat, |i: int| r.lo + i) + append_ids(r.hi as int, target as int, batch as int)
            == append_ids(st.curr as int, target as int, batch as int),
        r.next.curr == r.hi,
        r.next.op_num == st.op_num + 1,
        r.perc == (((st.op_num + 1) * batch * 100) as u64 / ((target - start) as u64)) as u32,
        r.report == (r.perc >= st.prev_perc + 1 || st.prev_perc == 100),
        r.next.prev_perc == (if r.report { r.perc } else { st.prev_perc }),
{
    let (lo, hi) = next_batch(st.curr, target, batch);
    let op_num = st.op_num + 1;
    proof {
        assert(op_num * batch <= op_num * batch * 100) by (nonlinear_arith)
            requires
                op_num >= 0,
                batch >= 0,
        ;
    }
    let perc = progress(op_num * batch, target - start);
    let report = should_report(perc, st.prev_perc);
    let prev_perc = if report { perc } else { st.prev_perc };
    AppendStep { lo, hi, next: AppendState { curr: hi, op_num, prev_perc }, perc, report }
}

} // verus!
