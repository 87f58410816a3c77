//! Bit-level reasoning about the one-byte slot masks of a cache line.
//!
//! A slot mask is a `u8`; bit `i` stands for slot `i`.
use vstd::prelude::*;

verus! {

/// Bit `i` of `m` is set (`i` in `0..8`).
pub open spec fn bit(m: u8, i: int) -> bool {
    0 <= i < 8 && (m >> (i as u8)) & 1u8 == 1u8
}

/// The index of the lowest set bit of `m` at or above `from`, or `8` when there is none.
pub open spec fn lowest_bit_from(m: u8, from: int) -> int
    decreases 8 - from,
{
    if from >= 8 {
        8
    } else if bit(m, from) {
        from
    } else {
        lowest_bit_from(m, from + 1)
    }
}

/// The index of the lowest set bit of `m`, or `8` when `m == 0`.
pub open spec fn lowest_bit(m: u8) -> int {
    lowest_bit_from(m, 0)
}

proof fn bv_xor(a: u8, b: u8, i: u8)
    by (bit_vector)
    requires
        i < 8,
    ensures
        ((a ^ b) >> i) & 1u8 == 1u8 <==> (((a >> i) & 1u8 == 1u8) != ((b >> i) & 1u8 == 1u8)),
{
}

proof fn bv_and(a: u8, b: u8, i: u8)
    by (bit_vector)
    requires
        i < 8,
    ensures
        ((a & b) >> i) & 1u8 == 1u8 <==> (((a >> i) & 1u8 == 1u8) && ((b >> i) & 1u8 == 1u8)),
{
}

proof fn bv_or(a: u8, b: u8, i: u8)
    by (bit_vector)
    requires
        i < 8,
    ensures
        ((a | b) >> i) & 1u8 == 1u8 <==> (((a >> i) & 1u8 == 1u8) || ((b >> i) & 1u8 == 1u8)),
{
}

proof fn bv_single(o: u8, i: u8)
    by (bit_vector)
    requires
        i < 8,
        o < 8,
    ensures
        ((1u8 << o) >> i) & 1u8 == 1u8 <==> i == o,
{
}

proof fn bv_shr1(m: u8, i: u8)
    by (bit_vector)
    requires
        i < 7,
    ensures
        ((m >> 1u8) >> i) & 1u8 == 1u8 <==> (m >> (i + 1) as u8) & 1u8 == 1u8,
        ((m >> 1u8) >> 7u8) & 1u8 == 0u8,
{
}

proof fn bv_low(m: u8)
    by (bit_vector)
    ensures
        (m & 1u8 != 0u8) <==> (m >> 0u8) & 1u8 == 1u8,
{
}

proof fn bv_ext(a: u8, b: u8)
    by (bit_vector)
    requires
        ((a >> 0u8) & 1u8 == 1u8) == ((b >> 0u8) & 1u8 == 1u8),
        ((a >> 1u8) & 1u8 == 1u8) == ((b >> 1u8) & 1u8 == 1u8),
        ((a >> 2u8) & 1u8 == 1u8) == ((b >> 2u8) & 1u8 == 1u8),
        ((a >> 3u8) & 1u8 == 1u8) == ((b >> 3u8) & 1u8 == 1u8),
        ((a >> 4u8) & 1u8 == 1u8) == ((b >> 4u8) & 1u8 == 1u8),
        ((a >> 5u8) & 1u8 == 1u8) == ((b >> 5u8) & 1u8 == 1u8),
        ((a >> 6u8) & 1u8 == 1u8) == ((b >> 6u8) & 1u8 == 1u8),
        ((a >> 7u8) & 1u8 == 1u8) == ((b >> 7u8) & 1u8 == 1u8),
    ensures
        a == b,
{
}

proof fn bv_const(i: u8)
    by (bit_vector)
    requires
        i < 8,
    ensures
        !((0u8 >> i) & 1u8 == 1u8),
        ((0x7fu8 >> i) & 1u8 == 1u8) <==> i < 7,
        ((0xffu8 >> i) & 1u8 == 1u8),
{
}

/// Bits of an exclusive or.
pub proof fn lemma_bit_xor(a: u8, b: u8)
    ensures
        forall|i: int| #[trigger] bit(a ^ b, i) == (bit(a, i) != bit(b, i)),
{
    assert forall|i: int| #[trigger] bit(a ^ b, i) == (bit(a, i) != bit(b, i)) by {
        if 0 <= i < 8 {
            bv_xor(a, b, i as u8);
        }
    }
}

/// Bits of a conjunction.
pub proof fn lemma_bit_and(a: u8, b: u8)
    ensures
        forall|i: int| #[trigger] bit(a & b, i) == (bit(a, i) && bit(b, i)),
{
    assert forall|i: int| #[trigger] bit(a & b, i) == (bit(a, i) && bit(b, i)) by {
        if 0 <= i < 8 {
            bv_and(a, b, i as u8);
        }
    }
}

/// Bits of a disjunction.
pub proof fn lemma_bit_or(a: u8, b: u8)
    ensures
        forall|i: int| #[trigger] bit(a | b, i) == (bit(a, i) || bit(b, i)),
{
    assert forall|i: int| #[trigger] bit(a | b, i) == (bit(a, i) || bit(b, i)) by {
        if 0 <= i < 8 {
            bv_or(a, b, i as u8);
        }
    }
}

/// Bits of a one-bit mask.
pub proof fn lemma_bit_single(o: u8)
    requires
        o < 8,
    ensures
        forall|i: int| #[trigger] bit(1u8 << o, i) == (i == o),
{
    assert forall|i: int| #[trigger] bit(1u8 << o, i) == (i == o) by {
        if 0 <= i < 8 {
            bv_single(o, i as u8);
        }
    }
}

/// Bits of a mask shifted right by one.
pub proof fn lemma_bit_shr1(m: u8)
    ensures
        forall|i: int| 0 <= i ==> #[trigger] bit(m >> 1u8, i) == bit(m, i + 1),
{
    assert forall|i: int| 0 <= i implies #[trigger] bit(m >> 1u8, i) == bit(m, i + 1) by {
        if 0 <= i < 7 {
            let j = i as u8;
            bv_shr1(m, j);
            assert((j + 1) as u8 == (i + 1) as u8);
        } else if i == 7 {
            bv_shr1(m, 0);
        }
    }
}

/// The lowest bit is tested by `& 1`.
pub proof fn lemma_bit_low(m: u8)
    ensures
        (m & 1u8 != 0u8) == bit(m, 0),
{
    bv_low(m);
}

/// Two masks with the same bits are equal.
pub proof fn lemma_bit_ext(a: u8, b: u8)
    requires
        forall|i: int| 0 <= i < 8 ==> bit(a, i) == bit(b, i),
    ensures
        a == b,
{
    assert(bit(a, 0) == bit(b, 0));
    assert(bit(a, 1) == bit(b, 1));
    assert(bit(a, 2) == bit(b, 2));
    assert(bit(a, 3) == bit(b, 3));
    assert(bit(a, 4) == bit(b, 4));
    assert(bit(a, 5) == bit(b, 5));
    assert(bit(a, 6) == bit(b, 6));
    assert(bit(a, 7) == bit(b, 7));
    bv_ext(a, b);
}

/// Bits of the constants `0`, `0x7f` and `0xff`.
pub proof fn lemma_bit_consts()
    ensures
        forall|i: int| !#[trigger] bit(0u8, i),
        forall|i: int| #[trigger] bit(0x7fu8, i) == (0 <= i < 7),
        forall|i: int| #[trigger] bit(0xffu8, i) == (0 <= i < 8),
{
    assert forall|i: int| !#[trigger] bit(0u8, i) by {
        if 0 <= i < 8 {
            bv_const(i as u8);
        }
    }
    assert forall|i: int| #[trigger] bit(0x7fu8, i) == (0 <= i < 7) by {
        if 0 <= i < 8 {
            bv_const(i as u8);
        }
    }
    assert forall|i: int| #[trigger] bit(0xffu8, i) == (0 <= i < 8) by {
        if 0 <= i < 8 {
            bv_const(i as u8);
        }
    }
}

/// A mask is nonzero exactly when one of its bits is set.
pub proof fn lemma_bit_nonzero(m: u8)
    ensures
        (m != 0) == (exists|i: int| #[trigger] bit(m, i)),
{
    lemma_bit_consts();
    if m != 0 {
        if forall|i: int| 0 <= i < 8 ==> !bit(m, i) {
            lemma_bit_ext(m, 0);
        }
        let i = choose|i: int| 0 <= i < 8 && bit(m, i);
        assert(bit(m, i));
    }
}

/// What `lowest_bit_from` returns.
pub proof fn lemma_lowest_bit_from(m: u8, from: int)
    requires
        0 <= from <= 8,
    ensures
        from <= lowest_bit_from(m, from) <= 8,
        lowest_bit_from(m, from) < 8 ==> bit(m, lowest_bit_from(m, from)),
        forall|j: int| from <= j < lowest_bit_from(m, from) ==> !bit(m, j),
    decreases 8 - from,
{
    if from < 8 && !bit(m, from) {
        lemma_lowest_bit_from(m, from + 1);
    }
}

/// The index of the highest set bit of `m` below `n`, or `-1` when there is none.
pub open spec fn highest_bit_below(m: u8, n: int) -> int
    decreases n,
{
    if n <= 0 {
        -1
    } else if bit(m, n - 1) {
        n - 1
    } else {
        highest_bit_below(m, n - 1)
    }
}

/// The number of set bits of `m` with index in `lo..hi`.
pub open spec fn count_bits(m: u8, lo: int, hi: int) -> nat
    decreases hi - lo,
{
    if hi <= lo {
        0
    } else {
        count_bits(m, lo, hi - 1) + (if bit(m, hi - 1) {
            1nat
        } else {
            0nat
        })
    }
}

/// The number of set bits of `m`.
pub open spec fn popcount(m: u8) -> nat {
    count_bits(m, 0, 8)
}

/// What `highest_bit_below` returns.
pub proof fn lemma_highest_bit_below(m: u8, n: int)
    requires
        0 <= n <= 8,
    ensures
        -1 <= highest_bit_below(m, n) < n,
        highest_bit_below(m, n) >= 0 ==> bit(m, highest_bit_below(m, n)),
        forall|j: int| highest_bit_below(m, n) < j < n ==> !bit(m, j),
    decreases n,
{
    if n > 0 && !bit(m, n - 1) {
        lemma_highest_bit_below(m, n - 1);
    }
}

/// Counting over `lo..hi` splits at any `mid` between them.
pub proof fn lemma_count_bits_split(m: u8, lo: int, mid: int, hi: int)
    requires
        lo <= mid <= hi,
    ensures
        count_bits(m, lo, hi) == count_bits(m, lo, mid) + count_bits(m, mid, hi),
    decreases hi - mid,
{
    if hi > mid {
        lemma_count_bits_split(m, lo, mid, hi - 1);
    }
}

/// A range with no set bit counts zero.
pub proof fn lemma_count_bits_none(m: u8, lo: int, hi: int)
    requires
        forall|j: int| lo <= j < hi ==> !bit(m, j),
    ensures
        count_bits(m, lo, hi) == 0,
    decreases hi - lo,
{
    if hi > lo {
        lemma_count_bits_none(m, lo, hi - 1);
    }
}

/// Counting the bits of a shifted mask is counting a shifted range.
pub proof fn lemma_count_bits_shift(m: u8, s: u8, k: int, n: int)
    requires
        0 <= k,
        0 <= n,
        forall|j: int| 0 <= j ==> #[trigger] bit(s, j) == bit(m, j + k),
    ensures
        count_bits(s, 0, n) == count_bits(m, k, k + n),
    decreases n,
{
    if n > 0 {
        lemma_count_bits_shift(m, s, k, n - 1);
        assert(bit(s, n - 1) == bit(m, n - 1 + k));
    }
}

proof fn bv_usize_shr(x: usize, k: usize, j: usize)
    by (bit_vector)
    requires
        x < 256,
        k <= 8,
        j < 8,
    ensures
        (x >> k) < 256,
        ((((x >> k) as u8) >> (j as u8)) & 1u8 == 1u8) <==> (j + k < 8 && ((x as u8) >> ((j + k) as u8)) & 1u8 == 1u8),
{
}

/// A byte value held in a `usize`, shifted right by at most 8, keeps its bits shifted.
pub proof fn lemma_usize_shr_bits(x: usize, k: usize)
    requires
        x < 256,
        k <= 8,
    ensures
        (x >> k) < 256,
        forall|j: int| 0 <= j ==> #[trigger] bit((x >> k) as u8, j) == bit(x as u8, j + k),
{
    bv_usize_shr(x, k, 0);
    assert forall|j: int| 0 <= j implies #[trigger] bit((x >> k) as u8, j) == bit(x as u8, j + k) by {
        if j < 8 {
            bv_usize_shr(x, k, j as usize);
            if j + k < 8 {
                assert(((j as usize) + k) as u8 == (j + k) as u8);
            }
        }
    }
}

/// One bit `j` is tested by a conjunction with the one-bit mask `1 << j`.
pub proof fn lemma_test_bit(m: u8, j: u8)
    requires
        j < 8,
    ensures
        (m & (1u8 << j) != 0) == bit(m, j as int),
{
    lemma_bit_and(m, 1u8 << j);
    lemma_bit_single(j);
    lemma_bit_nonzero(m & (1u8 << j));
    if bit(m, j as int) {
        assert(bit(m & (1u8 << j), j as int));
    }
}

/// A byte value held in a `usize` shrinks when shifted right.
pub proof fn lemma_usize_shr_lt(x: usize, k: usize)
    by (bit_vector)
    requires
        0 < x < 256,
        1 <= k <= 8,
    ensures
        (x >> k) < x,
{
}

/// At most one set bit per index of the range.
pub proof fn lemma_count_bits_le(m: u8, lo: int, hi: int)
    requires
        lo <= hi,
    ensures
        count_bits(m, lo, hi) <= hi - lo,
    decreases hi - lo,
{
    if hi > lo {
        lemma_count_bits_le(m, lo, hi - 1);
    }
}

} // verus!
