//! Bit-level view of configurations: a `u64` read as sixty-four Booleans.
use vstd::prelude::*;

verus! {

/// Bit `i` of `x`, for `0 <= i < 64`.
#[verifier::opaque]
pub open spec fn bit(x: u64, i: int) -> bool {
    (x >> (i as u64)) & 1u64 == 1u64
}

/// No bit of `x` at position `w` or above is set.
pub open spec fn below(x: u64, w: int) -> bool {
    forall|i: int| w <= i < 64 ==> !#[trigger] bit(x, i)
}

/// The number of set bits of `x` among positions `0..n`.
pub open spec fn ones_upto(x: u64, n: int) -> nat
    decreases n,
{
    if n <= 0 {
        0
    } else {
        ones_upto(x, n - 1) + (if bit(x, n - 1) {
            1nat
        } else {
            0nat
        })
    }
}

/// The number of set bits of `x`.
pub open spec fn ones(x: u64) -> nat {
    ones_upto(x, 64)
}

pub broadcast proof fn lemma_bit_and(x: u64, y: u64, i: int)
    requires
        0 <= i < 64,
    ensures
        #[trigger] bit(x & y, i) == (bit(x, i) && bit(y, i)),
{
    reveal(bit);
    let k = i as u64;
    assert((((x & y) >> k) & 1u64 == 1u64) == ((x >> k) & 1u64 == 1u64 && (y >> k) & 1u64 == 1u64))
        by (bit_vector)
        requires
            k < 64,
    ;
}

pub broadcast proof fn lemma_bit_or(x: u64, y: u64, i: int)
    requires
        0 <= i < 64,
    ensures
        #[trigger] bit(x | y, i) == (bit(x, i) || bit(y, i)),
{
    reveal(bit);
    let k = i as u64;
    assert((((x | y) >> k) & 1u64 == 1u64) == ((x >> k) & 1u64 == 1u64 || (y >> k) & 1u64 == 1u64))
        by (bit_vector)
        requires
            k < 64,
    ;
}

pub broadcast proof fn lemma_bit_xor(x: u64, y: u64, i: int)
    requires
        0 <= i < 64,
    ensures
        #[trigger] bit(x ^ y, i) == (bit(x, i) != bit(y, i)),
{
    reveal(bit);
    let k = i as u64;
    assert((((x ^ y) >> k) & 1u64 == 1u64) == (((x >> k) & 1u64 == 1u64) != ((y >> k) & 1u64
        == 1u64))) by (bit_vector)
        requires
            k < 64,
    ;
}

pub broadcast proof fn lemma_bit_not(x: u64, i: int)
    requires
        0 <= i < 64,
    ensures
        #[trigger] bit(!x, i) == !bit(x, i),
{
    reveal(bit);
    let k = i as u64;
    assert((((!x) >> k) & 1u64 == 1u64) == !((x >> k) & 1u64 == 1u64)) by (bit_vector)
        requires
            k < 64,
    ;
}

pub broadcast proof fn lemma_bit_one_shl(k: u64, i: int)
    requires
        0 <= i < 64,
        k < 64,
    ensures
        #[trigger] bit(1u64 << k, i) == (i == k),
{
    reveal(bit);
    let j = i as u64;
    assert((((1u64 << k) >> j) & 1u64 == 1u64) == (j == k)) by (bit_vector)
        requires
            j < 64,
            k < 64,
    ;
}

pub broadcast proof fn lemma_bit_zero(i: int)
    requires
        0 <= i < 64,
    ensures
        !#[trigger] bit(0u64, i),
{
    reveal(bit);
    let j = i as u64;
    assert((0u64 >> j) & 1u64 == 0u64) by (bit_vector);
}

pub broadcast proof fn lemma_bit_max(i: int)
    requires
        0 <= i < 64,
    ensures
        #[trigger] bit(u64::MAX, i),
{
    reveal(bit);
    let j = i as u64;
    assert((0xffff_ffff_ffff_ffffu64 >> j) & 1u64 == 1u64) by (bit_vector)
        requires
            j < 64,
    ;
}

pub broadcast group group_bits {
    lemma_bit_and,
    lemma_bit_or,
    lemma_bit_xor,
    lemma_bit_not,
    lemma_bit_one_shl,
    lemma_bit_zero,
    lemma_bit_max,
}

proof fn lemma_shift_equal(x: u64, y: u64, k: u64)
    requires
        k <= 63,
        forall|i: int| k <= i < 64 ==> #[trigger] bit(x, i) == bit(y, i),
    ensures
        x >> k == y >> k,
    decreases 63 - k,
{
    reveal(bit);
    assert(bit(x, k as int) == bit(y, k as int));
    if k < 63 {
        let j = (k + 1) as u64;
        lemma_shift_equal(x, y, j);
        assert(x >> k == y >> k) by (bit_vector)
            requires
                k < 63,
                j == k + 1,
                x >> j == y >> j,
                ((x >> k) & 1u64 == 1u64) == ((y >> k) & 1u64 == 1u64),
        ;
    } else {
        assert(x >> k == y >> k) by (bit_vector)
            requires
                k == 63,
                ((x >> k) & 1u64 == 1u64) == ((y >> k) & 1u64 == 1u64),
        ;
    }
}

/// Two configurations with the same bits are the same number.
pub proof fn lemma_bits_equal(x: u64, y: u64)
    requires
        forall|i: int| 0 <= i < 64 ==> #[trigger] bit(x, i) == bit(y, i),
    ensures
        x == y,
{
    lemma_shift_equal(x, y, 0);
    assert(x == y) by (bit_vector)
        requires
            x >> 0u64 == y >> 0u64,
    ;
}

/// A number has no bit at `w` or above exactly when it is less than two to the `w`.
pub proof fn lemma_below_iff(x: u64, w: u64)
    requires
        w < 64,
    ensures
        below(x, w as int) <==> x < (1u64 << w),
{
    reveal(bit);
    if x < (1u64 << w) {
        assert forall|i: int| w <= i < 64 implies !#[trigger] bit(x, i) by {
            let k = i as u64;
            assert((x >> k) & 1u64 == 0u64) by (bit_vector)
                requires
                    x < (1u64 << w),
                    w <= k,
                    k < 64,
                    w < 64,
            ;
        }
    } else if below(x, w as int) {
        assert forall|i: int| w <= i < 64 implies #[trigger] bit(x, i) == bit(0u64, i) by {
            lemma_bit_zero(i);
        }
        lemma_shift_equal(x, 0, w);
        assert(x < (1u64 << w)) by (bit_vector)
            requires
                w < 64,
                x >> w == 0u64 >> w,
        ;
    }
}

pub proof fn lemma_ones_bound(x: u64, n: int)
    requires
        0 <= n,
    ensures
        ones_upto(x, n) <= n,
    decreases n,
{
    if n > 0 {
        lemma_ones_bound(x, n - 1);
    }
}

/// `u64::count_ones`: the number of ones in the binary representation.
pub assume_specification[ u64::count_ones ](i: u64) -> (r: u32)
    ensures
        r as nat == ones(i),
;

/// Bit `i` of `x` as a Boolean.
pub fn get_bit(x: u64, i: usize) -> (b: bool)
    requires
        i < 64,
    ensures
        b == bit(x, i as int),
{
    proof {
        reveal(bit);
    }
    (x >> (i as u64)) & 1 == 1
}

/// `x` with bit `i` set.
pub fn with_bit(x: u64, i: usize) -> (r: u64)
    requires
        i < 64,
    ensures
        forall|j: int| 0 <= j < 64 ==> #[trigger] bit(r, j) == (j == i || bit(x, j)),
{
    broadcast use group_bits;

    x | (1u64 << (i as u64))
}

/// The configuration whose lowest `width` bits are set and no other.
pub fn full_mask(width: usize) -> (r: u64)
    requires
        width <= 64,
    ensures
        forall|j: int| 0 <= j < 64 ==> #[trigger] bit(r, j) == (j < width),
{
    if width == 64 {
        proof {
            broadcast use group_bits;

        }
        u64::MAX
    } else {
        let w: u64 = width as u64;
        proof {
            reveal(bit);
            assert(1u64 << w >= 1u64) by (bit_vector)
                requires
                    w < 64,
            ;
            assert forall|j: int| 0 <= j < 64 implies #[trigger] bit(
                ((1u64 << w) - 1) as u64,
                j,
            ) == (j < width) by {
                let k = j as u64;
                assert((((((1u64 << w) - 1) as u64) >> k) & 1u64 == 1u64) == (k < w)) by (bit_vector)
                    requires
                        k < 64,
                        w < 64,
                ;
            }
        }
        (1u64 << w) - 1
    }
}

} // verus!
