//! Alignment arithmetic shared by the arena and the columnar table.
//!
//! Alignments are powers of two. Contracts speak of them through
//! [`is_pow2`] and of rounding through [`round_up`]; the executable code
//! uses the usual mask idiom, and the lemmas here connect the two.

use vstd::arithmetic::div_mod::{
    lemma_fundamental_div_mod, lemma_mod_multiples_basic, lemma_mod_multiples_vanish,
    lemma_small_mod,
};
use vstd::arithmetic::mul::{
    lemma_mul_is_commutative, lemma_mul_is_distributive_add, lemma_mul_is_distributive_sub,
};
use vstd::arithmetic::power2::{
    is_pow2, is_pow2_equiv, is_pow2_exists, lemma2_to64, lemma2_to64_rest,
    lemma_pow2_pos, lemma_pow2_strictly_increases, pow2,
};
use vstd::bits::{lemma_usize_low_bits_mask_is_mod, low_bits_mask};
use vstd::prelude::*;

verus! {

/// The smallest multiple of `align` that is not below `size`.
pub open spec fn round_up(size: int, align: int) -> int {
    if size % align == 0 {
        size
    } else {
        size - size % align + align
    }
}

/// `addr` is a multiple of `align`.
pub open spec fn is_aligned(addr: int, align: int) -> bool {
    addr % align == 0
}

/// `round_up` yields a multiple of `align` in `[size, size + align)`, and no
/// multiple of `align` lies between `size` and it.
pub proof fn lemma_round_up(size: int, align: int)
    requires
        0 <= size,
        0 < align,
    ensures
        is_aligned(round_up(size, align), align),
        size <= round_up(size, align) < size + align,
        forall|m: int| size <= m && #[trigger] is_aligned(m, align) ==> round_up(size, align) <= m,
{
    let r = round_up(size, align);
    let q = size / align;
    lemma_fundamental_div_mod(size, align);
    assert(size == align * q + size % align);
    if size % align != 0 {
        assert(r == align * q + align);
        lemma_mul_is_distributive_add(align, q, 1);
        assert(r == align * (q + 1));
        lemma_mul_is_commutative(align, q + 1);
        lemma_mod_multiples_basic(q + 1, align);
    }
    assert forall|m: int| size <= m && #[trigger] is_aligned(m, align) implies r <= m by {
        if m < r {
            // `m` would sit strictly inside one period above a multiple of `align`.
            let d = m - align * q;
            assert(0 < d < align);
            lemma_mul_is_commutative(align, q);
            lemma_mod_multiples_vanish(q, d, align);
            lemma_small_mod(d as nat, align as nat);
            assert(m % align == d);
        }
    }
}

/// The sum of two multiples of `align` is a multiple of `align`.
pub proof fn lemma_aligned_sum(a: int, b: int, align: int)
    requires
        0 < align,
        is_aligned(a, align),
        is_aligned(b, align),
    ensures
        is_aligned(a + b, align),
{
    lemma_fundamental_div_mod(a, align);
    lemma_fundamental_div_mod(b, align);
    lemma_mul_is_distributive_add(align, a / align, b / align);
    lemma_mul_is_commutative(align, a / align + b / align);
    lemma_mod_multiples_basic(a / align + b / align, align);
}

/// A power of two that fits in `usize` is `2^k` for some `k` below the word size.
pub proof fn lemma_pow2_exponent(align: usize) -> (k: nat)
    requires
        is_pow2(align as int),
    ensures
        k < usize::BITS,
        pow2(k) == align,
{
    is_pow2_equiv(align as int);
    assert(is_pow2_exists(align as int));
    let k = choose|i: nat| vstd::arithmetic::power::pow(2, i) == align as int;
    assert(pow2(k) == align);
    if k >= usize::BITS {
        lemma2_to64();
        lemma2_to64_rest();
        if k > usize::BITS {
            lemma_pow2_strictly_increases(usize::BITS as nat, k);
        }
        assert(pow2(usize::BITS as nat) > usize::MAX);
    }
    k
}

/// Masking with `align - 1` computes the remainder modulo a power of two.
pub proof fn lemma_mask_is_mod(x: usize, align: usize)
    requires
        is_pow2(align as int),
    ensures
        align >= 1,
        x & ((align - 1) as usize) == x % align,
{
    let k = lemma_pow2_exponent(align);
    lemma_pow2_pos(k);
    assert(low_bits_mask(k) == align - 1);
    lemma_usize_low_bits_mask_is_mod(x, k);
}

/// Every power of two divides every larger power of two.
pub proof fn lemma_pow2_divides(small: usize, large: usize)
    requires
        is_pow2(small as int),
        is_pow2(large as int),
        small <= large,
    ensures
        is_aligned(large as int, small as int),
{
    lemma_mask_is_mod(large, small);
    lemma_one_bit_is_pow2(small);
    lemma_one_bit_is_pow2(large);
    assert(large & ((small - 1) as usize) == 0) by (bit_vector)
        requires
            one_bit(small),
            one_bit(large),
            small <= large,
    ;
}

/// A multiple of `large` is a multiple of every power of two below `large`.
pub proof fn lemma_aligned_to_smaller(x: int, small: usize, large: usize)
    requires
        is_pow2(small as int),
        is_pow2(large as int),
        small <= large,
        is_aligned(x, large as int),
    ensures
        is_aligned(x, small as int),
{
    lemma_pow2_divides(small, large);
    lemma_mask_is_mod(0, small);
    let q = x / (large as int);
    let p = (large as int) / (small as int);
    lemma_fundamental_div_mod(x, large as int);
    lemma_fundamental_div_mod(large as int, small as int);
    assert(x == (large as int) * q);
    assert(large as int == (small as int) * p);
    assert(x == (small as int) * (p * q)) by (nonlinear_arith)
        requires
            x == (large as int) * q,
            large as int == (small as int) * p,
    ;
    lemma_mul_is_commutative(small as int, p * q);
    lemma_mod_multiples_basic(p * q, small as int);
}

/// A multiple of `align` that a buffer may have as its size leaves room for
/// `align - 1` more bytes: the largest size of a buffer, `isize::MAX`, is one
/// less than a power of two.
pub proof fn lemma_aligned_room(total: usize, align: usize)
    requires
        is_pow2(align as int),
        is_aligned(total as int, align as int),
        total <= isize::MAX,
    ensures
        total + (align - 1) <= isize::MAX,
{
    let top: usize = (isize::MAX + 1) as usize;
    assert(is_pow2(top as int)) by {
        lemma2_to64();
        lemma2_to64_rest();
        let k: nat = (usize::BITS - 1) as nat;
        if usize::BITS == 32 {
            assert(pow2(31) == 0x8000_0000);
        } else {
            assert(pow2(63) == 0x8000_0000_0000_0000);
        }
        assert(pow2(k) == top);
        vstd::arithmetic::power::lemma_pow_positive(2, k);
        assert(vstd::arithmetic::power::pow(2, k) == top as int);
        assert(is_pow2_exists(top as int));
        is_pow2_equiv(top as int);
    }
    assert(align <= top) by {
        lemma2_to64();
        lemma2_to64_rest();
        let k = lemma_pow2_exponent(align);
        if k < usize::BITS - 1 {
            lemma_pow2_strictly_increases(k, (usize::BITS - 1) as nat);
        }
    }
    lemma_pow2_divides(align, top);
    lemma_mask_is_mod(0, align);
    // The gap between `total` and `top` is a positive multiple of `align`.
    let gap = top - total;
    lemma_fundamental_div_mod(top as int, align as int);
    lemma_fundamental_div_mod(total as int, align as int);
    let q = top as int / align as int - total as int / align as int;
    lemma_mul_is_distributive_sub(align as int, top as int / align as int, total as int / align as int);
    assert(gap == align * q);
    lemma_mul_is_commutative(align as int, q);
    lemma_mod_multiples_basic(q, align as int);
    assert(is_aligned(gap, align as int));
    lemma_round_up(1, align as int);
    assert(round_up(1, align as int) == align) by {
        if align > 1 {
            lemma_small_mod(1, align as nat);
        }
    }
}

/// The bit pattern of a power of two: exactly one bit set.
pub open spec fn one_bit(n: usize) -> bool {
    n != 0 && n & ((n - 1) as usize) == 0
}

proof fn lemma_one_bit_halves(n: usize)
    by (bit_vector)
    requires
        n > 1,
    ensures
        one_bit(n) <==> (n % 2 == 0 && one_bit(n / 2)),
{
}

/// Having exactly one bit set is the same as being a power of two.
pub proof fn lemma_one_bit_is_pow2(n: usize)
    ensures
        one_bit(n) <==> is_pow2(n as int),
    decreases n,
{
    reveal(is_pow2);
    if n == 0 {
    } else if n == 1 {
        assert(one_bit(1usize)) by (bit_vector);
    } else {
        lemma_one_bit_halves(n);
        lemma_one_bit_is_pow2(n / 2);
    }
}

/// Whether `n` is a power of two.
pub fn is_power_of_two(n: usize) -> (yes: bool)
    ensures
        yes == is_pow2(n as int),
{
    proof {
        lemma_one_bit_is_pow2(n);
    }
    n != 0 && n & (n - 1) == 0
}

/// The offset needed to align `size` to `align`.
pub fn align_offset(size: usize, align: usize) -> (offset: usize)
    requires
        is_pow2(align as int),
    ensures
        offset == round_up(size as int, align as int) - size,
        offset < align,
{
    proof {
        lemma_mask_is_mod(size, align);
    }
    let low = size & (align - 1);
    if low == 0 {
        0
    } else {
        align - low
    }
}

/// Align `size` to `align`.
pub fn align_to(size: usize, align: usize) -> (aligned: usize)
    requires
        is_pow2(align as int),
        round_up(size as int, align as int) <= usize::MAX,
    ensures
        aligned == round_up(size as int, align as int),
{
    size + align_offset(size, align)
}

} // verus!
