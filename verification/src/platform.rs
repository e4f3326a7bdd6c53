//! The model platform: allocation granularity and the shared
//! capacity-rounding and validation arithmetic.
//!
//! Every byte capacity handed to a mirrored mapping is rounded up to a
//! multiple of the allocation granule, and rejected when the rounded value
//! is zero or would consume at least half of the addressable span (twice
//! the rounded capacity must still be addressable).

use vstd::prelude::*;
use vstd::arithmetic::div_mod::{
    lemma_fundamental_div_mod, lemma_fundamental_div_mod_converse_div, lemma_mod_multiples_basic,
};

verus! {

/// The allocation granule of the model platform, in bytes.
///
/// Real virtual-memory backends round to the page size or allocation
/// granularity that the host reports; the verified buffer model rounds to
/// this fixed granule, a typical page size.
pub const GRANULARITY: usize = 4096;

/// The smallest byte capacity that is rejected: a half-capacity must stay
/// strictly below half of the maximum signed address span, since twice the
/// capacity is reserved.
pub open spec fn spec_cap_limit() -> int {
    isize::MAX as int / 2
}

/// `bytes` rounded up to the next multiple of `g` (a true ceiling:
/// exact multiples stay unchanged).
pub open spec fn round_up(bytes: int, g: int) -> int
    recommends
        g >= 1,
{
    ((bytes + g - 1) / g) * g
}

/// A request for `count` elements of `size` bytes each can be satisfied:
/// the raw byte total is positive and its granule-rounded value stays
/// below the capacity limit.
pub open spec fn valid_request(count: int, size: int) -> bool {
    &&& 1 <= count * size
    &&& round_up(count * size, GRANULARITY as int) < spec_cap_limit()
}

/// The allocation granularity of the model platform.
pub fn granularity() -> (g: usize)
    ensures
        g == GRANULARITY,
{
    GRANULARITY
}

/// Whether a rounded byte capacity is unusable: zero, or at least half of
/// the maximum signed address span. The mirrored mapping needs twice the
/// capacity to be addressable.
pub fn invalid_capacity(cap: usize) -> (r: bool)
    ensures
        r <==> !(0 < cap < spec_cap_limit()),
{
    cap == 0 || cap >= isize::MAX as usize / 2
}

/// `round_up(b, g)` is the least multiple of `g` that is at least `b`.
pub proof fn lemma_round_up_properties(b: int, g: int)
    requires
        1 <= b,
        1 <= g,
    ensures
        b <= round_up(b, g) < b + g,
        round_up(b, g) % g == 0,
{
    let q = (b + g - 1) / g;
    let r = (b + g - 1) % g;
    lemma_fundamental_div_mod(b + g - 1, g);
    assert(b + g - 1 == g * q + r);
    assert(0 <= r < g) by {
        vstd::arithmetic::div_mod::lemma_mod_division_less_than_divisor(b + g - 1, g);
        vstd::arithmetic::div_mod::lemma_mod_bound(b + g - 1, g);
    }
    assert(round_up(b, g) == q * g);
    lemma_mod_multiples_basic(q, g);
}

/// Rounding up is monotone in the value being rounded.
pub proof fn lemma_round_up_monotone(a: int, b: int, g: int)
    requires
        a <= b,
        1 <= g,
    ensures
        round_up(a, g) <= round_up(b, g),
{
    vstd::arithmetic::div_mod::lemma_div_is_ordered(a + g - 1, b + g - 1, g);
    vstd::arithmetic::mul::lemma_mul_inequality((a + g - 1) / g, (b + g - 1) / g, g);
    vstd::arithmetic::mul::lemma_mul_is_commutative((a + g - 1) / g, g);
    vstd::arithmetic::mul::lemma_mul_is_commutative((b + g - 1) / g, g);
}

/// An exact multiple of the granule is left unchanged by rounding.
pub proof fn lemma_round_up_exact(b: int, g: int)
    requires
        1 <= b,
        1 <= g,
        b % g == 0,
    ensures
        round_up(b, g) == b,
{
    lemma_fundamental_div_mod(b, g);
    vstd::arithmetic::mul::lemma_mul_is_commutative(b / g, g);
    assert(b + g - 1 == (b / g) * g + (g - 1));
    lemma_fundamental_div_mod_converse_div(b + g - 1, g, b / g, g - 1);
}

/// The bit trick `(m & !(GRANULARITY - 1)) == m - m % GRANULARITY`
/// that the rounding formula rests on, for the power-of-two granule.
proof fn lemma_mask_clears_low_bits(m: usize)
    ensures
        m & !4095usize == m as int - (m as int % (GRANULARITY as int)),
        m & !4095usize <= m,
{
    assert(m & !4095usize == m - (m % 4096)) by (bit_vector);
    assert(m & !4095usize <= m) by (bit_vector);
}

/// `((bytes - 1) & !(granularity - 1)) + granularity`: the rounding
/// formula itself, shown to be a true ceiling to the next granule
/// multiple — an exact multiple is left unchanged, anything else is
/// rounded up.
fn mask_round(bytes: usize) -> (r: usize)
    requires
        1 <= bytes,
        bytes + GRANULARITY <= usize::MAX,
    ensures
        r == round_up(bytes as int, GRANULARITY as int),
{
    let g: usize = granularity();
    let m: usize = bytes - 1;
    proof {
        lemma_mask_clears_low_bits(m);
        lemma_fundamental_div_mod(m as int, g as int);
        vstd::arithmetic::div_mod::lemma_mod_bound(m as int, g as int);
        let q = m as int / g as int;
        let s = m as int % g as int;
        assert(bytes + g - 1 == (q + 1) * g + s) by {
            assert(m == g * q + s);
        }
        assert((bytes + g - 1) / g as int == q + 1) by {
            lemma_fundamental_div_mod_converse_div(bytes + g - 1, g as int, q + 1, s);
        }
        assert(round_up(bytes as int, g as int) == (q + 1) * g);
        assert(m - s + g == (q + 1) * g);
    }
    let masked: usize = m & !(g - 1);
    masked + g
}

/// Rounds a request of `cap` elements of `size_of` bytes each up to the
/// next multiple of the allocation granularity; a true ceiling, so a
/// request of exactly one granule yields exactly one granule.
pub fn round_capacity(cap: usize, size_of: usize) -> (r: usize)
    requires
        valid_request(cap as int, size_of as int),
    ensures
        r == round_up(cap as int * size_of as int, GRANULARITY as int),
        r % GRANULARITY == 0,
        cap * size_of <= r,
        0 < r < spec_cap_limit(),
{
    proof {
        lemma_round_up_properties(cap as int * size_of as int, GRANULARITY as int);
    }
    let bytes: usize = cap * size_of;
    mask_round(bytes)
}

/// The total variant of [`round_capacity`]: the rounded byte capacity for
/// `cap` elements of `size_of` bytes each, or nothing exactly where the
/// request is not a valid one — the byte total overflows or is zero, or
/// the rounded value would consume half the addressable span. Callers
/// test with this before the operations that demand a valid request.
pub fn round_capacity_checked(cap: usize, size_of: usize) -> (r: Option<usize>)
    ensures
        r is Some <==> valid_request(cap as int, size_of as int),
        r is Some ==> r->Some_0 == round_up(cap as int * size_of as int, GRANULARITY as int),
{
    proof {
        if cap as int * size_of as int >= 1 {
            lemma_round_up_properties(cap as int * size_of as int, GRANULARITY as int);
        }
    }
    let bytes: usize = match cap.checked_mul(size_of) {
        Some(bytes) => bytes,
        None => {
            return None;
        },
    };
    if bytes == 0 {
        return None;
    }
    if bytes >= isize::MAX as usize / 2 {
        return None;
    }
    let r: usize = mask_round(bytes);
    if r >= isize::MAX as usize / 2 {
        return None;
    }
    Some(r)
}

} // verus!
