//! The page size, and rounding of addresses and sizes.
use vstd::prelude::*;

verus! {

/// The size of a page in bytes.
pub const PGSZ: usize = 4096;

/// The largest multiple of `align` that is not above `x`.
pub open spec fn spec_align_down(x: int, align: int) -> int {
    x - x % align
}

/// The smallest multiple of `align` that is not below `x`.
pub open spec fn spec_align_up(x: int, align: int) -> int {
    if x % align == 0 {
        x
    } else {
        x - x % align + align
    }
}

/// Both roundings of `x` are multiples of `align`.
pub proof fn lemma_multiple(x: int, align: int)
    requires
        align > 0,
    ensures
        spec_align_down(x, align) % align == 0,
        spec_align_up(x, align) % align == 0,
        spec_align_down(x, align) == (x / align) * align,
{
    let q = x / align;
    vstd::arithmetic::div_mod::lemma_fundamental_div_mod(x, align);
    vstd::arithmetic::div_mod::lemma_mod_multiples_basic(q, align);
    vstd::arithmetic::div_mod::lemma_mod_multiples_basic(q + 1, align);
    assert(align * q == q * align) by (nonlinear_arith);
    assert((q + 1) * align == q * align + align) by (nonlinear_arith);
}

/// Rounds `x` down to a multiple of `align`.
pub fn align_down(x: usize, align: usize) -> (r: usize)
    requires
        align > 0,
    ensures
        r == spec_align_down(x as int, align as int),
        r % align == 0,
        r <= x < r + align,
{
    let rest: usize = x % align;
    proof {
        lemma_multiple(x as int, align as int);
    }
    x - rest
}

/// Rounds `x` up to a multiple of `align`.
pub fn align_up(x: usize, align: usize) -> (r: usize)
    requires
        align > 0,
        spec_align_up(x as int, align as int) <= usize::MAX,
    ensures
        r == spec_align_up(x as int, align as int),
        r % align == 0,
        x <= r < x + align,
{
    let rest: usize = x % align;
    proof {
        lemma_multiple(x as int, align as int);
    }
    if rest == 0 {
        x
    } else {
        x - rest + align
    }
}

/// Whether `x` is a multiple of `align`.
pub fn is_align(x: usize, align: usize) -> (r: bool)
    requires
        align > 0,
    ensures
        r == (x % align == 0),
{
    x % align == 0
}

} // verus!
