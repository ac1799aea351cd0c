//! Alignment arithmetic used by the bump allocator.
//!
//! All operations are plain integer arithmetic over addresses; an alignment is
//! always at least 1, and the allocator only ever passes powers of two.

use vstd::prelude::*;

verus! {

/// A positive power of two.
pub open spec fn is_pow2(a: int) -> bool
    decreases a,
{
    if a <= 0 {
        false
    } else if a == 1 {
        true
    } else {
        a % 2 == 0 && is_pow2(a / 2)
    }
}

/// Executable power-of-two test.
pub fn check_pow2(a: usize) -> (r: bool)
    ensures
        r == is_pow2(a as int),
    decreases a,
{
    if a == 0 {
        false
    } else if a == 1 {
        true
    } else if a % 2 == 1 {
        false
    } else {
        check_pow2(a / 2)
    }
}

/// `value` rounded down to the nearest multiple of `align`.
pub open spec fn align_down_spec(value: int, align: int) -> int {
    value - value % align
}

/// `value` rounded up to the nearest multiple of `align`.
pub open spec fn align_up_spec(value: int, align: int) -> int {
    align_down_spec(value + align - 1, align)
}

/// Core facts about rounding down to a multiple of `align`.
pub proof fn lemma_align_down(value: int, align: int)
    requires
        0 <= value,
        1 <= align,
    ensures
        align_down_spec(value, align) % align == 0,
        align_down_spec(value, align) <= value,
        value - align_down_spec(value, align) < align,
        0 <= align_down_spec(value, align),
{
    vstd::arithmetic::div_mod::lemma_mod_pos_bound(value, align);
    let r = value % align;
    let q = value / align;
    vstd::arithmetic::div_mod::lemma_fundamental_div_mod(value, align);
    assert(value - r == align * q);
    vstd::arithmetic::div_mod::lemma_mod_multiples_basic(q, align);
    assert(align * q == q * align) by {
        vstd::arithmetic::mul::lemma_mul_is_commutative(align, q);
    }
}

/// Aligns `value` down to the nearest multiple of `align`.
pub fn align_down(value: usize, align: usize) -> (r: usize)
    requires
        1 <= align,
    ensures
        r == align_down_spec(value as int, align as int),
        r % align == 0,
        r <= value,
        value - r < align,
{
    proof {
        lemma_align_down(value as int, align as int);
    }
    value - value % align
}

/// Aligns `value` up to the nearest multiple of `align`.
/// Returns `None` when the padded value `value + align - 1` does not fit in
/// `usize` (the same condition under which the allocator reports exhaustion).
pub fn align_up(value: usize, align: usize) -> (r: Option<usize>)
    requires
        1 <= align,
    ensures
        match r {
            Some(v) => {
                &&& value + align - 1 <= usize::MAX
                &&& v == align_up_spec(value as int, align as int)
                &&& v % align == 0
                &&& value <= v
                &&& v - value < align
            },
            None => value + align - 1 > usize::MAX,
        },
{
    if value > usize::MAX - (align - 1) {
        None
    } else {
        let padded = value + (align - 1);
        let r = align_down(padded, align);
        proof {
            lemma_align_down(padded as int, align as int);
            assert(r >= value);
        }
        Some(r)
    }
}

/// True when `value` is a multiple of `align`.
pub fn is_aligned_to(value: usize, align: usize) -> (r: bool)
    requires
        1 <= align,
    ensures
        r == (value as int % align as int == 0),
{
    value % align == 0
}

/// Aligns the address `addr` up to the next multiple of `align`, saturating to
/// `usize::MAX` when the padded address overflows.
pub fn align_ptr_offset(addr: usize, align: usize) -> (r: usize)
    requires
        1 <= align,
    ensures
        if value_fits(addr as int, align as int) {
            r == align_up_spec(addr as int, align as int)
        } else {
            r == usize::MAX
        },
{
    match align_up(addr, align) {
        None => usize::MAX,
        Some(aligned) => aligned,
    }
}

/// The padded value of `align_up` stays within the address space.
pub open spec fn value_fits(value: int, align: int) -> bool {
    value + align - 1 <= usize::MAX
}

/// The smallest power of two at least `v`.
pub fn next_power_of_two(v: usize) -> (r: usize)
    requires
        1 <= v,
        v <= 1073741824,
    ensures
        is_pow2(r as int),
        v <= r,
        r < 2 * v,
{
    let mut p: usize = 1;
    while p < v
        invariant
            is_pow2(p as int),
            v <= 1073741824,
            1 <= p,
            p < 2 * v,
        decreases 2 * v - p,
    {
        proof {
            assert(is_pow2(2 * p as int));
        }
        p = p * 2;
    }
    p
}

/// A smaller power of two divides a larger one.
pub proof fn lemma_pow2_le_divides(a: int, b: int)
    requires
        is_pow2(a),
        is_pow2(b),
        a <= b,
    ensures
        b % a == 0,
    decreases b,
{
    if a == b {
        vstd::arithmetic::div_mod::lemma_mod_self_0(a);
    } else {
        assert(b > a >= 1);
        assert(b % 2 == 0 && is_pow2(b / 2));
        lemma_pow2_half(a, b);
        lemma_pow2_le_divides(a, b / 2);
        let q = (b / 2) / a;
        vstd::arithmetic::div_mod::lemma_fundamental_div_mod(b / 2, a);
        assert(b == a * (2 * q)) by (nonlinear_arith)
            requires b / 2 == a * q + 0 && b % 2 == 0 && b == 2 * (b / 2) + b % 2;
        vstd::arithmetic::div_mod::lemma_mod_multiples_basic(2 * q, a);
        assert(a * (2 * q) == (2 * q) * a) by {
            vstd::arithmetic::mul::lemma_mul_is_commutative(a, 2 * q);
        }
    }
}

/// A power of two below another is at most its half.
proof fn lemma_pow2_half(a: int, b: int)
    requires
        is_pow2(a),
        is_pow2(b),
        a < b,
    ensures
        a <= b / 2,
    decreases b,
{
    assert(b >= 2);
    assert(b % 2 == 0 && is_pow2(b / 2));
    if a >= 2 {
        assert(a % 2 == 0 && is_pow2(a / 2));
        lemma_pow2_half(a / 2, b / 2);
    }
}

/// A value aligned to `b` is aligned to any smaller power of two `a`.
pub proof fn lemma_aligned_to_smaller(x: int, a: int, b: int)
    requires
        0 <= x,
        is_pow2(a),
        is_pow2(b),
        a <= b,
        x % b == 0,
    ensures
        x % a == 0,
{
    lemma_pow2_le_divides(a, b);
    let qb = x / b;
    let qa = b / a;
    vstd::arithmetic::div_mod::lemma_fundamental_div_mod(x, b);
    vstd::arithmetic::div_mod::lemma_fundamental_div_mod(b, a);
    assert(x == a * (qa * qb)) by (nonlinear_arith)
        requires x == b * qb + 0 && b == a * qa + 0;
    vstd::arithmetic::div_mod::lemma_mod_multiples_basic(qa * qb, a);
    assert(a * (qa * qb) == (qa * qb) * a) by {
        vstd::arithmetic::mul::lemma_mul_is_commutative(a, qa * qb);
    }
}

/// `align_up` never moves a value past the next multiple; two values that round
/// up into the same window agree.
pub proof fn lemma_align_up_below(value: int, align: int)
    requires
        0 <= value,
        1 <= align,
        value % align == 0,
    ensures
        align_up_spec(value, align) == value,
{
    lemma_align_down(value + align - 1, align);
    let v = align_up_spec(value, align);
    assert(v % align == 0);
    assert(value <= v <= value + align - 1);
    if v != value {
        assert(value < v < value + align);
        let d = v - value;
        assert(0 < d < align);
        assert(d % align == 0) by {
            vstd::arithmetic::div_mod::lemma_sub_mod_noop(v, value, align);
            vstd::arithmetic::div_mod::lemma_small_mod(0nat, align as nat);
            assert((v - value) % align == (v % align - value % align) % align);
            vstd::arithmetic::div_mod::lemma_small_mod(d as nat, align as nat);
        }
        assert(false) by {
            vstd::arithmetic::div_mod::lemma_small_mod(d as nat, align as nat);
        }
    }
}

} // verus!
