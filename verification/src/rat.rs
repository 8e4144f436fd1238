//! Exact rational numbers over `i64`, the numeric domain of the evaluator.
//!
//! Every value the calculator computes is a quotient of machine integers:
//! number literals are integers, and the four operators keep results exact.
//! An operation whose numerator or denominator no longer fits in `i64`
//! reports that by returning `None`.

use vstd::prelude::*;

verus! {

/// A rational number `num / den`. Every well-formed value keeps `den > 0`;
/// the sign lives in `num`, and `num == 0` means the value is zero.
#[derive(Clone, Copy, Debug, PartialEq, Eq, Structural)]
pub struct Rat {
    pub num: i64,
    pub den: i64,
}

/// Well-formedness: the denominator is positive.
pub open spec fn rat_wf(a: Rat) -> bool {
    a.den > 0
}

/// Does a mathematical integer fit in `i64`?
pub open spec fn in_i64(x: int) -> bool {
    i64::MIN <= x && x <= i64::MAX
}

/// The sum `a + b` as an unreduced fraction, or `None` if it leaves `i64`.
pub open spec fn spec_add(a: Rat, b: Rat) -> Option<Rat> {
    let n = a.num * b.den + b.num * a.den;
    let d = a.den * b.den;
    if in_i64(n) && in_i64(d) {
        Some(Rat { num: n as i64, den: d as i64 })
    } else {
        None
    }
}

/// The difference `a - b` as an unreduced fraction, or `None` if it leaves `i64`.
pub open spec fn spec_sub(a: Rat, b: Rat) -> Option<Rat> {
    let n = a.num * b.den - b.num * a.den;
    let d = a.den * b.den;
    if in_i64(n) && in_i64(d) {
        Some(Rat { num: n as i64, den: d as i64 })
    } else {
        None
    }
}

/// The product `a * b` as an unreduced fraction, or `None` if it leaves `i64`.
pub open spec fn spec_mul(a: Rat, b: Rat) -> Option<Rat> {
    let n = a.num * b.num;
    let d = a.den * b.den;
    if in_i64(n) && in_i64(d) {
        Some(Rat { num: n as i64, den: d as i64 })
    } else {
        None
    }
}

/// The quotient `a / b`, with the sign moved into the numerator so that the
/// denominator stays positive, or `None` if it leaves `i64`. Dividing by a
/// zero `b` is the caller's error and is mapped to `None` here; the
/// evaluator rejects that case before it ever asks for a quotient.
pub open spec fn spec_div(a: Rat, b: Rat) -> Option<Rat> {
    if b.num == 0 {
        None
    } else {
        let n0 = a.num * b.den;
        let d0 = a.den * b.num;
        let n = if d0 < 0 { -n0 } else { n0 };
        let d = if d0 < 0 { -d0 } else { d0 };
        if in_i64(n) && in_i64(d) {
            Some(Rat { num: n as i64, den: d as i64 })
        } else {
            None
        }
    }
}

/// A product of an `i64` with a positive `i64` stays well inside `i128`.
proof fn lemma_prod_with_positive(x: int, y: int) by (nonlinear_arith)
    requires
        -0x8000_0000_0000_0000 <= x <= 0x7fff_ffff_ffff_ffff,
        1 <= y <= 0x7fff_ffff_ffff_ffff,
    ensures
        -0x3fff_ffff_ffff_ffff_8000_0000_0000_0000 <= x * y
            <= 0x3fff_ffff_ffff_ffff_8000_0000_0000_0000,
{
}

/// A product of two `i64` values stays inside `i128`.
proof fn lemma_prod_full_range(x: int, y: int) by (nonlinear_arith)
    requires
        -0x8000_0000_0000_0000 <= x <= 0x7fff_ffff_ffff_ffff,
        -0x8000_0000_0000_0000 <= y <= 0x7fff_ffff_ffff_ffff,
    ensures
        -0x4000_0000_0000_0000_0000_0000_0000_0000 <= x * y
            <= 0x4000_0000_0000_0000_0000_0000_0000_0000,
{
}

/// A product of positive `i64` values is positive; one with a nonzero `i64`
/// is nonzero.
proof fn lemma_prod_signs(x: int, y: int) by (nonlinear_arith)
    requires
        1 <= x <= 0x7fff_ffff_ffff_ffff,
        -0x8000_0000_0000_0000 <= y <= 0x7fff_ffff_ffff_ffff,
    ensures
        -0x3fff_ffff_ffff_ffff_8000_0000_0000_0000 <= x * y
            <= 0x3fff_ffff_ffff_ffff_8000_0000_0000_0000,
        y >= 1 ==> x * y >= 1,
        y != 0 ==> x * y != 0,
{
}

/// `a + b`, exactly; `None` when the result leaves `i64`.
pub fn rat_add(a: Rat, b: Rat) -> (r: Option<Rat>)
    requires
        rat_wf(a),
        rat_wf(b),
    ensures
        r == spec_add(a, b),
        r matches Some(v) ==> rat_wf(v),
{
    proof {
        lemma_prod_with_positive(a.num as int, b.den as int);
        lemma_prod_with_positive(b.num as int, a.den as int);
        lemma_prod_with_positive(a.den as int, b.den as int);
        lemma_prod_signs(a.den as int, b.den as int);
    }
    let n: i128 = (a.num as i128) * (b.den as i128) + (b.num as i128) * (a.den as i128);
    let d: i128 = (a.den as i128) * (b.den as i128);
    if n < i64::MIN as i128 || n > i64::MAX as i128 || d > i64::MAX as i128 {
        None
    } else {
        Some(Rat { num: n as i64, den: d as i64 })
    }
}

/// `a - b`, exactly; `None` when the result leaves `i64`.
pub fn rat_sub(a: Rat, b: Rat) -> (r: Option<Rat>)
    requires
        rat_wf(a),
        rat_wf(b),
    ensures
        r == spec_sub(a, b),
        r matches Some(v) ==> rat_wf(v),
{
    proof {
        lemma_prod_with_positive(a.num as int, b.den as int);
        lemma_prod_with_positive(b.num as int, a.den as int);
        lemma_prod_with_positive(a.den as int, b.den as int);
        lemma_prod_signs(a.den as int, b.den as int);
    }
    let n: i128 = (a.num as i128) * (b.den as i128) - (b.num as i128) * (a.den as i128);
    let d: i128 = (a.den as i128) * (b.den as i128);
    if n < i64::MIN as i128 || n > i64::MAX as i128 || d > i64::MAX as i128 {
        None
    } else {
        Some(Rat { num: n as i64, den: d as i64 })
    }
}

/// `a * b`, exactly; `None` when the result leaves `i64`.
pub fn rat_mul(a: Rat, b: Rat) -> (r: Option<Rat>)
    requires
        rat_wf(a),
        rat_wf(b),
    ensures
        r == spec_mul(a, b),
        r matches Some(v) ==> rat_wf(v),
{
    proof {
        lemma_prod_full_range(a.num as int, b.num as int);
        lemma_prod_with_positive(a.den as int, b.den as int);
        lemma_prod_signs(a.den as int, b.den as int);
    }
    let n: i128 = (a.num as i128) * (b.num as i128);
    let d: i128 = (a.den as i128) * (b.den as i128);
    if n < i64::MIN as i128 || n > i64::MAX as i128 || d > i64::MAX as i128 {
        None
    } else {
        Some(Rat { num: n as i64, den: d as i64 })
    }
}

/// `a / b` for nonzero `b`, exactly; `None` when the result leaves `i64`.
pub fn rat_div(a: Rat, b: Rat) -> (r: Option<Rat>)
    requires
        rat_wf(a),
        rat_wf(b),
        b.num != 0,
    ensures
        r == spec_div(a, b),
        r matches Some(v) ==> rat_wf(v),
{
    proof {
        lemma_prod_with_positive(a.num as int, b.den as int);
        lemma_prod_with_positive(b.num as int, a.den as int);
        lemma_prod_signs(a.den as int, b.num as int);
    }
    let n0: i128 = (a.num as i128) * (b.den as i128);
    let d0: i128 = (a.den as i128) * (b.num as i128);
    let n: i128 = if d0 < 0 { -n0 } else { n0 };
    let d: i128 = if d0 < 0 { -d0 } else { d0 };
    if n < i64::MIN as i128 || n > i64::MAX as i128 || d > i64::MAX as i128 {
        None
    } else {
        Some(Rat { num: n as i64, den: d as i64 })
    }
}

} // verus!
