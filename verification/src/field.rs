//! The field laws of GF(3⁶) for the digit-wise operations of `gf3`.
//!
//! Every operation looks only at the six lowest base-3 digits of its
//! arguments, so the laws hold for all naturals, with results below 729.
//! They are proved digit by digit: addition is digit-wise addition modulo
//! 3, multiplication by α a fixed linear map on the digits, and general
//! multiplication is Horner's rule over the digits of the right factor.
use vstd::prelude::*;
use crate::gf3::{
    digits_add, digits_sub, gf_add, gf_mul, gf_scale, gf_sub, gf_xtime, lemma_gf_ranges,
    lemma_mul_by_zero, lemma_pow3_small, mul_digits, pow3,
};

verus! {

/// Base-3 digit `i` (for `i` in `0..6`) of `a`.
#[verifier::opaque]
pub open spec fn dg(a: nat, i: int) -> nat {
    if i <= 0 {
        a % 3
    } else if i == 1 {
        (a / 3) % 3
    } else if i == 2 {
        (a / 9) % 3
    } else if i == 3 {
        (a / 27) % 3
    } else if i == 4 {
        (a / 81) % 3
    } else {
        (a / 243) % 3
    }
}

/// The symbol whose digits are `e0, …, e5`.
pub open spec fn sym(e0: nat, e1: nat, e2: nat, e3: nat, e4: nat, e5: nat) -> nat {
    e0 + 3 * e1 + 9 * e2 + 27 * e3 + 81 * e4 + 243 * e5
}

/// `x = 3·(x / 3) + x % 3` and `x / 3 / c = x / (3c)`.
proof fn lemma_step(x: nat, c: nat)
    requires
        c > 0,
    ensures
        x == 3 * (x / 3) + x % 3,
        x % 3 < 3,
        (x / 3) / c == x / (3 * c),
{
    vstd::arithmetic::div_mod::lemma_fundamental_div_mod(x as int, 3);
    vstd::arithmetic::div_mod::lemma_div_denominator(x as int, 3, c as int);
}

/// A symbol is the sum of its digits' values.
pub proof fn lemma_of_digits(a: nat)
    ensures
        a % 729 == sym(dg(a, 0), dg(a, 1), dg(a, 2), dg(a, 3), dg(a, 4), dg(a, 5)),
        a / 729 * 729 + sym(dg(a, 0), dg(a, 1), dg(a, 2), dg(a, 3), dg(a, 4), dg(a, 5)) == a,
{
    reveal(dg);
    lemma_step(a, 3);
    lemma_step(a / 3, 3);
    lemma_step(a / 9, 3);
    lemma_step(a / 27, 3);
    lemma_step(a / 81, 3);
    lemma_step(a / 243, 3);
    vstd::arithmetic::div_mod::lemma_div_denominator(a as int, 9, 3);
    vstd::arithmetic::div_mod::lemma_div_denominator(a as int, 27, 3);
    vstd::arithmetic::div_mod::lemma_div_denominator(a as int, 81, 3);
    vstd::arithmetic::div_mod::lemma_div_denominator(a as int, 243, 3);
    let s = sym(dg(a, 0), dg(a, 1), dg(a, 2), dg(a, 3), dg(a, 4), dg(a, 5));
    assert(a == 729 * (a / 729) + s);
    vstd::arithmetic::div_mod::lemma_fundamental_div_mod_converse(a as int, 729, (a / 729) as int, s as int);
}

/// The digits of a symbol built from digits.
pub proof fn lemma_digits_of(e0: nat, e1: nat, e2: nat, e3: nat, e4: nat, e5: nat)
    requires
        e0 < 3,
        e1 < 3,
        e2 < 3,
        e3 < 3,
        e4 < 3,
        e5 < 3,
    ensures
        sym(e0, e1, e2, e3, e4, e5) < 729,
        dg(sym(e0, e1, e2, e3, e4, e5), 0) == e0,
        dg(sym(e0, e1, e2, e3, e4, e5), 1) == e1,
        dg(sym(e0, e1, e2, e3, e4, e5), 2) == e2,
        dg(sym(e0, e1, e2, e3, e4, e5), 3) == e3,
        dg(sym(e0, e1, e2, e3, e4, e5), 4) == e4,
        dg(sym(e0, e1, e2, e3, e4, e5), 5) == e5,
{
    reveal(dg);
    let x = sym(e0, e1, e2, e3, e4, e5);
    let y1 = e1 + 3 * e2 + 9 * e3 + 27 * e4 + 81 * e5;
    let y2 = e2 + 3 * e3 + 9 * e4 + 27 * e5;
    let y3 = e3 + 3 * e4 + 9 * e5;
    let y4 = e4 + 3 * e5;
    vstd::arithmetic::div_mod::lemma_fundamental_div_mod_converse(x as int, 3, y1 as int, e0 as int);
    vstd::arithmetic::div_mod::lemma_fundamental_div_mod_converse(y1 as int, 3, y2 as int, e1 as int);
    vstd::arithmetic::div_mod::lemma_fundamental_div_mod_converse(y2 as int, 3, y3 as int, e2 as int);
    vstd::arithmetic::div_mod::lemma_fundamental_div_mod_converse(y3 as int, 3, y4 as int, e3 as int);
    vstd::arithmetic::div_mod::lemma_fundamental_div_mod_converse(y4 as int, 3, e5 as int, e4 as int);
    vstd::arithmetic::div_mod::lemma_fundamental_div_mod_converse(e5 as int, 3, 0, e5 as int);
    vstd::arithmetic::div_mod::lemma_div_denominator(x as int, 3, 3);
    vstd::arithmetic::div_mod::lemma_div_denominator(x as int, 9, 3);
    vstd::arithmetic::div_mod::lemma_div_denominator(x as int, 27, 3);
    vstd::arithmetic::div_mod::lemma_div_denominator(x as int, 81, 3);
}

/// Two symbols with the same six digits are equal.
pub proof fn lemma_eq_by_digits(x: nat, y: nat)
    requires
        x < 729,
        y < 729,
        dg(x, 0) == dg(y, 0),
        dg(x, 1) == dg(y, 1),
        dg(x, 2) == dg(y, 2),
        dg(x, 3) == dg(y, 3),
        dg(x, 4) == dg(y, 4),
        dg(x, 5) == dg(y, 5),
    ensures
        x == y,
{
    reveal(dg);
    lemma_of_digits(x);
    lemma_of_digits(y);
}

/// `x / 3 / 3 = x / 9`, and so on up to `x / 243`.
proof fn lemma_div_chain(x: nat)
    ensures
        x / 3 / 3 == x / 9,
        x / 9 / 3 == x / 27,
        x / 27 / 3 == x / 81,
        x / 81 / 3 == x / 243,
        x / 243 / 3 == x / 729,
{
    vstd::arithmetic::div_mod::lemma_div_denominator(x as int, 3, 3);
    vstd::arithmetic::div_mod::lemma_div_denominator(x as int, 9, 3);
    vstd::arithmetic::div_mod::lemma_div_denominator(x as int, 27, 3);
    vstd::arithmetic::div_mod::lemma_div_denominator(x as int, 81, 3);
    vstd::arithmetic::div_mod::lemma_div_denominator(x as int, 243, 3);
}

/// Digit `i` of a sum is the sum of the digits modulo 3.
pub proof fn lemma_add_dg(a: nat, b: nat)
    ensures
        gf_add(a, b) < 729,
        forall|i: int| 0 <= i < 6 ==> #[trigger] dg(gf_add(a, b), i) == (dg(a, i) + dg(b, i)) % 3,
{
    reveal(dg);
    reveal_with_fuel(digits_add, 7);
    lemma_div_chain(a);
    lemma_div_chain(b);
    lemma_digits_of(
        (dg(a, 0) + dg(b, 0)) % 3,
        (dg(a, 1) + dg(b, 1)) % 3,
        (dg(a, 2) + dg(b, 2)) % 3,
        (dg(a, 3) + dg(b, 3)) % 3,
        (dg(a, 4) + dg(b, 4)) % 3,
        (dg(a, 5) + dg(b, 5)) % 3,
    );
}

/// Digit `i` of a difference is the difference of the digits modulo 3.
pub proof fn lemma_sub_dg(a: nat, b: nat)
    ensures
        gf_sub(a, b) < 729,
        forall|i: int| 0 <= i < 6 ==> #[trigger] dg(gf_sub(a, b), i) == (dg(a, i) + 3 - dg(b, i)) % 3,
{
    reveal(dg);
    reveal_with_fuel(digits_sub, 7);
    lemma_div_chain(a);
    lemma_div_chain(b);
    lemma_digits_of(
        ((dg(a, 0) + 3 - dg(b, 0)) % 3) as nat,
        ((dg(a, 1) + 3 - dg(b, 1)) % 3) as nat,
        ((dg(a, 2) + 3 - dg(b, 2)) % 3) as nat,
        ((dg(a, 3) + 3 - dg(b, 3)) % 3) as nat,
        ((dg(a, 4) + 3 - dg(b, 4)) % 3) as nat,
        ((dg(a, 5) + 3 - dg(b, 5)) % 3) as nat,
    );
}

/// Multiplication by α moves digit `i` to `i + 1` and folds digit 5 back
/// into digits 0 and 1 (`x⁶ = 2x + 1`).
pub proof fn lemma_xtime_dg(a: nat)
    ensures
        gf_xtime(a) < 729,
        dg(gf_xtime(a), 0) == dg(a, 5),
        dg(gf_xtime(a), 1) == (dg(a, 0) + 2 * dg(a, 5)) % 3,
        dg(gf_xtime(a), 2) == dg(a, 1),
        dg(gf_xtime(a), 3) == dg(a, 2),
        dg(gf_xtime(a), 4) == dg(a, 3),
        dg(gf_xtime(a), 5) == dg(a, 4),
{
    reveal(dg);
    lemma_of_digits(a);
    lemma_div_chain(a);
    let low = dg(a, 0) + 3 * dg(a, 1) + 9 * dg(a, 2) + 27 * dg(a, 3) + 81 * dg(a, 4);
    assert(a == 243 * (3 * (a / 729) + dg(a, 5)) + low);
    vstd::arithmetic::div_mod::lemma_fundamental_div_mod_converse(
        a as int,
        243,
        (3 * (a / 729) + dg(a, 5)) as int,
        low as int,
    );
    let mid = dg(a, 1) + 3 * dg(a, 2) + 9 * dg(a, 3) + 27 * dg(a, 4);
    vstd::arithmetic::div_mod::lemma_fundamental_div_mod_converse(low as int, 3, mid as int, dg(a, 0) as int);
    lemma_digits_of(dg(a, 5), (dg(a, 0) + 2 * dg(a, 5)) % 3, dg(a, 1), dg(a, 2), dg(a, 3), dg(a, 4));
}

/// Scaling by `c` multiplies every digit by `c` modulo 3.
pub proof fn lemma_scale_dg(a: nat, c: nat)
    ensures
        gf_scale(a, c) < 729,
        forall|i: int| 0 <= i < 6 ==> #[trigger] dg(gf_scale(a, c), i) == ((c % 3) * dg(a, i)) % 3,
{
    reveal(dg);
    lemma_add_dg(a, 0);
    lemma_add_dg(a, a);
    lemma_digits_of(0, 0, 0, 0, 0, 0);
    assert forall|i: int| 0 <= i < 6 implies #[trigger] dg(gf_scale(a, c), i) == ((c % 3) * dg(a, i)) % 3 by {
        assert(dg(a, i) < 3);
        assert(dg(0, i) == 0);
        if c % 3 == 0 {
            assert(gf_scale(a, c) == 0);
        } else if c % 3 == 1 {
            assert(gf_scale(a, c) == gf_add(a, 0));
        } else {
            assert(gf_scale(a, c) == gf_add(a, a));
        }
    }
}

/// Every digit is below 3.
pub proof fn lemma_dg_bound(a: nat)
    ensures
        forall|i: int| 0 <= i < 6 ==> #[trigger] dg(a, i) < 3,
{
    reveal(dg);
}

proof fn lemma_m3_assoc(x: nat, y: nat, z: nat)
    requires
        x < 3,
        y < 3,
        z < 3,
    ensures
        ((x + y) % 3 + z) % 3 == (x + (y + z) % 3) % 3,
{
}

proof fn lemma_m3_xtime(x0: nat, x5: nat, y0: nat, y5: nat)
    requires
        x0 < 3,
        x5 < 3,
        y0 < 3,
        y5 < 3,
    ensures
        ((x0 + y0) % 3 + 2 * ((x5 + y5) % 3)) % 3 == ((x0 + 2 * x5) % 3 + (y0 + 2 * y5) % 3) % 3,
{
    assert(((x0 + y0) % 3 + 2 * ((x5 + y5) % 3)) % 3 == ((x0 + 2 * x5) % 3 + (y0 + 2 * y5) % 3) % 3) by (nonlinear_arith)
        requires
            x0 < 3,
            x5 < 3,
            y0 < 3,
            y5 < 3,
    ;
}

proof fn lemma_m3_sub(x: nat, y: nat)
    requires
        x < 3,
        y < 3,
    ensures
        ((x + 3 - y) % 3) as nat == (x + ((0 + 3 - y) % 3) as nat) % 3,
        ((0 + 3 - x) % 3) as nat == (2 * x) % 3,
        (x + ((0 + 3 - x) % 3) as nat) % 3 == 0,
        (((0 + 3 - x) % 3) as nat + x) % 3 == 0,
{
}

proof fn lemma_m3_scale_add(c: nat, x: nat, y: nat)
    requires
        c < 3,
        x < 3,
        y < 3,
    ensures
        (c * ((x + y) % 3)) % 3 == ((c * x) % 3 + (c * y) % 3) % 3,
{
    assert((c * ((x + y) % 3)) % 3 == ((c * x) % 3 + (c * y) % 3) % 3) by (nonlinear_arith)
        requires
            c < 3,
            x < 3,
            y < 3,
    ;
}

proof fn lemma_m3_scale_sum(c1: nat, c2: nat, x: nat)
    requires
        c1 < 3,
        c2 < 3,
        x < 3,
    ensures
        (((c1 + c2) % 3) * x) % 3 == ((c1 * x) % 3 + (c2 * x) % 3) % 3,
{
    assert((((c1 + c2) % 3) * x) % 3 == ((c1 * x) % 3 + (c2 * x) % 3) % 3) by (nonlinear_arith)
        requires
            c1 < 3,
            c2 < 3,
            x < 3,
    ;
}

proof fn lemma_m3_scale_xtime(c: nat, x0: nat, x5: nat)
    requires
        c < 3,
        x0 < 3,
        x5 < 3,
    ensures
        c * ((x0 + 2 * x5) % 3) % 3 == (c * x0 % 3 + 2 * (c * x5 % 3)) % 3,
{
    assert(c * ((x0 + 2 * x5) % 3) % 3 == (c * x0 % 3 + 2 * (c * x5 % 3)) % 3) by (nonlinear_arith)
        requires
            c < 3,
            x0 < 3,
            x5 < 3,
    ;
}

/// Addition is commutative.
pub proof fn lemma_add_comm(a: nat, b: nat)
    ensures
        gf_add(a, b) == gf_add(b, a),
{
    lemma_add_dg(a, b);
    lemma_add_dg(b, a);
    lemma_eq_by_digits(gf_add(a, b), gf_add(b, a));
}

/// Addition is associative.
pub proof fn lemma_add_assoc(a: nat, b: nat, c: nat)
    ensures
        gf_add(gf_add(a, b), c) == gf_add(a, gf_add(b, c)),
{
    lemma_add_dg(a, b);
    lemma_add_dg(b, c);
    lemma_add_dg(gf_add(a, b), c);
    lemma_add_dg(a, gf_add(b, c));
    lemma_dg_bound(a);
    lemma_dg_bound(b);
    lemma_dg_bound(c);
    assert forall|i: int| 0 <= i < 6 implies #[trigger] dg(gf_add(gf_add(a, b), c), i) == dg(gf_add(a, gf_add(b, c)), i) by {
        lemma_m3_assoc(dg(a, i), dg(b, i), dg(c, i));
    }
    lemma_eq_by_digits(gf_add(gf_add(a, b), c), gf_add(a, gf_add(b, c)));
}

/// Zero is the neutral element (up to reduction below 729).
pub proof fn lemma_add_zero(a: nat)
    ensures
        gf_add(a, 0) == a % 729,
        gf_add(0, a) == a % 729,
        a < 729 ==> gf_add(a, 0) == a && gf_add(0, a) == a,
{
    lemma_add_dg(a, 0);
    lemma_add_dg(0, a);
    lemma_of_digits(a);
    lemma_dg_bound(a);
    lemma_digits_of(0, 0, 0, 0, 0, 0);
    lemma_digits_of(dg(a, 0), dg(a, 1), dg(a, 2), dg(a, 3), dg(a, 4), dg(a, 5));
    lemma_eq_by_digits(gf_add(a, 0), a % 729);
    lemma_eq_by_digits(gf_add(0, a), a % 729);
}

/// `a + (0 − a) = 0`.
pub proof fn lemma_add_neg(a: nat)
    ensures
        gf_add(a, gf_sub(0, a)) == 0,
        gf_add(gf_sub(0, a), a) == 0,
{
    lemma_sub_dg(0, a);
    lemma_add_dg(a, gf_sub(0, a));
    lemma_add_dg(gf_sub(0, a), a);
    lemma_digits_of(0, 0, 0, 0, 0, 0);
    lemma_dg_bound(a);
    assert forall|i: int| 0 <= i < 6 implies #[trigger] dg(gf_add(a, gf_sub(0, a)), i) == 0 && dg(gf_add(gf_sub(0, a), a), i) == 0 by {
        lemma_m3_sub(dg(a, i), dg(a, i));
        assert(dg(0, i) == 0);
    }
    lemma_eq_by_digits(gf_add(a, gf_sub(0, a)), 0);
    lemma_eq_by_digits(gf_add(gf_sub(0, a), a), 0);
}

/// Subtraction adds the negation.
pub proof fn lemma_sub_add_neg(a: nat, b: nat)
    ensures
        gf_sub(a, b) == gf_add(a, gf_sub(0, b)),
{
    lemma_sub_dg(a, b);
    lemma_sub_dg(0, b);
    lemma_add_dg(a, gf_sub(0, b));
    lemma_dg_bound(a);
    lemma_dg_bound(b);
    lemma_digits_of(0, 0, 0, 0, 0, 0);
    assert forall|i: int| 0 <= i < 6 implies #[trigger] dg(gf_sub(a, b), i) == dg(gf_add(a, gf_sub(0, b)), i) by {
        lemma_m3_sub(dg(a, i), dg(b, i));
        assert(dg(0, i) == 0);
    }
    lemma_eq_by_digits(gf_sub(a, b), gf_add(a, gf_sub(0, b)));
}

/// Negation is scaling by 2.
pub proof fn lemma_neg_scale(a: nat)
    ensures
        gf_sub(0, a) == gf_scale(a, 2),
{
    lemma_sub_dg(0, a);
    lemma_scale_dg(a, 2);
    lemma_dg_bound(a);
    lemma_digits_of(0, 0, 0, 0, 0, 0);
    assert forall|i: int| 0 <= i < 6 implies #[trigger] dg(gf_sub(0, a), i) == dg(gf_scale(a, 2), i) by {
        lemma_m3_sub(dg(a, i), dg(a, i));
        assert(dg(0, i) == 0);
    }
    lemma_eq_by_digits(gf_sub(0, a), gf_scale(a, 2));
}

/// Multiplication by α is additive.
pub proof fn lemma_xtime_add(a: nat, b: nat)
    ensures
        gf_xtime(gf_add(a, b)) == gf_add(gf_xtime(a), gf_xtime(b)),
{
    lemma_add_dg(a, b);
    lemma_xtime_dg(a);
    lemma_xtime_dg(b);
    lemma_xtime_dg(gf_add(a, b));
    lemma_add_dg(gf_xtime(a), gf_xtime(b));
    lemma_dg_bound(a);
    lemma_dg_bound(b);
    lemma_m3_xtime(dg(a, 0), dg(a, 5), dg(b, 0), dg(b, 5));
    lemma_eq_by_digits(gf_xtime(gf_add(a, b)), gf_add(gf_xtime(a), gf_xtime(b)));
}

/// Scaling is additive in the scaled element.
pub proof fn lemma_scale_add(a: nat, b: nat, c: nat)
    ensures
        gf_scale(gf_add(a, b), c) == gf_add(gf_scale(a, c), gf_scale(b, c)),
{
    lemma_add_dg(a, b);
    lemma_scale_dg(a, c);
    lemma_scale_dg(b, c);
    lemma_scale_dg(gf_add(a, b), c);
    lemma_add_dg(gf_scale(a, c), gf_scale(b, c));
    lemma_dg_bound(a);
    lemma_dg_bound(b);
    assert forall|i: int| 0 <= i < 6 implies #[trigger] dg(gf_scale(gf_add(a, b), c), i) == dg(gf_add(gf_scale(a, c), gf_scale(b, c)), i) by {
        lemma_m3_scale_add(c % 3, dg(a, i), dg(b, i));
    }
    lemma_eq_by_digits(gf_scale(gf_add(a, b), c), gf_add(gf_scale(a, c), gf_scale(b, c)));
}

/// Scaling is additive in the scalar.
pub proof fn lemma_scale_sum(a: nat, c1: nat, c2: nat)
    ensures
        gf_scale(a, (c1 % 3 + c2 % 3) % 3) == gf_add(gf_scale(a, c1), gf_scale(a, c2)),
{
    lemma_scale_dg(a, c1);
    lemma_scale_dg(a, c2);
    lemma_scale_dg(a, (c1 % 3 + c2 % 3) % 3);
    lemma_add_dg(gf_scale(a, c1), gf_scale(a, c2));
    lemma_dg_bound(a);
    assert forall|i: int| 0 <= i < 6 implies #[trigger] dg(gf_scale(a, (c1 % 3 + c2 % 3) % 3), i) == dg(gf_add(gf_scale(a, c1), gf_scale(a, c2)), i) by {
        lemma_m3_scale_sum(c1 % 3, c2 % 3, dg(a, i));
    }
    lemma_eq_by_digits(gf_scale(a, (c1 % 3 + c2 % 3) % 3), gf_add(gf_scale(a, c1), gf_scale(a, c2)));
}

/// Scaling commutes with multiplication by α.
pub proof fn lemma_scale_xtime(a: nat, c: nat)
    ensures
        gf_scale(gf_xtime(a), c) == gf_xtime(gf_scale(a, c)),
{
    lemma_xtime_dg(a);
    lemma_scale_dg(a, c);
    lemma_scale_dg(gf_xtime(a), c);
    lemma_xtime_dg(gf_scale(a, c));
    lemma_dg_bound(a);
    lemma_m3_scale_xtime(c % 3, dg(a, 0), dg(a, 5));
    lemma_eq_by_digits(gf_scale(gf_xtime(a), c), gf_xtime(gf_scale(a, c)));
}

proof fn lemma_scalar_swap(c1: nat, c2: nat, x: nat)
    ensures
        (c2 % 3) * ((c1 % 3) * x % 3) % 3 == (c1 % 3) * ((c2 % 3) * x % 3) % 3,
{
    assert((c2 % 3) * ((c1 % 3) * x % 3) % 3 == (c1 % 3) * ((c2 % 3) * x % 3) % 3) by (nonlinear_arith);
}

/// Two scalings commute.
pub proof fn lemma_scale_scale(a: nat, c1: nat, c2: nat)
    ensures
        gf_scale(gf_scale(a, c1), c2) == gf_scale(gf_scale(a, c2), c1),
{
    lemma_scale_dg(a, c1);
    lemma_scale_dg(a, c2);
    lemma_scale_dg(gf_scale(a, c1), c2);
    lemma_scale_dg(gf_scale(a, c2), c1);
    lemma_scalar_swap(c1, c2, dg(a, 0));
    lemma_scalar_swap(c1, c2, dg(a, 1));
    lemma_scalar_swap(c1, c2, dg(a, 2));
    lemma_scalar_swap(c1, c2, dg(a, 3));
    lemma_scalar_swap(c1, c2, dg(a, 4));
    lemma_scalar_swap(c1, c2, dg(a, 5));
    lemma_eq_by_digits(gf_scale(gf_scale(a, c1), c2), gf_scale(gf_scale(a, c2), c1));
}

proof fn lemma_m3_swap4(p: nat, q: nat, r: nat, t: nat)
    requires
        p < 3,
        q < 3,
        r < 3,
        t < 3,
    ensures
        ((p + q) % 3 + (r + t) % 3) % 3 == ((p + r) % 3 + (q + t) % 3) % 3,
{
}

/// `(p + q) + (r + t) = (p + r) + (q + t)`.
pub proof fn lemma_add_swap4(p: nat, q: nat, r: nat, t: nat)
    ensures
        gf_add(gf_add(p, q), gf_add(r, t)) == gf_add(gf_add(p, r), gf_add(q, t)),
{
    lemma_add_dg(p, q);
    lemma_add_dg(r, t);
    lemma_add_dg(p, r);
    lemma_add_dg(q, t);
    lemma_add_dg(gf_add(p, q), gf_add(r, t));
    lemma_add_dg(gf_add(p, r), gf_add(q, t));
    lemma_dg_bound(p);
    lemma_dg_bound(q);
    lemma_dg_bound(r);
    lemma_dg_bound(t);
    assert forall|i: int| 0 <= i < 6 implies #[trigger] dg(gf_add(gf_add(p, q), gf_add(r, t)), i) == dg(
        gf_add(gf_add(p, r), gf_add(q, t)),
        i,
    ) by {
        lemma_m3_swap4(dg(p, i), dg(q, i), dg(r, i), dg(t, i));
    }
    lemma_eq_by_digits(gf_add(gf_add(p, q), gf_add(r, t)), gf_add(gf_add(p, r), gf_add(q, t)));
}

/// Zero stays zero under α and scaling.
pub proof fn lemma_zero_facts(c: nat)
    ensures
        gf_xtime(0) == 0,
        gf_scale(0, c) == 0,
        gf_add(0, 0) == 0,
{
    lemma_add_zero(0);
}

/// Horner's rule over the digits of zero gives zero.
proof fn lemma_mul_digits_zero(a: nat, k: nat)
    ensures
        mul_digits(a, 0, k) == 0,
    decreases k,
{
    lemma_zero_facts(0);
    if k > 0 {
        lemma_mul_digits_zero(a, (k - 1) as nat);
    }
}

/// Multiplication is additive in the left factor.
pub proof fn lemma_mul_add_left(a1: nat, a2: nat, b: nat, k: nat)
    ensures
        mul_digits(gf_add(a1, a2), b, k) == gf_add(mul_digits(a1, b, k), mul_digits(a2, b, k)),
    decreases k,
{
    if k == 0 {
        lemma_zero_facts(0);
    } else {
        let k1 = (k - 1) as nat;
        lemma_mul_add_left(a1, a2, b / 3, k1);
        lemma_scale_add(a1, a2, b % 3);
        lemma_xtime_add(mul_digits(a1, b / 3, k1), mul_digits(a2, b / 3, k1));
        lemma_add_swap4(
            gf_scale(a1, b % 3),
            gf_scale(a2, b % 3),
            gf_xtime(mul_digits(a1, b / 3, k1)),
            gf_xtime(mul_digits(a2, b / 3, k1)),
        );
    }
}

/// Multiplying the left factor by α multiplies the product by α.
pub proof fn lemma_mul_xtime_left(a: nat, b: nat, k: nat)
    ensures
        mul_digits(gf_xtime(a), b, k) == gf_xtime(mul_digits(a, b, k)),
    decreases k,
{
    if k == 0 {
        lemma_zero_facts(0);
    } else {
        let k1 = (k - 1) as nat;
        lemma_mul_xtime_left(a, b / 3, k1);
        lemma_scale_xtime(a, b % 3);
        lemma_xtime_add(gf_scale(a, b % 3), gf_xtime(mul_digits(a, b / 3, k1)));
    }
}

/// Scaling the left factor scales the product.
pub proof fn lemma_mul_scale_left(a: nat, c: nat, b: nat, k: nat)
    ensures
        mul_digits(gf_scale(a, c), b, k) == gf_scale(mul_digits(a, b, k), c),
    decreases k,
{
    if k == 0 {
        lemma_zero_facts(c);
    } else {
        let k1 = (k - 1) as nat;
        lemma_mul_scale_left(a, c, b / 3, k1);
        lemma_scale_scale(a, c, b % 3);
        lemma_scale_xtime(mul_digits(a, b / 3, k1), c);
        lemma_scale_add(gf_scale(a, b % 3), gf_xtime(mul_digits(a, b / 3, k1)), c);
    }
}

/// Multiplication is additive in the right factor.
pub proof fn lemma_mul_add_right_digits(a: nat, b1: nat, b2: nat, k: nat)
    ensures
        mul_digits(a, digits_add(b1, b2, k), k) == gf_add(mul_digits(a, b1, k), mul_digits(a, b2, k)),
    decreases k,
{
    if k == 0 {
        lemma_zero_facts(0);
    } else {
        let k1 = (k - 1) as nat;
        let x = digits_add(b1, b2, k);
        let d = (b1 % 3 + b2 % 3) % 3;
        let rest = digits_add(b1 / 3, b2 / 3, k1);
        vstd::arithmetic::div_mod::lemma_fundamental_div_mod_converse(x as int, 3, rest as int, d as int);
        lemma_mul_add_right_digits(a, b1 / 3, b2 / 3, k1);
        lemma_scale_sum(a, b1, b2);
        lemma_xtime_add(mul_digits(a, b1 / 3, k1), mul_digits(a, b2 / 3, k1));
        lemma_add_swap4(
            gf_scale(a, b1 % 3),
            gf_scale(a, b2 % 3),
            gf_xtime(mul_digits(a, b1 / 3, k1)),
            gf_xtime(mul_digits(a, b2 / 3, k1)),
        );
    }
}

/// Digits beyond the value of the right factor contribute nothing.
proof fn lemma_mul_digits_extra(a: nat, y: nat, k: nat)
    requires
        y < pow3(k),
    ensures
        mul_digits(a, y, k + 1) == mul_digits(a, y, k),
    decreases k,
{
    if k == 0 {
        assert(y == 0);
        lemma_zero_facts(0);
        lemma_scale_dg(a, 0);
        assert(gf_scale(a, 0) == 0);
    } else {
        assert(y / 3 < pow3((k - 1) as nat));
        lemma_mul_digits_extra(a, y / 3, (k - 1) as nat);
    }
}

/// Horner's step for a field element `b`: `a·b = a·b₀ + α·(a·(b / 3))`.
pub proof fn lemma_mul_step(a: nat, b: nat)
    requires
        b < 729,
    ensures
        gf_mul(a, b) == gf_add(gf_scale(a, b % 3), gf_xtime(gf_mul(a, b / 3))),
{
    lemma_pow3_small();
    lemma_mul_digits_extra(a, b / 3, 5);
}

/// A field element is its low digit plus α times the rest.
pub proof fn lemma_decompose(a: nat)
    requires
        a < 729,
    ensures
        a == gf_add(a % 3, gf_xtime(a / 3)),
{
    let y = a / 3;
    lemma_xtime_dg(y);
    lemma_add_dg(a % 3, gf_xtime(y));
    lemma_dg_bound(a);
    lemma_dg_bound(y);
    lemma_div_chain(a);
    vstd::arithmetic::div_mod::lemma_div_denominator(a as int, 3, 9);
    vstd::arithmetic::div_mod::lemma_div_denominator(a as int, 3, 27);
    vstd::arithmetic::div_mod::lemma_div_denominator(a as int, 3, 81);
    vstd::arithmetic::div_mod::lemma_div_denominator(a as int, 3, 243);
    assert(dg(y, 0) == dg(a, 1) && dg(y, 1) == dg(a, 2) && dg(y, 2) == dg(a, 3) && dg(y, 3) == dg(a, 4) && dg(y, 4)
        == dg(a, 5) && dg(y, 5) == 0) by {
        reveal(dg);
    }
    assert(dg(a % 3, 0) == dg(a, 0) && dg(a % 3, 1) == 0 && dg(a % 3, 2) == 0 && dg(a % 3, 3) == 0 && dg(a % 3, 4) == 0
        && dg(a % 3, 5) == 0) by {
        reveal(dg);
    }
    lemma_eq_by_digits(a, gf_add(a % 3, gf_xtime(a / 3)));
}

/// The product of two GF(3) scalars.
proof fn lemma_scale_small(x: nat, y: nat)
    requires
        x < 3,
        y < 3,
    ensures
        gf_scale(x, y) == (x * y) % 3,
        gf_scale(y, x) == (x * y) % 3,
{
    lemma_digits_of(x, 0, 0, 0, 0, 0);
    lemma_digits_of(y, 0, 0, 0, 0, 0);
    lemma_digits_of((x * y) % 3, 0, 0, 0, 0, 0);
    lemma_scale_dg(x, y);
    lemma_scale_dg(y, x);
    assert((y * x) % 3 == (x * y) % 3) by (nonlinear_arith);
    lemma_eq_by_digits(gf_scale(x, y), (x * y) % 3);
    lemma_eq_by_digits(gf_scale(y, x), (x * y) % 3);
}

/// A scalar times an element is the element scaled.
pub proof fn lemma_mul_scalar_left(c: nat, a: nat)
    requires
        c < 3,
        a < 729,
    ensures
        gf_mul(c, a) == gf_scale(a, c),
    decreases a,
{
    if a == 0 {
        lemma_mul_digits_zero(c, 6);
        lemma_zero_facts(c);
    } else {
        lemma_mul_step(c, a);
        lemma_mul_scalar_left(c, a / 3);
        lemma_scale_small(c, a % 3);
        lemma_decompose(a);
        lemma_scale_add(a % 3, gf_xtime(a / 3), c);
        lemma_scale_xtime(a / 3, c);
    }
}

/// Multiplication is commutative.
pub proof fn lemma_mul_comm(a: nat, b: nat)
    requires
        a < 729,
        b < 729,
    ensures
        gf_mul(a, b) == gf_mul(b, a),
    decreases b,
{
    if b == 0 {
        lemma_mul_by_zero(a);
        lemma_mul_scalar_left(0, a);
        lemma_zero_facts(0);
        assert(gf_scale(a, 0) == 0) by {
            lemma_scale_dg(a, 0);
            lemma_digits_of(0, 0, 0, 0, 0, 0);
            lemma_eq_by_digits(gf_scale(a, 0), 0);
        }
    } else {
        lemma_mul_step(a, b);
        lemma_mul_comm(a, b / 3);
        lemma_decompose(b);
        lemma_mul_add_left(b % 3, gf_xtime(b / 3), a, 6);
        lemma_mul_scalar_left(b % 3, a);
        lemma_mul_xtime_left(b / 3, a, 6);
    }
}

/// Multiplying the right factor by α multiplies the product by α.
pub proof fn lemma_mul_xtime_right(a: nat, y: nat)
    requires
        a < 729,
        y < 729,
    ensures
        gf_mul(a, gf_xtime(y)) == gf_xtime(gf_mul(a, y)),
{
    lemma_xtime_dg(y);
    lemma_mul_comm(a, gf_xtime(y));
    lemma_mul_xtime_left(y, a, 6);
    lemma_mul_comm(y, a);
}

/// Scaling the right factor scales the product.
pub proof fn lemma_mul_scale_right(a: nat, y: nat, c: nat)
    requires
        a < 729,
        y < 729,
    ensures
        gf_mul(a, gf_scale(y, c)) == gf_scale(gf_mul(a, y), c),
{
    lemma_scale_dg(y, c);
    lemma_mul_comm(a, gf_scale(y, c));
    lemma_mul_scale_left(y, c, a, 6);
    lemma_mul_comm(y, a);
}

/// Multiplication distributes over addition.
pub proof fn lemma_mul_distrib(a: nat, b: nat, c: nat)
    ensures
        gf_mul(a, gf_add(b, c)) == gf_add(gf_mul(a, b), gf_mul(a, c)),
        gf_mul(gf_add(b, c), a) == gf_add(gf_mul(b, a), gf_mul(c, a)),
{
    lemma_mul_add_right_digits(a, b, c, 6);
    lemma_mul_add_left(b, c, a, 6);
}

/// Multiplication is associative.
pub proof fn lemma_mul_assoc(a: nat, b: nat, c: nat)
    requires
        a < 729,
        b < 729,
        c < 729,
    ensures
        gf_mul(gf_mul(a, b), c) == gf_mul(a, gf_mul(b, c)),
    decreases c,
{
    lemma_gf_ranges(a, b);
    if c == 0 {
        lemma_mul_by_zero(b);
        lemma_mul_by_zero(a);
        lemma_mul_by_zero(gf_mul(a, b));
    } else {
        lemma_mul_assoc(a, b, c / 3);
        lemma_mul_step(b, c);
        lemma_mul_step(gf_mul(a, b), c);
        lemma_gf_ranges(b, c / 3);
        lemma_gf_ranges(b, c % 3);
        lemma_mul_distrib(a, gf_scale(b, c % 3), gf_xtime(gf_mul(b, c / 3)));
        lemma_mul_scale_right(a, b, c % 3);
        lemma_mul_xtime_right(a, gf_mul(b, c / 3));
    }
}

/// One is the multiplicative identity.
pub proof fn lemma_mul_one(a: nat)
    requires
        a < 729,
    ensures
        gf_mul(a, 1) == a,
        gf_mul(1, a) == a,
{
    lemma_mul_step(a, 1);
    lemma_mul_by_zero(a);
    lemma_zero_facts(0);
    lemma_add_zero(a);
    lemma_add_zero(gf_scale(a, 1));
    lemma_mul_comm(a, 1);
}

/// Zero times anything is zero.
pub proof fn lemma_mul_zero(a: nat)
    requires
        a < 729,
    ensures
        gf_mul(a, 0) == 0,
        gf_mul(0, a) == 0,
{
    lemma_mul_by_zero(a);
    lemma_mul_comm(a, 0);
}

} // verus!
