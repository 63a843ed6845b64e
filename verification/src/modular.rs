//! Congruences modulo 3 and dot products of trit rows, used to reason about
//! linear systems over GF(3).
use vstd::prelude::*;
use vstd::arithmetic::div_mod::{
    lemma_fundamental_div_mod, lemma_fundamental_div_mod_converse, lemma_mod_multiples_basic,
};

verus! {

/// `a ≡ b (mod 3)`.
pub open spec fn cong3(a: int, b: int) -> bool {
    (a - b) % 3 == 0
}

/// Entry `c` of the row that starts at `base`, reduced modulo 3.
pub open spec fn entry3(d: Seq<u8>, base: int, c: int) -> int {
    (d[base + c] % 3) as int
}

/// `Σ_{lo ≤ c < hi} entry3(d, base, c) · x[c]`.
pub open spec fn row_dot(d: Seq<u8>, base: int, x: Seq<int>, lo: int, hi: int) -> int
    decreases hi - lo,
{
    if hi <= lo {
        0
    } else {
        row_dot(d, base, x, lo, hi - 1) + entry3(d, base, hi - 1) * x[hi - 1]
    }
}

pub proof fn lemma_cong3_refl(a: int)
    ensures
        cong3(a, a),
{
}

pub proof fn lemma_cong3_symm(a: int, b: int)
    requires
        cong3(a, b),
    ensures
        cong3(b, a),
{
    lemma_fundamental_div_mod(a - b, 3);
    let q = (a - b) / 3;
    assert(b - a == (-q) * 3);
    lemma_mod_multiples_basic(-q, 3);
}

pub proof fn lemma_cong3_trans(a: int, b: int, c: int)
    requires
        cong3(a, b),
        cong3(b, c),
    ensures
        cong3(a, c),
{
    lemma_fundamental_div_mod(a - b, 3);
    lemma_fundamental_div_mod(b - c, 3);
    let q1 = (a - b) / 3;
    let q2 = (b - c) / 3;
    assert(a - c == (q1 + q2) * 3);
    lemma_mod_multiples_basic(q1 + q2, 3);
}

pub proof fn lemma_cong3_add(a: int, b: int, c: int, d: int)
    requires
        cong3(a, b),
        cong3(c, d),
    ensures
        cong3(a + c, b + d),
{
    lemma_fundamental_div_mod(a - b, 3);
    lemma_fundamental_div_mod(c - d, 3);
    let q1 = (a - b) / 3;
    let q2 = (c - d) / 3;
    assert((a + c) - (b + d) == (q1 + q2) * 3);
    lemma_mod_multiples_basic(q1 + q2, 3);
}

pub proof fn lemma_cong3_mul(a: int, b: int, k: int)
    requires
        cong3(a, b),
    ensures
        cong3(a * k, b * k),
        cong3(k * a, k * b),
{
    lemma_fundamental_div_mod(a - b, 3);
    let q = (a - b) / 3;
    assert(a * k - b * k == (q * k) * 3) by (nonlinear_arith)
        requires
            a - b == 3 * q,
    ;
    assert(k * a - k * b == (q * k) * 3) by (nonlinear_arith)
        requires
            a - b == 3 * q,
    ;
    lemma_mod_multiples_basic(q * k, 3);
}

/// Congruence is equality of remainders.
pub proof fn lemma_cong3_mod(a: int, b: int)
    ensures
        cong3(a, b) <==> a % 3 == b % 3,
{
    lemma_fundamental_div_mod(a, 3);
    lemma_fundamental_div_mod(b, 3);
    lemma_fundamental_div_mod(a - b, 3);
    let qa = a / 3;
    let qb = b / 3;
    let ra = a % 3;
    let rb = b % 3;
    if a % 3 == b % 3 {
        assert(a - b == (qa - qb) * 3);
        lemma_mod_multiples_basic(qa - qb, 3);
    } else {
        if cong3(a, b) {
            let q = (a - b) / 3;
            assert(ra - rb == (q - qa + qb) * 3);
            assert(false) by (nonlinear_arith)
                requires
                    ra - rb == (q - qa + qb) * 3,
                    0 <= ra < 3,
                    0 <= rb < 3,
                    ra != rb,
            ;
        }
    }
}

/// A value in `0..3` is its own remainder.
pub proof fn lemma_small_cong3(a: int, b: int)
    requires
        0 <= a < 3,
        0 <= b < 3,
        cong3(a, b),
    ensures
        a == b,
{
    lemma_cong3_mod(a, b);
}

/// `x mod 3` is congruent to `x`.
pub proof fn lemma_mod_cong3(a: int)
    ensures
        cong3(a % 3, a),
        0 <= a % 3 < 3,
{
    lemma_cong3_mod(a % 3, a);
}

/// Splitting the range of a dot product.
pub proof fn lemma_dot_split(d: Seq<u8>, base: int, x: Seq<int>, lo: int, mid: int, hi: int)
    requires
        lo <= mid <= hi,
    ensures
        row_dot(d, base, x, lo, hi) == row_dot(d, base, x, lo, mid) + row_dot(d, base, x, mid, hi),
    decreases hi - mid,
{
    if hi > mid {
        lemma_dot_split(d, base, x, lo, mid, hi - 1);
    }
}

/// A dot product over entries that are all zero is zero.
pub proof fn lemma_dot_zero(d: Seq<u8>, base: int, x: Seq<int>, lo: int, hi: int)
    requires
        forall|c: int| lo <= c < hi ==> #[trigger] entry3(d, base, c) == 0,
    ensures
        row_dot(d, base, x, lo, hi) == 0,
    decreases hi - lo,
{
    if hi > lo {
        lemma_dot_zero(d, base, x, lo, hi - 1);
        assert(entry3(d, base, hi - 1) == 0);
    }
}

/// Dot products depend only on the entries and the values of `x` in the range.
pub proof fn lemma_dot_ext(
    d1: Seq<u8>,
    b1: int,
    x1: Seq<int>,
    d2: Seq<u8>,
    b2: int,
    x2: Seq<int>,
    lo: int,
    hi: int,
)
    requires
        forall|c: int| lo <= c < hi ==> #[trigger] entry3(d1, b1, c) == entry3(d2, b2, c),
        forall|c: int| lo <= c < hi ==> #[trigger] x1[c] == x2[c],
    ensures
        row_dot(d1, b1, x1, lo, hi) == row_dot(d2, b2, x2, lo, hi),
    decreases hi - lo,
{
    if hi > lo {
        lemma_dot_ext(d1, b1, x1, d2, b2, x2, lo, hi - 1);
        assert(x1[hi - 1] == x2[hi - 1]);
        assert(entry3(d1, b1, hi - 1) == entry3(d2, b2, hi - 1));
    }
}

/// Changing `x` where the row has a zero entry leaves the dot product unchanged.
pub proof fn lemma_dot_update_zero(d: Seq<u8>, base: int, x: Seq<int>, j: int, v: int, lo: int, hi: int)
    requires
        0 <= j < x.len(),
        0 <= lo,
        hi <= x.len(),
        lo <= j < hi ==> entry3(d, base, j) == 0,
    ensures
        row_dot(d, base, x.update(j, v), lo, hi) == row_dot(d, base, x, lo, hi),
    decreases hi - lo,
{
    if hi > lo {
        lemma_dot_update_zero(d, base, x, j, v, lo, hi - 1);
        if hi - 1 == j {
            assert(entry3(d, base, j) == 0);
        } else {
            assert(x.update(j, v)[hi - 1] == x[hi - 1]);
        }
    }
}

/// Linearity: a row that is entry-wise `α·u + β·v` (mod 3) has dot product
/// `α·(u·x) + β·(v·x)` (mod 3).
pub proof fn lemma_dot_lincomb(
    d1: Seq<u8>,
    b1: int,
    d2: Seq<u8>,
    b2: int,
    d3: Seq<u8>,
    b3: int,
    x: Seq<int>,
    lo: int,
    hi: int,
    alpha: int,
    beta: int,
)
    requires
        forall|c: int|
            lo <= c < hi ==> cong3(
                #[trigger] entry3(d3, b3, c),
                alpha * entry3(d1, b1, c) + beta * entry3(d2, b2, c),
            ),
    ensures
        cong3(
            row_dot(d3, b3, x, lo, hi),
            alpha * row_dot(d1, b1, x, lo, hi) + beta * row_dot(d2, b2, x, lo, hi),
        ),
    decreases hi - lo,
{
    if hi > lo {
        let c = hi - 1;
        lemma_dot_lincomb(d1, b1, d2, b2, d3, b3, x, lo, hi - 1, alpha, beta);
        let e1 = entry3(d1, b1, c);
        let e2 = entry3(d2, b2, c);
        let e3 = entry3(d3, b3, c);
        let p1 = row_dot(d1, b1, x, lo, c);
        let p2 = row_dot(d2, b2, x, lo, c);
        let p3 = row_dot(d3, b3, x, lo, c);
        assert(cong3(e3, alpha * e1 + beta * e2));
        lemma_cong3_mul(e3, alpha * e1 + beta * e2, x[c]);
        lemma_cong3_add(p3, alpha * p1 + beta * p2, e3 * x[c], (alpha * e1 + beta * e2) * x[c]);
        let xc = x[c];
        assert((alpha * e1 + beta * e2) * xc == alpha * (e1 * xc) + beta * (e2 * xc)) by (nonlinear_arith);
        assert(alpha * (p1 + e1 * xc) == alpha * p1 + alpha * (e1 * xc)) by (nonlinear_arith);
        assert(beta * (p2 + e2 * xc) == beta * p2 + beta * (e2 * xc)) by (nonlinear_arith);
    }
}

/// `r * w + c` with `c < w` names row `r` and column `c`.
pub proof fn lemma_index_row_col(r: int, c: int, w: int)
    requires
        0 <= c < w,
    ensures
        (r * w + c) / w == r,
        (r * w + c) % w == c,
{
    lemma_fundamental_div_mod_converse(r * w + c, w, r, c);
}

/// Indices of cells inside an `m × w` matrix lie inside its storage.
pub proof fn lemma_index_bound(r: int, c: int, m: int, w: int)
    requires
        0 <= r < m,
        0 <= c < w,
    ensures
        0 <= r * w + c < m * w,
        0 <= r * w,
        (r + 1) * w <= m * w,
{
    assert(r * w + c < m * w) by (nonlinear_arith)
        requires
            0 <= r < m,
            0 <= c < w,
    ;
    assert(0 <= r * w) by (nonlinear_arith)
        requires
            0 <= r,
            0 <= c < w,
    ;
    assert((r + 1) * w <= m * w) by (nonlinear_arith)
        requires
            0 <= r < m,
            0 <= c < w,
    ;
}

} // verus!
