//! Reed-Solomon codec over GF(3⁶).
//!
//! Codeword format: `c[0..parity]` is the parity, `c[parity..n]` the data;
//! the codeword polynomial `c(x) = Σ cᵢ xⁱ` is a multiple of the generator
//! `g(x) = ∏_{i=1}^{parity} (x − αⁱ)`. Encoding is polynomial long division;
//! decoding solves the key equation with Sugiyama's extended Euclidean
//! algorithm (errors and erasures), then locates the errors by Chien search
//! and corrects them with Forney's formula.
//!
//! Polynomials are coefficient vectors, lowest degree first.
use vstd::prelude::*;
use crate::gf3::{GF3, FIELD_ORDER, gf_add, gf_exp, gf_mul, gf_sub, spec_inv};

verus! {

// ---------------------------------------------------------------------------
// Polynomials as sequences of field elements
// ---------------------------------------------------------------------------

/// The coefficients of `s` as naturals.
pub open spec fn nats(s: Seq<u16>) -> Seq<nat> {
    Seq::new(s.len(), |i: int| s[i] as nat)
}

/// `p(x)` by Horner's rule: `p₀ + x·(p₁ + x·(p₂ + …))`.
pub open spec fn horner(p: Seq<nat>, x: nat) -> nat
    decreases p.len(),
{
    if p.len() == 0 {
        0
    } else {
        gf_add(gf_mul(horner(p.drop_first(), x), x), p[0])
    }
}

/// `Σ_{i < n, 0 ≤ k−i < |b|} aᵢ · b_{k−i}`, summed in increasing `i`.
pub open spec fn conv_upto(a: Seq<nat>, b: Seq<nat>, k: int, n: int) -> nat
    decreases n,
{
    if n <= 0 {
        0
    } else if 0 <= k - (n - 1) < b.len() {
        gf_add(conv_upto(a, b, k, n - 1), gf_mul(a[n - 1], b[k - (n - 1)]))
    } else {
        conv_upto(a, b, k, n - 1)
    }
}

/// The product of two polynomials (empty when either is empty).
pub open spec fn poly_product(a: Seq<nat>, b: Seq<nat>) -> Seq<nat> {
    if a.len() == 0 || b.len() == 0 {
        Seq::empty()
    } else {
        Seq::new((a.len() + b.len() - 1) as nat, |k: int| conv_upto(a, b, k, a.len() as int))
    }
}

/// The difference of two polynomials, as long as the longer one.
pub open spec fn poly_difference(a: Seq<nat>, b: Seq<nat>) -> Seq<nat> {
    let len = if a.len() >= b.len() { a.len() } else { b.len() };
    Seq::new(
        len,
        |i: int|
            if i < b.len() {
                gf_sub(if i < a.len() { a[i] } else { 0 }, b[i])
            } else {
                a[i]
            },
    )
}

/// The index of the highest nonzero coefficient among the first `n`, or 0.
pub open spec fn degree_upto(p: Seq<nat>, n: int) -> nat
    decreases n,
{
    if n <= 0 {
        0
    } else if p[n - 1] != 0 {
        (n - 1) as nat
    } else {
        degree_upto(p, n - 1)
    }
}

/// The degree of `p`: the index of its highest nonzero coefficient (0 for
/// the zero polynomial).
pub open spec fn degree(p: Seq<nat>) -> nat {
    degree_upto(p, p.len() as int)
}

/// `p` without its trailing zero coefficients (at least one coefficient
/// stays).
pub open spec fn trimmed(p: Seq<nat>) -> Seq<nat>
    decreases p.len(),
{
    if p.len() > 1 && p.last() == 0 {
        trimmed(p.drop_last())
    } else {
        p
    }
}

/// The formal derivative over GF(3): coefficient `k` is multiplied by
/// `k mod 3`.
pub open spec fn derivative(p: Seq<nat>) -> Seq<nat> {
    if p.len() <= 1 {
        seq![0]
    } else {
        Seq::new(
            (p.len() - 1) as nat,
            |i: int|
                if (i + 1) % 3 != 0 {
                    gf_mul(p[i + 1], ((i + 1) % 3) as nat)
                } else {
                    0
                },
        )
    }
}

/// `α^(−i)`.
pub open spec fn alpha_inv_pow(i: nat) -> nat {
    gf_exp(((728 - i % 728) % 728) as nat)
}

/// `α^(−i)` is a root of `loc`.
pub open spec fn is_locator_root(loc: Seq<nat>) -> spec_fn(usize) -> bool {
    |i: usize| horner(loc, alpha_inv_pow(i as nat)) == 0
}

/// The positions `i < n` with `loc(α^(−i)) = 0`, in increasing order.
pub open spec fn chien_roots(loc: Seq<nat>, n: nat) -> Seq<usize> {
    Seq::new(n, |i: int| i as usize).filter(is_locator_root(loc))
}

/// `g(x) · (x + c)`, computed coefficient by coefficient.
pub open spec fn times_root(g: Seq<nat>, c: nat) -> Seq<nat> {
    Seq::new(
        g.len() + 1,
        |k: int|
            {
                let hi = if k >= 1 { gf_add(0, g[k - 1]) } else { 0 };
                if k < g.len() {
                    gf_add(hi, gf_mul(c, g[k]))
                } else {
                    hi
                }
            },
    )
}

/// The generator `∏_{i=1}^{t} (x − αⁱ)`.
pub open spec fn generator(t: nat) -> Seq<nat>
    decreases t,
{
    if t == 0 {
        seq![1]
    } else {
        times_root(generator((t - 1) as nat), gf_sub(0, gf_exp(t % 728)))
    }
}

/// The syndromes `S_i = c(α^(i+1))` for `i < two_t`.
pub open spec fn syndromes(c: Seq<nat>, two_t: nat) -> Seq<nat> {
    Seq::new(two_t, |i: int| horner(c, gf_exp(((i + 1) % 728) as nat)))
}

/// The erasure locator `∏ (1 − α^pos · x)` over the erasure positions.
pub open spec fn erasure_locator(ps: Seq<usize>) -> Seq<nat>
    decreases ps.len(),
{
    if ps.len() == 0 {
        seq![1]
    } else {
        poly_product(erasure_locator(ps.drop_last()), seq![1, gf_sub(0, gf_exp(ps.last() as nat % 728))])
    }
}

// ---------------------------------------------------------------------------
// Polynomial arithmetic
// ---------------------------------------------------------------------------

/// `poly(x)` by Horner's rule.
pub fn poly_eval(gf: &GF3, poly: &[u16], x: u16) -> (r: u16)
    ensures
        r == horner(nats(poly@), x as nat),
        r < 729,
{
    let mut result: u16 = 0;
    let mut i = poly.len();
    while i > 0
        invariant
            i <= poly@.len(),
            result == horner(nats(poly@).subrange(i as int, poly@.len() as int), x as nat),
            result < 729,
        decreases i,
    {
        proof {
            let s = nats(poly@).subrange(i - 1, poly@.len() as int);
            assert(s.drop_first() =~= nats(poly@).subrange(i as int, poly@.len() as int));
        }
        result = gf.add(gf.mul(result, x), poly[i - 1]);
        i = i - 1;
    }
    proof {
        assert(nats(poly@).subrange(0, poly@.len() as int) =~= nats(poly@));
    }
    result
}

/// The product of two polynomials (empty when either is empty).
pub fn poly_mul(gf: &GF3, a: &[u16], b: &[u16]) -> (r: Vec<u16>)
    requires
        a@.len() + b@.len() <= usize::MAX,
    ensures
        nats(r@) == poly_product(nats(a@), nats(b@)),
        forall|k: int| 0 <= k < r@.len() ==> #[trigger] r@[k] < 729,
{
    if a.len() == 0 || b.len() == 0 {
        let r: Vec<u16> = Vec::new();
        proof {
            assert(nats(r@) =~= poly_product(nats(a@), nats(b@)));
        }
        return r;
    }
    let ghost na = nats(a@);
    let ghost nb = nats(b@);
    let len = a.len() + b.len() - 1;
    let mut result = vec![0u16; len];
    let mut i: usize = 0;
    while i < a.len()
        invariant
            na == nats(a@),
            nb == nats(b@),
            a@.len() >= 1,
            b@.len() >= 1,
            len == a@.len() + b@.len() - 1,
            0 <= i <= a@.len(),
            result@.len() == len,
            forall|k: int| 0 <= k < len ==> #[trigger] result@[k] as nat == conv_upto(na, nb, k, i as int),
            forall|k: int| 0 <= k < len ==> #[trigger] result@[k] < 729,
        decreases a@.len() - i,
    {
        let mut j: usize = 0;
        while j < b.len()
            invariant
                na == nats(a@),
                nb == nats(b@),
                len == a@.len() + b@.len() - 1,
                0 <= i < a@.len(),
                0 <= j <= b@.len(),
                result@.len() == len,
                forall|k: int|
                    0 <= k < len ==> #[trigger] result@[k] as nat == (if i <= k < i + j {
                        conv_upto(na, nb, k, i + 1)
                    } else {
                        conv_upto(na, nb, k, i as int)
                    }),
                forall|k: int| 0 <= k < len ==> #[trigger] result@[k] < 729,
            decreases b@.len() - j,
        {
            let v = gf.add(result[i + j], gf.mul(a[i], b[j]));
            result.set(i + j, v);
            j = j + 1;
        }
        proof {
            assert forall|k: int| 0 <= k < len implies #[trigger] result@[k] as nat == conv_upto(na, nb, k, i + 1) by {
                if !(i <= k < i + b@.len()) {
                    assert(conv_upto(na, nb, k, i + 1) == conv_upto(na, nb, k, i as int));
                }
            }
        }
        i = i + 1;
    }
    proof {
        assert(nats(result@) =~= poly_product(na, nb));
    }
    result
}

/// Polynomial subtraction `a(x) − b(x)`.
pub fn poly_sub(gf: &GF3, a: &[u16], b: &[u16]) -> (r: Vec<u16>)
    ensures
        nats(r@) == poly_difference(nats(a@), nats(b@)),
{
    let len = if a.len() >= b.len() { a.len() } else { b.len() };
    let mut result = vec![0u16; len];
    let mut i: usize = 0;
    while i < a.len()
        invariant
            len == (if a@.len() >= b@.len() { a@.len() } else { b@.len() }),
            0 <= i <= a@.len(),
            result@.len() == len,
            forall|k: int| 0 <= k < len ==> #[trigger] result@[k] == (if k < i { a@[k] } else { 0u16 }),
        decreases a@.len() - i,
    {
        result.set(i, a[i]);
        i = i + 1;
    }
    let mut i: usize = 0;
    while i < b.len()
        invariant
            len == (if a@.len() >= b@.len() { a@.len() } else { b@.len() }),
            0 <= i <= b@.len(),
            result@.len() == len,
            forall|k: int|
                0 <= k < len ==> #[trigger] result@[k] as nat == (if k < i {
                    gf_sub(if k < a@.len() { a@[k] as nat } else { 0 }, b@[k] as nat)
                } else if k < a@.len() {
                    a@[k] as nat
                } else {
                    0
                }),
        decreases b@.len() - i,
    {
        let v = gf.sub(result[i], b[i]);
        result.set(i, v);
        i = i + 1;
    }
    proof {
        assert(nats(result@) =~= poly_difference(nats(a@), nats(b@)));
    }
    result
}

/// Keep only the terms of degree below `n` (`poly mod xⁿ`).
pub fn poly_mod_xn(gf: &GF3, poly: &[u16], n: usize) -> (r: Vec<u16>)
    ensures
        r@ == poly@.subrange(0, if poly@.len() < n { poly@.len() as int } else { n as int }),
{
    let len = if poly.len() < n { poly.len() } else { n };
    let mut r: Vec<u16> = Vec::new();
    let mut i: usize = 0;
    while i < len
        invariant
            len <= poly@.len(),
            0 <= i <= len,
            r@ == poly@.subrange(0, i as int),
        decreases len - i,
    {
        r.push(poly[i]);
        proof {
            assert(r@ =~= poly@.subrange(0, i + 1));
        }
        i = i + 1;
    }
    r
}

/// Remove trailing zero coefficients, keeping at least one coefficient.
pub fn poly_trim(poly: &[u16]) -> (r: Vec<u16>)
    ensures
        nats(r@) == trimmed(nats(poly@)),
        r@ == poly@.subrange(0, r@.len() as int),
        r@.len() <= poly@.len(),
        poly@.len() >= 1 ==> r@.len() >= 1,
{
    let mut end = poly.len();
    assert(nats(poly@).subrange(0, end as int) =~= nats(poly@));
    while end > 1 && poly[end - 1] == 0
        invariant
            end <= poly@.len(),
            poly@.len() >= 1 ==> end >= 1,
            trimmed(nats(poly@)) == trimmed(nats(poly@).subrange(0, end as int)),
        decreases end,
    {
        proof {
            assert(nats(poly@).subrange(0, end as int).drop_last() =~= nats(poly@).subrange(0, end - 1));
        }
        end = end - 1;
    }
    let mut r: Vec<u16> = Vec::new();
    let mut i: usize = 0;
    while i < end
        invariant
            end <= poly@.len(),
            0 <= i <= end,
            r@ == poly@.subrange(0, i as int),
        decreases end - i,
    {
        r.push(poly[i]);
        proof {
            assert(r@ =~= poly@.subrange(0, i + 1));
        }
        i = i + 1;
    }
    proof {
        assert(nats(poly@).subrange(0, poly@.len() as int) =~= nats(poly@));
        assert(nats(r@) =~= nats(poly@).subrange(0, end as int));
    }
    r
}

/// The formal derivative over GF(3): coefficient `k` times `k mod 3`.
pub fn poly_formal_derivative(gf: &GF3, poly: &[u16]) -> (r: Vec<u16>)
    ensures
        nats(r@) == derivative(nats(poly@)),
        forall|k: int| 0 <= k < r@.len() ==> #[trigger] r@[k] < 729,
{
    if poly.len() <= 1 {
        let r = vec![0u16];
        proof {
            assert(nats(r@) =~= derivative(nats(poly@)));
        }
        return r;
    }
    let mut deriv = vec![0u16; poly.len() - 1];
    let mut i: usize = 1;
    while i < poly.len()
        invariant
            poly@.len() >= 2,
            1 <= i <= poly@.len(),
            deriv@.len() == poly@.len() - 1,
            forall|k: int|
                0 <= k < deriv@.len() ==> #[trigger] deriv@[k] as nat == (if k + 1 < i && (k + 1) % 3 != 0 {
                    gf_mul(poly@[k + 1] as nat, ((k + 1) % 3) as nat)
                } else {
                    0
                }),
            forall|k: int| 0 <= k < deriv@.len() ==> #[trigger] deriv@[k] < 729,
        decreases poly@.len() - i,
    {
        let k_mod3 = (i % 3) as u16;
        if k_mod3 != 0 {
            let v = gf.mul(poly[i], k_mod3);
            deriv.set(i - 1, v);
        }
        i = i + 1;
    }
    proof {
        assert(nats(deriv@) =~= derivative(nats(poly@)));
    }
    deriv
}

/// The index of the highest nonzero coefficient, or 0.
pub fn poly_degree(poly: &[u16]) -> (d: usize)
    ensures
        d == degree(nats(poly@)),
        d < poly@.len() || d == 0,
{
    let mut i = poly.len();
    while i > 0
        invariant
            i <= poly@.len(),
            degree(nats(poly@)) == degree_upto(nats(poly@), i as int),
        decreases i,
    {
        if poly[i - 1] != 0 {
            return i - 1;
        }
        i = i - 1;
    }
    0
}

/// The positions `i < n` where `locator(α^(−i)) = 0`, in increasing order.
#[verifier::spinoff_prover]
#[verifier::rlimit(40)]
pub fn chien_search(gf: &GF3, locator: &[u16], n: usize) -> (r: Vec<usize>)
    requires
        gf.wf(),
    ensures
        r@ == chien_roots(nats(locator@), n as nat),
        forall|k: int| 0 <= k < r@.len() ==> #[trigger] r@[k] < n,
        forall|k: int| 0 <= k < r@.len() ==> horner(nats(locator@), alpha_inv_pow(#[trigger] r@[k] as nat)) == 0,
        forall|k1: int, k2: int| 0 <= k1 < k2 < r@.len() ==> #[trigger] r@[k1] < #[trigger] r@[k2],
        forall|i: nat| i < n && horner(nats(locator@), #[trigger] alpha_inv_pow(i)) == 0 ==> r@.contains(i as usize),
{
    let mut positions: Vec<usize> = Vec::new();
    let mut i: usize = 0;
    while i < n
        invariant
            gf.wf(),
            0 <= i <= n,
            positions@ == chien_roots(nats(locator@), i as nat),
            forall|k: int| 0 <= k < positions@.len() ==> #[trigger] positions@[k] < i,
            forall|k: int|
                0 <= k < positions@.len() ==> horner(nats(locator@), alpha_inv_pow(#[trigger] positions@[k] as nat)) == 0,
            forall|k1: int, k2: int|
                0 <= k1 < k2 < positions@.len() ==> #[trigger] positions@[k1] < #[trigger] positions@[k2],
            forall|j: nat| j < i && horner(nats(locator@), #[trigger] alpha_inv_pow(j)) == 0 ==> positions@.contains(j as usize),
        decreases n - i,
    {
        let alpha_neg_i = if i == 0 { 1 } else { gf.exp(FIELD_ORDER - (i % FIELD_ORDER)) };
        proof {
            if i == 0 {
                assert(alpha_neg_i == alpha_inv_pow(0));
            } else {
                vstd::arithmetic::div_mod::lemma_mod_self_0(728);
                assert(alpha_neg_i == alpha_inv_pow(i as nat));
            }
        }
        proof {
            let f = |j: int| j as usize;
            let s1 = Seq::new((i + 1) as nat, f);
            assert(s1.drop_last() =~= Seq::new(i as nat, f));
            reveal(Seq::filter);
            assert(chien_roots(nats(locator@), (i + 1) as nat) == (if is_locator_root(nats(locator@))(i) {
                chien_roots(nats(locator@), i as nat).push(i)
            } else {
                chien_roots(nats(locator@), i as nat)
            }));
        }
        if poly_eval(gf, locator, alpha_neg_i) == 0 {
            let ghost old_pos = positions@;
            positions.push(i);
            proof {
                assert(positions@[positions@.len() - 1] == i);
                assert forall|j: nat| j < i + 1 && horner(nats(locator@), #[trigger] alpha_inv_pow(j)) == 0 implies positions@.contains(
                    j as usize,
                ) by {
                    if j < i {
                        assert(old_pos.contains(j as usize));
                        let w = choose|w: int| 0 <= w < old_pos.len() && old_pos[w] == j as usize;
                        assert(positions@[w] == j as usize);
                    }
                }
            }
        }
        i = i + 1;
    }
    positions
}

// ---------------------------------------------------------------------------
// Long division
// ---------------------------------------------------------------------------

/// Subtract `coeff · b(x) · xⁱ` from `rem`. The term at `i + bd` is the
/// leading one: `coeff` was chosen to cancel it, and it is stored as zero.
pub open spec fn eliminate(rem: Seq<nat>, b: Seq<nat>, coeff: nat, i: int, bd: int) -> Seq<nat> {
    Seq::new(
        rem.len(),
        |k: int|
            if k == i + bd {
                0
            } else if i <= k < i + bd {
                gf_sub(rem[k], gf_mul(coeff, b[k - i]))
            } else {
                rem[k]
            },
    )
}

/// Long division steps for quotient positions `i − 1` down to 0.
pub open spec fn div_steps(q: Seq<nat>, rem: Seq<nat>, b: Seq<nat>, inv: nat, bd: int, i: int) -> (Seq<nat>, Seq<nat>)
    decreases i,
{
    if i <= 0 {
        (q, rem)
    } else {
        let pos = i - 1;
        if pos + bd >= rem.len() {
            div_steps(q, rem, b, inv, bd, pos)
        } else {
            let coeff = gf_mul(rem[pos + bd], inv);
            div_steps(
                q.update(pos, coeff),
                if coeff != 0 {
                    eliminate(rem, b, coeff, pos, bd)
                } else {
                    rem.update(pos + bd, 0)
                },
                b,
                inv,
                bd,
                pos,
            )
        }
    }
}

/// Quotient and remainder of `a / b` by long division; when `deg a < deg b`
/// (or `b` is zero) the quotient is `[0]` and the remainder `a`.
pub open spec fn quot_rem(a: Seq<nat>, b: Seq<nat>) -> (Seq<nat>, Seq<nat>) {
    let ad = degree(a);
    let bd = degree(b);
    if ad < bd || b[bd as int] == 0 {
        (seq![0], a)
    } else {
        let ql = (ad - bd + 1) as nat;
        div_steps(Seq::new(ql, |k: int| 0), a, b, spec_inv(b[bd as int]), bd as int, ql as int)
    }
}

/// Every coefficient is a field element.
pub open spec fn small(p: Seq<u16>) -> bool {
    forall|k: int| 0 <= k < p.len() ==> #[trigger] p[k] < 729
}

/// Coefficients above the degree are zero, and the coefficient at the
/// degree is nonzero unless the polynomial is zero.
proof fn lemma_degree_facts(p: Seq<nat>, n: int)
    requires
        0 <= n <= p.len(),
    ensures
        degree_upto(p, n) < n || n == 0,
        forall|k: int| degree_upto(p, n) < k < n ==> #[trigger] p[k] == 0,
        n > 0 && p[degree_upto(p, n) as int] == 0 ==> forall|k: int| 0 <= k < n ==> #[trigger] p[k] == 0,
        degree_upto(p, n) > 0 ==> p[degree_upto(p, n) as int] != 0,
    decreases n,
{
    if n > 0 {
        lemma_degree_facts(p, n - 1);
    }
}

/// A polynomial whose coefficients from `m ≥ 1` on are zero has degree
/// below `m`.
proof fn lemma_degree_below(p: Seq<nat>, n: int, m: int)
    requires
        0 <= n <= p.len(),
        m >= 1,
        forall|k: int| m <= k < n ==> #[trigger] p[k] == 0,
    ensures
        degree_upto(p, n) < m,
    decreases n,
{
    if n > m {
        lemma_degree_below(p, n - 1, m);
    } else if n > 0 {
        lemma_degree_facts(p, n);
    }
}

/// A copy of a polynomial.
fn copy_poly(a: &[u16]) -> (r: Vec<u16>)
    ensures
        r@ == a@,
{
    let mut r: Vec<u16> = Vec::new();
    let mut i: usize = 0;
    while i < a.len()
        invariant
            0 <= i <= a@.len(),
            r@ == a@.subrange(0, i as int),
        decreases a@.len() - i,
    {
        r.push(a[i]);
        proof {
            assert(r@ =~= a@.subrange(0, i + 1));
        }
        i = i + 1;
    }
    proof {
        assert(r@ =~= a@);
    }
    r
}

/// Polynomial long division `a / b` → `(quotient, remainder)`.
pub fn poly_div(gf: &GF3, a: &[u16], b: &[u16]) -> (res: (Vec<u16>, Vec<u16>))
    requires
        b@.len() > 0,
    ensures
        (nats(res.0@), nats(res.1@)) == quot_rem(nats(a@), nats(b@)),
        res.1@.len() == a@.len(),
        res.0@.len() >= 1,
        small(res.0@),
        small(a@) ==> small(res.1@),
        degree(nats(a@)) >= degree(nats(b@)) && b@[degree(nats(b@)) as int] != 0 ==> {
            &&& res.0@.len() == degree(nats(a@)) - degree(nats(b@)) + 1
            &&& forall|k: int| degree(nats(b@)) <= k < a@.len() ==> #[trigger] res.1@[k] == 0
        },
{
    let alen = a.len();
    let a_deg = poly_degree(a);
    let b_deg = poly_degree(b);
    proof {
        lemma_degree_facts(nats(a@), a@.len() as int);
        lemma_degree_facts(nats(b@), b@.len() as int);
    }
    if a_deg < b_deg || b[b_deg] == 0 {
        let r = copy_poly(a);
        let q = vec![0u16];
        proof {
            assert(nats(q@) =~= seq![0nat]);
        }
        return (q, r);
    }
    let ghost na = nats(a@);
    let ghost nb = nats(b@);
    let mut remainder = copy_poly(a);
    let b_lead_inv = gf.inv(b[b_deg]);
    let q_len = a_deg - b_deg + 1;
    let mut quotient = vec![0u16; q_len];
    proof {
        assert(nats(quotient@) =~= Seq::new(q_len as nat, |k: int| 0nat));
        assert(nats(remainder@) =~= na);
        assert forall|k: int| q_len + b_deg <= k < remainder@.len() implies #[trigger] remainder@[k] == 0 by {
            assert(na[k] == 0);
        }
    }
    let ghost target = quot_rem(na, nb);
    let mut i = q_len;
    while i > 0
        invariant
            na == nats(a@),
            nb == nats(b@),
            b_deg == degree(nb),
            a_deg == degree(na),
            b_deg <= a_deg,
            a_deg < a@.len() || a@.len() == 0,
            b_deg < b@.len(),
            q_len == a_deg - b_deg + 1,
            b_lead_inv == spec_inv(b@[b_deg as int] as nat),
            0 <= i <= q_len,
            quotient@.len() == q_len,
            remainder@.len() == a@.len(),
            small(quotient@),
            small(a@) ==> small(remainder@),
            div_steps(nats(quotient@), nats(remainder@), nb, b_lead_inv as nat, b_deg as int, i as int) == target,
            forall|k: int| i + b_deg <= k < remainder@.len() ==> #[trigger] remainder@[k] == 0,
        decreases i,
    {
        let pos = i - 1;
        let idx = pos + b_deg;
        let ghost q0 = nats(quotient@);
        let ghost r0 = nats(remainder@);
        if idx < remainder.len() {
            let coeff = gf.mul(remainder[idx], b_lead_inv);
            quotient.set(pos, coeff);
            if coeff != 0 {
                let mut j: usize = 0;
                while j < b_deg
                    invariant
                        nb == nats(b@),
                        b_deg < b@.len(),
                        idx == pos + b_deg,
                        idx < remainder@.len(),
                        0 <= j <= b_deg,
                        remainder@.len() == r0.len(),
                        small(a@) ==> small(remainder@),
                        forall|k: int|
                            0 <= k < remainder@.len() ==> #[trigger] remainder@[k] as nat == (if pos <= k < pos + j {
                                gf_sub(r0[k], gf_mul(coeff as nat, nb[k - pos]))
                            } else {
                                r0[k]
                            }),
                    decreases b_deg - j,
                {
                    let term = gf.mul(coeff, b[j]);
                    let v = gf.sub(remainder[pos + j], term);
                    proof {
                        assert(nb[(pos + j) - pos] == b@[j as int] as nat);
                        assert(remainder@[pos + j] as nat == r0[pos + j]);
                    }
                    remainder.set(pos + j, v);
                    j = j + 1;
                }
                // the leading term cancels: coeff · lead = remainder[idx]
                remainder.set(idx, 0);
                proof {
                    assert(nats(remainder@) =~= eliminate(r0, nb, coeff as nat, pos as int, b_deg as int));
                }
            } else {
                remainder.set(idx, 0);
                proof {
                    assert(nats(remainder@) =~= r0.update(idx as int, 0));
                }
            }
            proof {
                assert(nats(quotient@) =~= q0.update(pos as int, coeff as nat));
            }
        }
        i = pos;
    }
    (quotient, remainder)
}

// ---------------------------------------------------------------------------
// Generator, syndromes, erasure locator
// ---------------------------------------------------------------------------

/// The generator polynomial `g(x) = ∏_{i=1}^{parity_count} (x − αⁱ)`.
pub fn build_generator(gf: &GF3, parity_count: usize) -> (g: Vec<u16>)
    requires
        gf.wf(),
        parity_count < usize::MAX,
    ensures
        nats(g@) == generator(parity_count as nat),
        g@.len() == parity_count + 1,
        small(g@),
{
    let mut g: Vec<u16> = vec![1u16];
    proof {
        assert(nats(g@) =~= seq![1nat]);
    }
    let mut i: usize = 1;
    while i <= parity_count
        invariant
            gf.wf(),
            parity_count < usize::MAX,
            1 <= i <= parity_count + 1,
            nats(g@) == generator((i - 1) as nat),
            g@.len() == i,
            small(g@),
        decreases parity_count + 1 - i,
    {
        let alpha_i = gf.exp(i);
        let neg_alpha_i = gf.sub(0, alpha_i);
        let ghost ng = nats(g@);
        let mut new_g = vec![0u16; g.len() + 1];
        let mut j: usize = 0;
        while j < g.len()
            invariant
                ng == nats(g@),
                0 <= j <= g@.len(),
                new_g@.len() == g@.len() + 1,
                small(new_g@),
                forall|k: int|
                    0 <= k < new_g@.len() ==> #[trigger] new_g@[k] as nat == (if k < j {
                        times_root(ng, neg_alpha_i as nat)[k]
                    } else if k == j && j >= 1 {
                        gf_add(0, ng[j - 1])
                    } else {
                        0
                    }),
            decreases g@.len() - j,
        {
            let hi = gf.add(new_g[j + 1], g[j]);
            new_g.set(j + 1, hi);
            let lo = gf.add(new_g[j], gf.mul(neg_alpha_i, g[j]));
            new_g.set(j, lo);
            j = j + 1;
        }
        proof {
            assert(nats(new_g@) =~= times_root(ng, neg_alpha_i as nat));
            assert(generator(i as nat) == times_root(generator((i - 1) as nat), gf_sub(0, gf_exp(i as nat % 728))));
        }
        g = new_g;
        i = i + 1;
    }
    g
}

/// The syndromes `S[i] = c(α^(i+1))` for `i < two_t`.
pub fn compute_syndromes(gf: &GF3, codeword: &[u16], two_t: usize) -> (s: Vec<u16>)
    requires
        gf.wf(),
    ensures
        nats(s@) == syndromes(nats(codeword@), two_t as nat),
        small(s@),
{
    let mut s: Vec<u16> = Vec::new();
    let mut i: usize = 0;
    while i < two_t
        invariant
            gf.wf(),
            0 <= i <= two_t,
            s@.len() == i,
            small(s@),
            forall|k: int| 0 <= k < i ==> #[trigger] s@[k] as nat == horner(nats(codeword@), gf_exp(((k + 1) % 728) as nat)),
        decreases two_t - i,
    {
        let v = poly_eval(gf, codeword, gf.exp(i + 1));
        s.push(v);
        i = i + 1;
    }
    proof {
        assert(nats(s@) =~= syndromes(nats(codeword@), two_t as nat));
    }
    s
}

/// The erasure locator `∏ (1 − α^pos · x)`.
pub fn build_erasure_locator(gf: &GF3, erasure_positions: &[usize]) -> (loc: Vec<u16>)
    requires
        gf.wf(),
        erasure_positions@.len() < usize::MAX - 2,
    ensures
        nats(loc@) == erasure_locator(erasure_positions@),
        loc@.len() == erasure_positions@.len() + 1,
        small(loc@),
{
    let mut locator: Vec<u16> = vec![1u16];
    proof {
        assert(nats(locator@) =~= seq![1nat]);
        assert(erasure_positions@.subrange(0, 0) =~= Seq::<usize>::empty());
    }
    let mut k: usize = 0;
    while k < erasure_positions.len()
        invariant
            gf.wf(),
            erasure_positions@.len() < usize::MAX - 2,
            0 <= k <= erasure_positions@.len(),
            nats(locator@) == erasure_locator(erasure_positions@.subrange(0, k as int)),
            locator@.len() == k + 1,
            small(locator@),
        decreases erasure_positions@.len() - k,
    {
        let pos = erasure_positions[k];
        let factor = vec![1u16, gf.sub(0, gf.exp(pos))];
        proof {
            let ps = erasure_positions@.subrange(0, k + 1);
            assert(ps.drop_last() =~= erasure_positions@.subrange(0, k as int));
            assert(nats(factor@) =~= seq![1nat, gf_sub(0, gf_exp(pos as nat % 728))]);
        }
        locator = poly_mul(gf, &locator, &factor);
        proof {
            assert(nats(locator@).len() == locator@.len());
        }
        k = k + 1;
    }
    proof {
        assert(erasure_positions@.subrange(0, erasure_positions@.len() as int) =~= erasure_positions@);
    }
    locator
}

// ---------------------------------------------------------------------------
// Key equation
// ---------------------------------------------------------------------------

/// State of the extended Euclidean algorithm: `(r_prev, r_curr, t_prev, t_curr)`.
pub type EuclidState = (Seq<nat>, Seq<nat>, Seq<nat>, Seq<nat>);

/// One division step: `r_prev, r_curr = r_curr, r_prev mod r_curr` and
/// `t_prev, t_curr = t_curr, t_prev − q · t_curr`.
pub open spec fn euclid_step(st: EuclidState) -> EuclidState {
    let (q, rem) = quot_rem(st.0, st.1);
    (st.1, rem, st.3, poly_difference(st.2, poly_product(q, st.3)))
}

/// Division steps while `deg r_curr ≥ stop` (at most `fuel` of them).
pub open spec fn euclid_run(st: EuclidState, stop: nat, fuel: nat) -> EuclidState
    decreases fuel,
{
    if fuel == 0 || degree(st.1) < stop {
        st
    } else {
        euclid_run(euclid_step(st), stop, (fuel - 1) as nat)
    }
}

/// `xⁿ`.
pub open spec fn x_pow(n: nat) -> Seq<nat> {
    Seq::new(n + 1, |k: int| if k == n { 1nat } else { 0nat })
}

/// The locator and evaluator that solve `s(x)·σ(x) ≡ ω(x) (mod x^two_t)`
/// with `deg ω < stop`, by the extended Euclidean algorithm on `x^two_t`
/// and `s(x)`. (Each division lowers `deg r_curr`, so `two_t + 1` steps
/// always suffice.)
pub open spec fn key_equation(two_t: nat, s: Seq<nat>, stop: nat) -> (Seq<nat>, Seq<nat>) {
    let st = euclid_run((x_pow(two_t), s, seq![0nat], seq![1nat]), stop, two_t + 1);
    (trimmed(st.3), trimmed(st.1))
}

/// Solve the key equation: returns `(σ(x), ω(x))`.
pub fn extended_euclidean(gf: &GF3, two_t: usize, syndrome_poly: &[u16], stop_degree: usize) -> (res: (
    Vec<u16>,
    Vec<u16>,
))
    requires
        stop_degree >= 1,
        two_t >= 1,
        syndrome_poly@.len() <= two_t,
        two_t + 2 < usize::MAX,
    ensures
        (nats(res.0@), nats(res.1@)) == key_equation(two_t as nat, nats(syndrome_poly@), stop_degree as nat),
        1 <= res.0@.len() <= two_t + 1,
        res.1@.len() <= two_t + 1,
{
    let mut r_prev = vec![0u16; two_t + 1];
    r_prev.set(two_t, 1);
    let mut r_curr = copy_poly(syndrome_poly);
    let mut t_prev: Vec<u16> = vec![0u16];
    let mut t_curr: Vec<u16> = vec![1u16];
    let ghost stop = stop_degree as nat;
    let ghost init: EuclidState = (x_pow(two_t as nat), nats(syndrome_poly@), seq![0nat], seq![1nat]);
    let ghost target = euclid_run(init, stop, (two_t + 1) as nat);
    let ghost mut fuel: nat = (two_t + 1) as nat;
    proof {
        assert(nats(r_prev@) =~= x_pow(two_t as nat));
        assert(nats(t_prev@) =~= seq![0nat]);
        assert(nats(t_curr@) =~= seq![1nat]);
        lemma_degree_facts(nats(r_prev@), r_prev@.len() as int);
        assert(nats(r_prev@)[two_t as int] == 1);
        assert(degree(nats(r_prev@)) == two_t) by {
            reveal_with_fuel(degree_upto, 2);
        }
        lemma_degree_facts(nats(r_curr@), r_curr@.len() as int);
    }
    while poly_degree(&r_curr) >= stop_degree
        invariant
            stop_degree >= 1,
            stop == stop_degree as nat,
            two_t + 2 < usize::MAX,
            euclid_run(
                (nats(r_prev@), nats(r_curr@), nats(t_prev@), nats(t_curr@)),
                stop,
                fuel,
            ) == target,
            degree(nats(r_curr@)) < degree(nats(r_prev@)) <= two_t,
            degree(nats(r_curr@)) < fuel,
            r_prev@.len() <= two_t + 1,
            r_curr@.len() <= two_t + 1,
            t_prev@.len() >= 1,
            t_curr@.len() >= 1,
            t_prev@.len() + degree(nats(r_prev@)) <= two_t + 1,
            t_curr@.len() + degree(nats(r_prev@)) <= two_t + 1,
        decreases degree(nats(r_curr@)),
    {
        let ghost st = (nats(r_prev@), nats(r_curr@), nats(t_prev@), nats(t_curr@));
        let ghost ad = degree(nats(r_prev@));
        let ghost bd = degree(nats(r_curr@));
        proof {
            lemma_degree_facts(nats(r_curr@), r_curr@.len() as int);
            lemma_degree_facts(nats(r_prev@), r_prev@.len() as int);
            assert(r_curr@[bd as int] != 0) by {
                if r_curr@[bd as int] == 0 {
                    assert(nats(r_curr@)[bd as int] == 0);
                }
            }
        }
        let (quotient, remainder) = poly_div(gf, &r_prev, &r_curr);
        proof {
            assert(quot_rem(st.0, st.1) == (nats(quotient@), nats(remainder@)));
            lemma_degree_below(nats(remainder@), remainder@.len() as int, bd as int);
        }
        let qt = poly_mul(gf, &quotient, &t_curr);
        let new_t = poly_sub(gf, &t_prev, &qt);
        proof {
            assert(nats(qt@).len() == qt@.len());
            assert(nats(new_t@).len() == new_t@.len());
            assert(euclid_step(st) == (nats(r_curr@), nats(remainder@), nats(t_curr@), nats(new_t@)));
            fuel = (fuel - 1) as nat;
        }
        r_prev = r_curr;
        r_curr = remainder;
        t_prev = t_curr;
        t_curr = new_t;
    }
    let sigma = poly_trim(&t_curr);
    let omega = poly_trim(&r_curr);
    (sigma, omega)
}

// ---------------------------------------------------------------------------
// The codec
// ---------------------------------------------------------------------------

/// Why a received word could not be decoded.
#[derive(Debug, Clone, PartialEq, Eq)]
pub enum RsError {
    /// `2·errors + erasures` exceeds the parity count.
    TooManyErrors { errors: usize, erasures: usize, capacity: usize },
    /// More erasures than parity symbols.
    TooManyErasures { erasures: usize, capacity: usize },
    /// The Chien search found a different number of roots than the locator's degree.
    ChienSearchFailed { expected: usize, found: usize },
    /// A zero where Forney's algorithm divides.
    ForneyDegeneracy,
}

/// Long division of `rem` by the generator `g` for the positions `i − 1`
/// down to `p`: each nonzero coefficient at `pos` is cancelled by
/// subtracting `(rem[pos] / lead) · g(x) · x^(pos − p)`.
pub open spec fn encode_steps(rem: Seq<nat>, g: Seq<nat>, inv: nat, p: int, i: int) -> Seq<nat>
    decreases i - p,
{
    if i <= p {
        rem
    } else {
        let pos = i - 1;
        let coeff = rem[pos];
        if coeff == 0 {
            encode_steps(rem, g, inv, p, pos)
        } else {
            let factor = gf_mul(coeff, inv);
            encode_steps(
                Seq::new(
                    rem.len(),
                    |k: int|
                        if pos - p <= k <= pos {
                            gf_sub(rem[k], gf_mul(factor, g[k - (pos - p)]))
                        } else {
                            rem[k]
                        },
                ),
                g,
                inv,
                p,
                pos,
            )
        }
    }
}

/// Systematic encoding: `[parity ‖ data]`, where the parity is the negated
/// remainder of `data(x) · x^p` divided by the generator.
pub open spec fn spec_encode(p: nat, data: Seq<nat>) -> Seq<nat> {
    let n = data.len() + p;
    let shifted = Seq::new(n, |k: int| if k < p { 0nat } else { data[k - p] });
    if data.len() == 0 {
        shifted
    } else {
        let g = generator(p);
        let rem = encode_steps(shifted, g, spec_inv(g[p as int]), p as int, n as int);
        Seq::new(n, |k: int| if k < p { gf_sub(0, rem[k]) } else { data[k - p] })
    }
}

/// The first `n` coefficients of `p` (all of them when it is shorter).
pub open spec fn take_upto(p: Seq<nat>, n: nat) -> Seq<nat> {
    p.subrange(0, if p.len() < n { p.len() as int } else { n as int })
}

/// Some located position makes the derivative of the locator vanish.
pub open spec fn forney_fails(found: Seq<usize>, deriv: Seq<nat>) -> bool {
    exists|k: int| 0 <= k < found.len() && horner(deriv, alpha_inv_pow(#[trigger] found[k] as nat)) == 0
}

/// Forney's magnitude at position `i`: `ω(α^(−i)) / Λ'(α^(−i))`.
pub open spec fn forney_magnitude(omega: Seq<nat>, deriv: Seq<nat>, i: nat) -> nat {
    gf_mul(horner(omega, alpha_inv_pow(i)), spec_inv(horner(deriv, alpha_inv_pow(i))))
}

/// `c` with the Forney magnitude added at every located position.
pub open spec fn forney_corrected(c: Seq<nat>, found: Seq<usize>, omega: Seq<nat>, deriv: Seq<nat>) -> Seq<nat> {
    Seq::new(
        c.len(),
        |i: int|
            if found.contains(i as usize) {
                gf_add(c[i], forney_magnitude(omega, deriv, i as nat))
            } else {
                c[i]
            },
    )
}

/// Chien search and Forney correction for the full locator `full`; the
/// result is the data part of the corrected word.
pub open spec fn spec_locate_correct(p: nat, c: Seq<nat>, e: nat, s: Seq<nat>, full: Seq<nat>) -> Result<
    Seq<nat>,
    RsError,
> {
    let n = c.len();
    let full_omega = take_upto(poly_product(s, full), p);
    let td = degree(full);
    let ec: nat = if td >= e { (td - e) as nat } else { 0 };
    if 2 * ec + e > p {
        Err(RsError::TooManyErrors { errors: ec as usize, erasures: e as usize, capacity: p as usize })
    } else {
        let found = chien_roots(full, n);
        if found.len() != td {
            Err(RsError::ChienSearchFailed { expected: td as usize, found: found.len() as usize })
        } else if forney_fails(found, derivative(full)) {
            Err(RsError::ForneyDegeneracy)
        } else {
            Ok(forney_corrected(c, found, full_omega, derivative(full)).subrange(p as int, n as int))
        }
    }
}

/// The key equation for the modified syndromes `S(x)·Λ_e(x) mod x^p`, then
/// the full locator `σ(x)/σ(0) · Λ_e(x)`.
pub open spec fn spec_decode_errors(p: nat, c: Seq<nat>, es: Seq<usize>) -> Result<Seq<nat>, RsError> {
    let s = syndromes(c, p);
    let lam = erasure_locator(es);
    let sigma = key_equation(p, take_upto(poly_product(s, lam), p), (p + es.len()) / 2).0;
    if sigma[0] == 0 {
        Err(RsError::ForneyDegeneracy)
    } else {
        let sn = Seq::new(sigma.len(), |k: int| gf_mul(sigma[k], spec_inv(sigma[0])));
        spec_locate_correct(p, c, es.len(), s, poly_product(sn, lam))
    }
}

/// The Sugiyama decoder: a word with zero syndromes is returned as is
/// (its data part); more erasures than parity symbols are refused;
/// otherwise errors and erasures are located and corrected.
#[verifier::opaque]
pub open spec fn spec_decode(p: nat, c: Seq<nat>, es: Seq<usize>) -> Result<Seq<nat>, RsError> {
    let s = syndromes(c, p);
    if forall|i: int| 0 <= i < p ==> #[trigger] s[i] == 0 {
        Ok(c.subrange(p as int, c.len() as int))
    } else if es.len() > p {
        Err(RsError::TooManyErasures { erasures: es.len() as usize, capacity: p as usize })
    } else {
        spec_decode_errors(p, c, es)
    }
}

/// Reed-Solomon codec parameterized by the number of parity symbols.
pub struct ReedSolomon {
    pub parity_count: usize,
    generator: Vec<u16>,
}

impl ReedSolomon {
    /// The number of parity symbols.
    pub closed spec fn parity(&self) -> nat {
        self.parity_count as nat
    }

    /// The stored generator is `∏_{i=1}^{parity_count} (x − αⁱ)`.
    pub closed spec fn wf(&self) -> bool {
        &&& nats(self.generator@) == generator(self.parity_count as nat)
        &&& self.generator@.len() == self.parity_count + 1
    }

    /// Construct a codec with generator `g(x) = ∏_{i=1}^{parity_count} (x − αⁱ)`.
    pub fn new(gf: &GF3, parity_count: usize) -> (rs: Self)
        requires
            gf.wf(),
            parity_count < usize::MAX,
        ensures
            rs.parity() == parity_count,
            rs.wf(),
    {
        ReedSolomon { parity_count, generator: build_generator(gf, parity_count) }
    }

    /// Systematic encoding: returns `[parity ‖ data]`.
    pub fn encode(&self, gf: &GF3, data: &[u16]) -> (cw: Vec<u16>)
        requires
            self.wf(),
            gf.wf(),
            data@.len() + self.parity() <= usize::MAX,
        ensures
            nats(cw@) == spec_encode(self.parity(), nats(data@)),
            cw@.len() == data@.len() + self.parity(),
    {
        let p = self.parity_count;
        let n = data.len() + p;
        let ghost nd = nats(data@);
        let mut codeword = vec![0u16; n];
        let mut i: usize = 0;
        while i < data.len()
            invariant
                n == data@.len() + p,
                0 <= i <= data@.len(),
                codeword@.len() == n,
                forall|k: int|
                    0 <= k < n ==> #[trigger] codeword@[k] as nat == (if p <= k < p + i {
                        data@[k - p] as nat
                    } else {
                        0
                    }),
            decreases data@.len() - i,
        {
            codeword.set(p + i, data[i]);
            i = i + 1;
        }
        let ghost shifted = Seq::new(n as nat, |k: int| if k < p { 0nat } else { nd[k - p] });
        proof {
            assert(nats(codeword@) =~= shifted);
        }
        if data.len() == 0 {
            return codeword;
        }
        let mut remainder = copy_poly(&codeword);
        let gen_lead_inv = gf.inv(self.generator[p]);
        let ghost ng = nats(self.generator@);
        let ghost target = encode_steps(shifted, ng, gen_lead_inv as nat, p as int, n as int);
        let mut i = n;
        while i > p
            invariant
                ng == nats(self.generator@),
                self.generator@.len() == p + 1,
                n == data@.len() + p,
                p <= i <= n,
                remainder@.len() == n,
                encode_steps(nats(remainder@), ng, gen_lead_inv as nat, p as int, i as int) == target,
            decreases i,
        {
            let pos = i - 1;
            let coeff = remainder[pos];
            if coeff != 0 {
                let ghost r0 = nats(remainder@);
                let factor = gf.mul(coeff, gen_lead_inv);
                let mut j: usize = 0;
                while j < p + 1
                    invariant
                        ng == nats(self.generator@),
                        self.generator@.len() == p + 1,
                        p <= pos < n,
                        remainder@.len() == n,
                        r0.len() == n,
                        0 <= j <= p + 1,
                        forall|k: int|
                            0 <= k < n ==> #[trigger] remainder@[k] as nat == (if pos - p <= k < pos - p + j {
                                gf_sub(r0[k], gf_mul(factor as nat, ng[k - (pos - p)]))
                            } else {
                                r0[k]
                            }),
                    decreases p + 1 - j,
                {
                    let term = gf.mul(factor, self.generator[j]);
                    let idx = pos - p + j;
                    proof {
                        assert(remainder@[idx as int] as nat == r0[idx as int]);
                        assert(ng[idx - (pos - p)] == self.generator@[j as int] as nat);
                    }
                    let v = gf.sub(remainder[idx], term);
                    remainder.set(idx, v);
                    j = j + 1;
                }
                proof {
                    assert(nats(remainder@) =~= Seq::new(
                        r0.len(),
                        |k: int|
                            if pos - p <= k <= pos {
                                gf_sub(r0[k], gf_mul(factor as nat, ng[k - (pos - p)]))
                            } else {
                                r0[k]
                            },
                    ));
                }
            }
            i = pos;
        }
        let ghost rem = nats(remainder@);
        let mut k: usize = 0;
        while k < p
            invariant
                n == data@.len() + p,
                remainder@.len() == n,
                rem == nats(remainder@),
                codeword@.len() == n,
                0 <= k <= p,
                forall|m: int|
                    0 <= m < n ==> #[trigger] codeword@[m] as nat == (if m < k {
                        gf_sub(0, rem[m])
                    } else if m < p {
                        0
                    } else {
                        nd[m - p]
                    }),
            decreases p - k,
        {
            let v = gf.sub(0, remainder[k]);
            codeword.set(k, v);
            k = k + 1;
        }
        proof {
            assert(nats(codeword@) =~= spec_encode(p as nat, nd));
        }
        codeword
    }

    /// Decode a received word, correcting errors and erasures.
    ///
    /// Solves the key equation with Sugiyama's extended Euclidean algorithm,
    /// then locates the errors by Chien search and corrects them with
    /// Forney's formula, designed for `2e + E ≤ 2t` (`e` errors, `E` erasures,
    /// `2t = parity_count`). Returns the data part `[parity_count ..]`.
    #[verifier::spinoff_prover]
    pub fn decode(&self, gf: &GF3, codeword: &[u16], erasure_positions: &[usize]) -> (r: Result<
        Vec<u16>,
        RsError,
    >)
        requires
            gf.wf(),
            self.parity() <= codeword@.len() <= usize::MAX / 4,
            erasure_positions@.len() <= usize::MAX / 4,
            self.parity() != 1 || erasure_positions@.len() != 0 || forall|i: int|
                0 <= i < self.parity() ==> #[trigger] syndromes(nats(codeword@), self.parity())[i] == 0,
        ensures
            match (r, spec_decode(self.parity(), nats(codeword@), erasure_positions@)) {
                (Ok(v), Ok(sv)) => nats(v@) == sv,
                (Err(e1), Err(e2)) => e1 == e2,
                _ => false,
            },
    {
        proof {
            reveal(spec_decode);
        }
        let n = codeword.len();
        let two_t = self.parity_count;
        let ghost c = nats(codeword@);
        let ghost es = erasure_positions@;
        let synd = compute_syndromes(gf, codeword, two_t);
        let ghost s = syndromes(c, two_t as nat);
        if all_zero(&synd) {
            let out = suffix(codeword, two_t);
            proof {
                assert forall|i: int| 0 <= i < two_t implies #[trigger] s[i] == 0 by {
                    assert(nats(synd@)[i] == synd@[i] as nat);
                }
                assert(nats(out@) =~= c.subrange(two_t as int, n as int));
            }
            return Ok(out);
        }
        proof {
            let i = choose|i: int| 0 <= i < synd@.len() && synd@[i] != 0;
            assert(nats(synd@)[i] == synd@[i] as nat);
            assert(s[i] != 0);
            assert(!(forall|i: int| 0 <= i < two_t ==> #[trigger] s[i] == 0));
        }
        let erasure_count = erasure_positions.len();
        if erasure_count > two_t {
            return Err(RsError::TooManyErasures { erasures: erasure_count, capacity: two_t });
        }
        decode_errors(gf, two_t, codeword, erasure_positions, &synd)
    }
}

/// Decoding once the syndromes are known to be nonzero and the erasures
/// within capacity.
fn decode_errors(gf: &GF3, two_t: usize, codeword: &[u16], erasure_positions: &[usize], synd: &Vec<u16>) -> (r: Result<
    Vec<u16>,
    RsError,
>)
    requires
        gf.wf(),
        nats(synd@) == syndromes(nats(codeword@), two_t as nat),
        two_t <= codeword@.len() <= usize::MAX / 4,
        erasure_positions@.len() <= two_t,
        two_t >= 1,
        two_t != 1 || erasure_positions@.len() != 0,
    ensures
        match (r, spec_decode_errors(two_t as nat, nats(codeword@), erasure_positions@)) {
            (Ok(v), Ok(sv)) => nats(v@) == sv,
            (Err(e1), Err(e2)) => e1 == e2,
            _ => false,
        },
{
    let erasure_count = erasure_positions.len();
    let erasure_locator = build_erasure_locator(gf, erasure_positions);
    let prod = poly_mul(gf, synd, &erasure_locator);
    let modified = poly_mod_xn(gf, &prod, two_t);
    let stop_degree = (two_t + erasure_count) / 2;
    proof {
        assert(nats(modified@) =~= take_upto(poly_product(nats(synd@), nats(erasure_locator@)), two_t as nat));
    }
    let (sigma, _omega) = extended_euclidean(gf, two_t, &modified, stop_degree);
    let sigma0 = sigma[0];
    if sigma0 == 0 {
        return Err(RsError::ForneyDegeneracy);
    }
    let sigma0_inv = gf.inv(sigma0);
    let sigma_norm = scale_poly(gf, &sigma, sigma0_inv);
    let full_locator = poly_mul(gf, &sigma_norm, &erasure_locator);
    proof {
        assert(nats(sigma_norm@) =~= Seq::new(
            nats(sigma@).len(),
            |k: int| gf_mul(nats(sigma@)[k], spec_inv(nats(sigma@)[0])),
        ));
    }
    locate_and_correct(gf, two_t, codeword, erasure_count, synd, &full_locator)
}

/// Chien search and Forney correction for the full locator.
#[verifier::spinoff_prover]
fn locate_and_correct(
    gf: &GF3,
    two_t: usize,
    codeword: &[u16],
    erasure_count: usize,
    synd: &Vec<u16>,
    full_locator: &Vec<u16>,
) -> (r: Result<Vec<u16>, RsError>)
    requires
        gf.wf(),
        two_t <= codeword@.len() <= usize::MAX / 4,
        synd@.len() == two_t,
        full_locator@.len() <= 3 * two_t + 2,
        erasure_count <= two_t,
    ensures
        match (r, spec_locate_correct(two_t as nat, nats(codeword@), erasure_count as nat, nats(synd@), nats(full_locator@))) {
            (Ok(v), Ok(sv)) => nats(v@) == sv,
            (Err(e1), Err(e2)) => e1 == e2,
            _ => false,
        },
{
    let n = codeword.len();
    let fprod = poly_mul(gf, synd, full_locator);
    let full_omega = poly_mod_xn(gf, &fprod, two_t);
    let total_degree = poly_degree(full_locator);
    let error_count = if total_degree >= erasure_count { total_degree - erasure_count } else { 0 };
    proof {
        assert(nats(full_omega@) =~= take_upto(poly_product(nats(synd@), nats(full_locator@)), two_t as nat));
    }
    if 2 * (error_count as u128) + (erasure_count as u128) > two_t as u128 {
        return Err(RsError::TooManyErrors { errors: error_count, erasures: erasure_count, capacity: two_t });
    }
    let found = chien_search(gf, full_locator, n);
    if found.len() != total_degree {
        return Err(RsError::ChienSearchFailed { expected: total_degree, found: found.len() });
    }
    let locator_deriv = poly_formal_derivative(gf, full_locator);
    match forney_correct(gf, codeword, &found, &full_omega, &locator_deriv) {
        None => Err(RsError::ForneyDegeneracy),
        Some(corrected) => {
            proof {
                assert(nats(corrected@).len() == corrected@.len());
            }
            let out = suffix(&corrected, two_t);
            proof {
                assert(nats(out@) =~= nats(corrected@).subrange(two_t as int, n as int));
            }
            Ok(out)
        },
    }
}

/// Forney's correction at every located position: `None` when the
/// derivative of the locator vanishes at one of them.
fn forney_correct(
    gf: &GF3,
    codeword: &[u16],
    found: &Vec<usize>,
    full_omega: &Vec<u16>,
    locator_deriv: &Vec<u16>,
) -> (r: Option<Vec<u16>>)
    requires
        gf.wf(),
        forall|j: int| 0 <= j < found@.len() ==> #[trigger] found@[j] < codeword@.len(),
        forall|j1: int, j2: int| 0 <= j1 < j2 < found@.len() ==> #[trigger] found@[j1] < #[trigger] found@[j2],
    ensures
        match r {
            None => forney_fails(found@, nats(locator_deriv@)),
            Some(v) => !forney_fails(found@, nats(locator_deriv@)) && nats(v@) == forney_corrected(
                nats(codeword@),
                found@,
                nats(full_omega@),
                nats(locator_deriv@),
            ),
        },
{
    let n = codeword.len();
    let ghost c = nats(codeword@);
    let ghost omega_s = nats(full_omega@);
    let ghost deriv_s = nats(locator_deriv@);
    let mut corrected = copy_poly(codeword);
    let mut k: usize = 0;
    while k < found.len()
        invariant
            gf.wf(),
            c == nats(codeword@),
            n == codeword@.len(),
            corrected@.len() == n,
            omega_s == nats(full_omega@),
            deriv_s == nats(locator_deriv@),
            forall|j: int| 0 <= j < found@.len() ==> #[trigger] found@[j] < n,
            forall|j1: int, j2: int| 0 <= j1 < j2 < found@.len() ==> #[trigger] found@[j1] < #[trigger] found@[j2],
            0 <= k <= found@.len(),
            forall|j: int| 0 <= j < k ==> horner(deriv_s, alpha_inv_pow(#[trigger] found@[j] as nat)) != 0,
            forall|i: int|
                0 <= i < n ==> #[trigger] corrected@[i] as nat == (if located(found@, k as int, i) {
                    gf_add(c[i], forney_magnitude(omega_s, deriv_s, i as nat))
                } else {
                    c[i]
                }),
        decreases found@.len() - k,
    {
        let pos = found[k];
        let xi_inv = gf.exp(FIELD_ORDER - (pos % FIELD_ORDER));
        proof {
            vstd::arithmetic::div_mod::lemma_mod_self_0(728);
            assert(xi_inv == alpha_inv_pow(pos as nat));
        }
        let omega_val = poly_eval(gf, full_omega, xi_inv);
        let deriv_val = poly_eval(gf, locator_deriv, xi_inv);
        if deriv_val == 0 {
            proof {
                assert(horner(deriv_s, alpha_inv_pow(found@[k as int] as nat)) == 0);
                assert(forney_fails(found@, deriv_s));
            }
            return None;
        }
        let magnitude = gf.div(omega_val, deriv_val);
        proof {
            assert(!located(found@, k as int, pos as int)) by {
                if located(found@, k as int, pos as int) {
                    let j = choose|j: int| 0 <= j < k && found@[j] == pos;
                    assert(found@[j] < found@[k as int]);
                }
            }
            assert(corrected@[pos as int] as nat == c[pos as int]);
        }
        let v = gf.add(corrected[pos], magnitude);
        corrected.set(pos, v);
        proof {
            assert forall|i: int| 0 <= i < n implies #[trigger] corrected@[i] as nat == (if located(
                found@,
                k + 1,
                i,
            ) {
                gf_add(c[i], forney_magnitude(omega_s, deriv_s, i as nat))
            } else {
                c[i]
            }) by {
                if i == pos {
                    assert(found@[k as int] == i);
                    assert(located(found@, k + 1, i));
                } else {
                    assert(located(found@, k + 1, i) == located(found@, k as int, i)) by {
                        if located(found@, k + 1, i) {
                            let j = choose|j: int| 0 <= j < k + 1 && found@[j] == i;
                            assert(j < k);
                        }
                    }
                }
            }
        }
        k = k + 1;
    }
    proof {
        assert(!forney_fails(found@, deriv_s)) by {
            if forney_fails(found@, deriv_s) {
                let j = choose|j: int| 0 <= j < found@.len() && horner(deriv_s, alpha_inv_pow(#[trigger] found@[j] as nat)) == 0;
                assert(horner(deriv_s, alpha_inv_pow(found@[j] as nat)) != 0);
            }
        }
        assert forall|i: int| 0 <= i < n implies #[trigger] located(found@, found@.len() as int, i) == found@.contains(
            i as usize,
        ) by {
            if found@.contains(i as usize) {
                let j = choose|j: int| 0 <= j < found@.len() && found@[j] == i as usize;
                assert(located(found@, found@.len() as int, i));
            }
        }
        assert(nats(corrected@) =~= forney_corrected(c, found@, omega_s, deriv_s));
    }
    Some(corrected)
}

/// Position `i` is among the first `k` located positions.
pub open spec fn located(found: Seq<usize>, k: int, i: int) -> bool {
    exists|j: int| 0 <= j < k && found[j] == i
}

/// Every coefficient is zero.
fn all_zero(s: &Vec<u16>) -> (r: bool)
    ensures
        r == forall|i: int| 0 <= i < s@.len() ==> #[trigger] s@[i] == 0,
{
    let mut i: usize = 0;
    while i < s.len()
        invariant
            0 <= i <= s@.len(),
            forall|j: int| 0 <= j < i ==> #[trigger] s@[j] == 0,
        decreases s@.len() - i,
    {
        if s[i] != 0 {
            return false;
        }
        i = i + 1;
    }
    true
}

/// The coefficients from `from` on.
fn suffix(a: &[u16], from: usize) -> (r: Vec<u16>)
    requires
        from <= a@.len(),
    ensures
        r@ == a@.subrange(from as int, a@.len() as int),
{
    let mut r: Vec<u16> = Vec::new();
    let mut i = from;
    while i < a.len()
        invariant
            from <= i <= a@.len(),
            r@ == a@.subrange(from as int, i as int),
        decreases a@.len() - i,
    {
        r.push(a[i]);
        proof {
            assert(r@ =~= a@.subrange(from as int, i + 1));
        }
        i = i + 1;
    }
    r
}

/// Every coefficient multiplied by `c`.
fn scale_poly(gf: &GF3, p: &Vec<u16>, c: u16) -> (r: Vec<u16>)
    ensures
        r@.len() == p@.len(),
        forall|k: int| 0 <= k < p@.len() ==> #[trigger] r@[k] as nat == gf_mul(p@[k] as nat, c as nat),
{
    let mut r: Vec<u16> = Vec::new();
    let mut k: usize = 0;
    while k < p.len()
        invariant
            0 <= k <= p@.len(),
            r@.len() == k,
            forall|j: int| 0 <= j < k ==> #[trigger] r@[j] as nat == gf_mul(p@[j] as nat, c as nat),
        decreases p@.len() - k,
    {
        r.push(gf.mul(p[k], c));
        k = k + 1;
    }
    r
}

/// A received word whose syndromes are all zero decodes to its data part,
/// whatever erasures are reported.
pub proof fn law_clean_word_decodes(p: nat, c: Seq<nat>, es: Seq<usize>)
    requires
        forall|i: int| 0 <= i < p ==> #[trigger] syndromes(c, p)[i] == 0,
    ensures
        spec_decode(p, c, es) == Ok::<Seq<nat>, RsError>(c.subrange(p as int, c.len() as int)),
{
    reveal(spec_decode);
}

} // verus!
