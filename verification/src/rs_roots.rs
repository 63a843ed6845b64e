//! Why a Reed-Solomon codeword decodes to its data: the systematic encoder
//! subtracts multiples of the generator, which vanishes at `α¹ … αᵖ`, so
//! the codeword vanishes there too and all its syndromes are zero.
use vstd::prelude::*;
use crate::field::{
    lemma_add_assoc, lemma_add_comm, lemma_add_neg, lemma_add_swap4, lemma_add_zero, lemma_mul_assoc,
    lemma_mul_comm, lemma_mul_distrib, lemma_mul_one, lemma_mul_scalar_left, lemma_mul_zero,
    lemma_neg_scale, lemma_sub_add_neg,
};
use crate::gf3::{gf_add, gf_exp, gf_mul, gf_sub, lemma_exp_range, lemma_gf_ranges, spec_inv};
use crate::rs::{
    encode_steps, generator, horner, law_clean_word_decodes, spec_decode, spec_encode, syndromes,
    times_root, RsError,
};

verus! {

/// `xⁿ` in the field.
pub open spec fn pw(x: nat, n: nat) -> nat
    decreases n,
{
    if n == 0 {
        1
    } else {
        gf_mul(pw(x, (n - 1) as nat), x)
    }
}

/// Every coefficient is a field element.
pub open spec fn symbols(s: Seq<nat>) -> bool {
    forall|k: int| 0 <= k < s.len() ==> #[trigger] s[k] < 729
}

proof fn lemma_pw_range(x: nat, n: nat)
    ensures
        pw(x, n) < 729,
{
    if n > 0 {
        lemma_gf_ranges(pw(x, (n - 1) as nat), x);
    }
}

proof fn lemma_horner_range(p: Seq<nat>, x: nat)
    ensures
        horner(p, x) < 729,
    decreases p.len(),
{
    if p.len() > 0 {
        lemma_gf_ranges(gf_mul(horner(p.drop_first(), x), x), p[0]);
    }
}

/// `(p + q) + r = (p + r) + q`.
proof fn lemma_add_rotate(p: nat, q: nat, r: nat)
    ensures
        gf_add(gf_add(p, q), r) == gf_add(gf_add(p, r), q),
{
    lemma_add_assoc(p, q, r);
    lemma_add_comm(q, r);
    lemma_add_assoc(p, r, q);
}

/// Evaluating a concatenation: `(a ‖ b)(x) = a(x) + b(x)·x^|a|`.
pub proof fn lemma_horner_concat(a: Seq<nat>, b: Seq<nat>, x: nat)
    requires
        x < 729,
    ensures
        horner(a + b, x) == gf_add(horner(a, x), gf_mul(horner(b, x), pw(x, a.len()))),
    decreases a.len(),
{
    lemma_horner_range(b, x);
    lemma_horner_range(a + b, x);
    if a.len() == 0 {
        assert(a + b =~= b);
        lemma_mul_one(horner(b, x));
        lemma_add_zero(horner(b, x));
    } else {
        let a1 = a.drop_first();
        assert((a + b).drop_first() =~= a1 + b);
        assert((a + b)[0] == a[0]);
        lemma_horner_concat(a1, b, x);
        let ha = horner(a1, x);
        let hb = horner(b, x);
        let w = pw(x, a1.len());
        lemma_horner_range(a1, x);
        lemma_pw_range(x, a1.len());
        lemma_gf_ranges(hb, w);
        lemma_mul_distrib(x, ha, gf_mul(hb, w));
        lemma_mul_assoc(hb, w, x);
        lemma_add_rotate(gf_mul(ha, x), gf_mul(gf_mul(hb, w), x), a[0]);
    }
}

/// Evaluating a coefficient-wise sum.
pub proof fn lemma_horner_add(a: Seq<nat>, b: Seq<nat>, x: nat)
    requires
        a.len() == b.len(),
        x < 729,
    ensures
        horner(Seq::new(a.len(), |i: int| gf_add(a[i], b[i])), x) == gf_add(horner(a, x), horner(b, x)),
    decreases a.len(),
{
    let s = Seq::new(a.len(), |i: int| gf_add(a[i], b[i]));
    if a.len() == 0 {
        lemma_add_zero(0);
    } else {
        let a1 = a.drop_first();
        let b1 = b.drop_first();
        assert(s.drop_first() =~= Seq::new(a1.len(), |i: int| gf_add(a1[i], b1[i])));
        lemma_horner_add(a1, b1, x);
        let ha = horner(a1, x);
        let hb = horner(b1, x);
        assert(horner(s.drop_first(), x) == gf_add(ha, hb));
        assert(s[0] == gf_add(a[0], b[0]));
        assert(horner(s, x) == gf_add(gf_mul(gf_add(ha, hb), x), gf_add(a[0], b[0])));
        lemma_mul_distrib(x, ha, hb);
        assert(horner(a, x) == gf_add(gf_mul(ha, x), a[0]));
        assert(horner(b, x) == gf_add(gf_mul(hb, x), b[0]));
        lemma_add_swap4(gf_mul(ha, x), gf_mul(hb, x), a[0], b[0]);
    }
}

/// Evaluating a scaled polynomial.
pub proof fn lemma_horner_scale(c: nat, a: Seq<nat>, x: nat)
    requires
        c < 729,
        x < 729,
        symbols(a),
    ensures
        horner(Seq::new(a.len(), |i: int| gf_mul(c, a[i])), x) == gf_mul(c, horner(a, x)),
    decreases a.len(),
{
    let s = Seq::new(a.len(), |i: int| gf_mul(c, a[i]));
    if a.len() == 0 {
        lemma_mul_zero(c);
    } else {
        let a1 = a.drop_first();
        assert(s.drop_first() =~= Seq::new(a1.len(), |i: int| gf_mul(c, a1[i])));
        lemma_horner_scale(c, a1, x);
        let h = horner(a1, x);
        lemma_horner_range(a1, x);
        lemma_mul_assoc(c, h, x);
        lemma_gf_ranges(h, x);
        lemma_mul_distrib(c, gf_mul(h, x), a[0]);
    }
}

/// Evaluating a negated polynomial.
pub proof fn lemma_horner_neg(a: Seq<nat>, x: nat)
    requires
        x < 729,
        symbols(a),
    ensures
        horner(Seq::new(a.len(), |i: int| gf_sub(0, a[i])), x) == gf_sub(0, horner(a, x)),
{
    let n = Seq::new(a.len(), |i: int| gf_sub(0, a[i]));
    let m = Seq::new(a.len(), |i: int| gf_mul(2, a[i]));
    assert forall|i: int| 0 <= i < a.len() implies #[trigger] n[i] == m[i] by {
        lemma_neg_scale(a[i]);
        lemma_mul_scalar_left(2, a[i]);
    }
    assert(n =~= m);
    lemma_horner_scale(2, a, x);
    lemma_horner_range(a, x);
    lemma_neg_scale(horner(a, x));
    lemma_mul_scalar_left(2, horner(a, x));
}

/// Evaluating a coefficient-wise difference.
pub proof fn lemma_horner_sub(a: Seq<nat>, b: Seq<nat>, x: nat)
    requires
        a.len() == b.len(),
        x < 729,
        symbols(b),
    ensures
        horner(Seq::new(a.len(), |i: int| gf_sub(a[i], b[i])), x) == gf_sub(horner(a, x), horner(b, x)),
{
    let nb = Seq::new(b.len(), |i: int| gf_sub(0, b[i]));
    let d = Seq::new(a.len(), |i: int| gf_sub(a[i], b[i]));
    assert forall|i: int| 0 <= i < a.len() implies #[trigger] d[i] == gf_add(a[i], nb[i]) by {
        lemma_sub_add_neg(a[i], b[i]);
    }
    assert(d =~= Seq::new(a.len(), |i: int| gf_add(a[i], nb[i])));
    lemma_horner_add(a, nb, x);
    lemma_horner_neg(b, x);
    lemma_sub_add_neg(horner(a, x), horner(b, x));
}

/// The zero polynomial evaluates to zero.
pub proof fn lemma_horner_zeros(n: nat, x: nat)
    requires
        x < 729,
    ensures
        horner(Seq::new(n, |i: int| 0nat), x) == 0,
    decreases n,
{
    let z = Seq::new(n, |i: int| 0nat);
    if n > 0 {
        assert(z.drop_first() =~= Seq::new((n - 1) as nat, |i: int| 0nat));
        lemma_horner_zeros((n - 1) as nat, x);
        lemma_mul_zero(x);
        lemma_add_zero(0);
    }
}

/// The generator has `t + 1` field coefficients and leading coefficient 1.
pub proof fn lemma_generator_shape(t: nat)
    ensures
        generator(t).len() == t + 1,
        symbols(generator(t)),
        generator(t)[t as int] == 1,
    decreases t,
{
    if t > 0 {
        lemma_generator_shape((t - 1) as nat);
        let g = generator((t - 1) as nat);
        let c = gf_sub(0, gf_exp(t % 728));
        let r = times_root(g, c);
        assert forall|k: int| 0 <= k < r.len() implies #[trigger] r[k] < 729 by {
            lemma_gf_ranges(0, g[k - 1]);
            if k < g.len() {
                lemma_gf_ranges(if k >= 1 { gf_add(0, g[k - 1]) } else { 0 }, gf_mul(c, g[k]));
            }
        }
        lemma_add_zero(g[t - 1]);
    }
}

/// `g·(x + c)` is `x·g + c·g`, coefficient by coefficient.
proof fn lemma_times_root_split(g: Seq<nat>, c: nat)
    requires
        symbols(g),
        g.len() >= 1,
    ensures
        times_root(g, c) =~= Seq::new(
            g.len() + 1,
            |k: int| gf_add((seq![0nat] + g)[k], (Seq::new(g.len(), |i: int| gf_mul(c, g[i])) + seq![0nat])[k]),
        ),
{
    let n = g.len();
    let a = seq![0nat] + g;
    let b = Seq::new(n, |i: int| gf_mul(c, g[i])) + seq![0nat];
    let r = times_root(g, c);
    assert forall|k: int| 0 <= k < n + 1 implies #[trigger] r[k] == gf_add(a[k], b[k]) by {
        if k >= 1 {
            lemma_add_zero(g[k - 1]);
        }
    }
}

proof fn lemma_horner_zero1(x: nat)
    requires
        x < 729,
    ensures
        horner(seq![0nat], x) == 0,
{
    assert(seq![0nat].drop_first() =~= Seq::<nat>::empty());
    assert(horner(Seq::<nat>::empty(), x) == 0);
    lemma_mul_zero(x);
    lemma_add_zero(0);
}

proof fn lemma_pw1(x: nat)
    requires
        x < 729,
    ensures
        pw(x, 1) == x,
{
    assert(pw(x, 0) == 1);
    lemma_mul_one(x);
}

/// `([0] ‖ g)(x) = g(x)·x`.
proof fn lemma_horner_shift1(g: Seq<nat>, x: nat)
    requires
        x < 729,
    ensures
        horner(seq![0nat] + g, x) == gf_mul(horner(g, x), x),
{
    let hg = horner(g, x);
    lemma_horner_range(g, x);
    lemma_horner_concat(seq![0nat], g, x);
    lemma_horner_zero1(x);
    lemma_pw1(x);
    lemma_gf_ranges(hg, x);
    lemma_add_zero(gf_mul(hg, x));
}

/// `(c·g ‖ [0])(x) = c·g(x)`.
proof fn lemma_horner_scaled_pad(g: Seq<nat>, c: nat, x: nat)
    requires
        symbols(g),
        c < 729,
        x < 729,
    ensures
        horner(Seq::new(g.len(), |i: int| gf_mul(c, g[i])) + seq![0nat], x) == gf_mul(c, horner(g, x)),
{
    let cg = Seq::new(g.len(), |i: int| gf_mul(c, g[i]));
    lemma_horner_concat(cg, seq![0nat], x);
    lemma_horner_zero1(x);
    lemma_pw_range(x, g.len());
    lemma_mul_zero(pw(x, g.len()));
    lemma_horner_scale(c, g, x);
    lemma_horner_range(g, x);
    lemma_gf_ranges(c, horner(g, x));
    lemma_add_zero(gf_mul(c, horner(g, x)));
}

/// `(g·(x + c))(β) = g(β)·(β + c)`.
pub proof fn lemma_times_root_eval(g: Seq<nat>, c: nat, x: nat)
    requires
        symbols(g),
        g.len() >= 1,
        c < 729,
        x < 729,
    ensures
        horner(times_root(g, c), x) == gf_mul(horner(g, x), gf_add(x, c)),
{
    let a = seq![0nat] + g;
    let b = Seq::new(g.len(), |i: int| gf_mul(c, g[i])) + seq![0nat];
    lemma_times_root_split(g, c);
    lemma_horner_add(a, b, x);
    lemma_horner_shift1(g, x);
    lemma_horner_scaled_pad(g, c, x);
    let hg = horner(g, x);
    lemma_horner_range(g, x);
    lemma_mul_comm(c, hg);
    lemma_mul_distrib(hg, x, c);
}

/// The generator vanishes at `α¹, …, αᵗ`.
pub proof fn lemma_generator_root(t: nat, j: nat)
    requires
        1 <= j <= t,
    ensures
        horner(generator(t), gf_exp(j % 728)) == 0,
    decreases t,
{
    let beta = gf_exp(j % 728);
    lemma_exp_range(j % 728);
    lemma_exp_range(t % 728);
    lemma_generator_shape((t - 1) as nat);
    let g = generator((t - 1) as nat);
    let c = gf_sub(0, gf_exp(t % 728));
    lemma_gf_ranges(0, gf_exp(t % 728));
    lemma_times_root_eval(g, c, beta);
    lemma_horner_range(g, beta);
    lemma_gf_ranges(beta, c);
    if j == t {
        lemma_add_neg(beta);
        lemma_mul_zero(horner(g, beta));
    } else {
        lemma_generator_root((t - 1) as nat, j);
        lemma_mul_zero(gf_add(beta, c));
    }
}

/// `a − 0 = a` and `a − a = 0`.
proof fn lemma_sub_facts(a: nat)
    requires
        a < 729,
    ensures
        gf_sub(a, 0) == a,
        gf_sub(a, a) == 0,
        gf_sub(0, 0) == 0,
{
    lemma_add_neg(0);
    lemma_gf_ranges(0, 0);
    lemma_add_zero(gf_sub(0, 0));
    lemma_sub_add_neg(a, 0);
    lemma_add_zero(a);
    lemma_sub_add_neg(a, a);
    lemma_add_neg(a);
}

/// The polynomial `factor · xᵒ · g` as `len` coefficients.
pub open spec fn shifted_multiple(g: Seq<nat>, factor: nat, o: int, len: nat) -> Seq<nat> {
    Seq::new(len, |k: int| if o <= k < o + g.len() { gf_mul(factor, g[k - o]) } else { 0 })
}

/// A multiple of `g`, shifted, vanishes wherever `g` does.
proof fn lemma_shifted_multiple_root(g: Seq<nat>, factor: nat, o: nat, len: nat, x: nat)
    requires
        symbols(g),
        factor < 729,
        x < 729,
        o + g.len() <= len,
        horner(g, x) == 0,
    ensures
        horner(shifted_multiple(g, factor, o as int, len), x) == 0,
        symbols(shifted_multiple(g, factor, o as int, len)),
{
    let t = shifted_multiple(g, factor, o as int, len);
    let z1 = Seq::new(o, |k: int| 0nat);
    let fg = Seq::new(g.len(), |j: int| gf_mul(factor, g[j]));
    let z2 = Seq::new((len - o - g.len()) as nat, |k: int| 0nat);
    assert forall|k: int| 0 <= k < t.len() implies #[trigger] t[k] < 729 by {
        lemma_gf_ranges(factor, g[k - o]);
    }
    assert(t =~= z1 + (fg + z2));
    lemma_horner_concat(z1, fg + z2, x);
    lemma_horner_concat(fg, z2, x);
    lemma_horner_zeros(o, x);
    lemma_horner_zeros((len - o - g.len()) as nat, x);
    lemma_pw_range(x, fg.len());
    lemma_pw_range(x, o);
    lemma_mul_zero(pw(x, fg.len()));
    lemma_horner_scale(factor, g, x);
    lemma_mul_zero(factor);
    lemma_add_zero(0);
    lemma_mul_zero(pw(x, o));
}

/// One division step keeps the value at a root of `g` and clears the
/// cancelled coefficient.
proof fn lemma_encode_steps(rem: Seq<nat>, g: Seq<nat>, p: nat, i: int, x: nat)
    requires
        g.len() == p + 1,
        symbols(g),
        g[p as int] == 1,
        horner(g, x) == 0,
        x < 729,
        symbols(rem),
        p <= i <= rem.len(),
        forall|k: int| i <= k < rem.len() ==> #[trigger] rem[k] == 0,
    ensures
        encode_steps(rem, g, 1, p as int, i).len() == rem.len(),
        symbols(encode_steps(rem, g, 1, p as int, i)),
        forall|k: int|
            p <= k < rem.len() ==> #[trigger] encode_steps(rem, g, 1, p as int, i)[k] == 0,
        horner(encode_steps(rem, g, 1, p as int, i), x) == horner(rem, x),
    decreases i - p,
{
    if i > p {
        let pos = i - 1;
        let coeff = rem[pos];
        if coeff == 0 {
            lemma_encode_steps(rem, g, p, pos, x);
        } else {
            let factor = gf_mul(coeff, 1);
            lemma_mul_one(coeff);
            let o = pos - p;
            let rem2 = Seq::new(
                rem.len(),
                |k: int|
                    if pos - p <= k <= pos {
                        gf_sub(rem[k], gf_mul(factor, g[k - (pos - p)]))
                    } else {
                        rem[k]
                    },
            );
            let t = shifted_multiple(g, factor, o, rem.len());
            lemma_shifted_multiple_root(g, factor, o as nat, rem.len(), x);
            assert forall|k: int| 0 <= k < rem.len() implies #[trigger] rem2[k] == gf_sub(rem[k], t[k]) by {
                lemma_sub_facts(rem[k]);
            }
            assert(rem2 =~= Seq::new(rem.len(), |k: int| gf_sub(rem[k], t[k])));
            lemma_horner_sub(rem, t, x);
            lemma_horner_range(rem, x);
            lemma_sub_facts(horner(rem, x));
            assert forall|k: int| 0 <= k < rem2.len() implies #[trigger] rem2[k] < 729 by {
                lemma_gf_ranges(rem[k], t[k]);
            }
            lemma_sub_facts(coeff);
            assert(rem2[pos] == 0);
            lemma_encode_steps(rem2, g, p, pos, x);
        }
    }
}

/// A systematic codeword vanishes at `α¹, …, αᵖ`.
pub proof fn lemma_codeword_roots(p: nat, data: Seq<nat>, j: nat)
    requires
        symbols(data),
        1 <= j <= p,
    ensures
        horner(spec_encode(p, data), gf_exp(j % 728)) == 0,
{
    let x = gf_exp(j % 728);
    lemma_exp_range(j % 728);
    let n = data.len() + p;
    let zp = Seq::new(p, |k: int| 0nat);
    let shifted = Seq::new(n, |k: int| if k < p { 0nat } else { data[k - p] });
    assert(shifted =~= zp + data);
    lemma_horner_concat(zp, data, x);
    lemma_horner_zeros(p, x);
    lemma_horner_range(data, x);
    lemma_pw_range(x, p);
    lemma_gf_ranges(horner(data, x), pw(x, p));
    lemma_add_zero(gf_mul(horner(data, x), pw(x, p)));
    if data.len() == 0 {
        assert(shifted =~= Seq::new(n, |k: int| 0nat));
        lemma_horner_zeros(n, x);
    } else {
        let g = generator(p);
        lemma_generator_shape(p);
        lemma_generator_root(p, j);
        assert(spec_inv(1) == 1) by {
            lemma_mul_one(1);
        }
        assert forall|k: int| 0 <= k < shifted.len() implies #[trigger] shifted[k] < 729 by {
        }
        lemma_encode_steps(shifted, g, p, n as int, x);
        let r = encode_steps(shifted, g, 1, p as int, n as int);
        let rlow = r.subrange(0, p as int);
        let zhigh = Seq::new(data.len(), |k: int| 0nat);
        assert(r =~= rlow + zhigh);
        lemma_horner_concat(rlow, zhigh, x);
        lemma_horner_zeros(data.len(), x);
        lemma_pw_range(x, p);
        lemma_mul_zero(pw(x, p));
        lemma_horner_range(rlow, x);
        lemma_add_zero(horner(rlow, x));
        let neg = Seq::new(p, |k: int| gf_sub(0, rlow[k]));
        assert(spec_encode(p, data) =~= neg + data);
        lemma_horner_concat(neg, data, x);
        assert(symbols(rlow));
        lemma_horner_neg(rlow, x);
        lemma_add_neg(horner(rlow, x));
    }
}

/// A systematic codeword of field symbols has field symbols.
pub proof fn lemma_encode_symbols(p: nat, data: Seq<nat>)
    requires
        symbols(data),
        p >= 1,
    ensures
        symbols(spec_encode(p, data)),
        spec_encode(p, data).len() == data.len() + p,
{
    let n = data.len() + p;
    let shifted = Seq::new(n, |k: int| if k < p { 0nat } else { data[k - p] });
    if data.len() > 0 {
        let x = gf_exp(1);
        lemma_exp_range(1);
        lemma_generator_shape(p);
        lemma_generator_root(p, 1);
        assert(spec_inv(1) == 1) by {
            lemma_mul_one(1);
        }
        assert forall|k: int| 0 <= k < shifted.len() implies #[trigger] shifted[k] < 729 by {
        }
        lemma_encode_steps(shifted, generator(p), p, n as int, x);
        let r = encode_steps(shifted, generator(p), 1, p as int, n as int);
        let c = spec_encode(p, data);
        assert forall|k: int| 0 <= k < c.len() implies #[trigger] c[k] < 729 by {
            if k < p {
                lemma_gf_ranges(0, r[k]);
            }
        }
    }
}

/// Encoding then decoding gives the data back: a systematic codeword has
/// zero syndromes, so it decodes to its data part whatever erasures are
/// reported.
pub proof fn law_encode_decode(p: nat, data: Seq<nat>, es: Seq<usize>)
    requires
        symbols(data),
    ensures
        spec_decode(p, spec_encode(p, data), es) == Ok::<Seq<nat>, RsError>(data),
{
    let c = spec_encode(p, data);
    assert forall|i: int| 0 <= i < p implies #[trigger] syndromes(c, p)[i] == 0 by {
        lemma_codeword_roots(p, data, (i + 1) as nat);
    }
    law_clean_word_decodes(p, c, es);
    assert(c.subrange(p as int, c.len() as int) =~= data);
}

} // verus!
