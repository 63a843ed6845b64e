//! Arithmetic in the field GF(3⁶) = GF(3)[x] / (x⁶ + x + 2).
//!
//! A field element is stored as a symbol in `0..729`: the base-3 digits of the
//! symbol, least significant first, are the coefficients of the polynomial
//! (digit `i` is the coefficient of `xⁱ`). Addition and subtraction work digit
//! by digit modulo 3; multiplication is polynomial multiplication reduced by
//! `x⁶ = 2x + 1`. The class of `x` (called α) generates the 728 nonzero
//! elements.
use vstd::prelude::*;

verus! {

/// Number of trits in one GF(3⁶) symbol.
pub const TRITS_PER_SYMBOL: usize = 6;

/// Order of the multiplicative group of GF(3⁶).
pub const FIELD_ORDER: usize = 728;

/// Number of field elements.
pub const FIELD_SIZE: usize = 729;

/// `3ⁿ`.
pub open spec fn pow3(n: nat) -> nat
    decreases n,
{
    if n == 0 {
        1
    } else {
        3 * pow3((n - 1) as nat)
    }
}

/// Digit-wise sum modulo 3 of the lowest `k` base-3 digits of `a` and `b`.
pub open spec fn digits_add(a: nat, b: nat, k: nat) -> nat
    decreases k,
{
    if k == 0 {
        0
    } else {
        (a % 3 + b % 3) % 3 + 3 * digits_add(a / 3, b / 3, (k - 1) as nat)
    }
}

/// Digit-wise difference modulo 3 of the lowest `k` base-3 digits of `a` and `b`.
pub open spec fn digits_sub(a: nat, b: nat, k: nat) -> nat
    decreases k,
{
    if k == 0 {
        0
    } else {
        ((a % 3 + 3 - b % 3) % 3) as nat + 3 * digits_sub(a / 3, b / 3, (k - 1) as nat)
    }
}

/// Field addition.
pub open spec fn gf_add(a: nat, b: nat) -> nat {
    digits_add(a, b, 6)
}

/// Field subtraction.
pub open spec fn gf_sub(a: nat, b: nat) -> nat {
    digits_sub(a, b, 6)
}

/// Multiplication by α: shift the coefficients up one place and fold the
/// coefficient of x⁶ back in as `2x + 1`.
pub open spec fn gf_xtime(a: nat) -> nat {
    let top = (a / 243) % 3;
    top + 3 * ((a % 3 + 2 * top) % 3) + 9 * ((a % 243) / 3)
}

/// `c · a` for a scalar `c` of GF(3).
pub open spec fn gf_scale(a: nat, c: nat) -> nat {
    if c % 3 == 0 {
        0
    } else if c % 3 == 1 {
        digits_add(a, 0, 6)
    } else {
        gf_add(a, a)
    }
}

/// `a · (b mod 3ᵏ)`, by Horner's rule over the digits of `b`.
pub open spec fn mul_digits(a: nat, b: nat, k: nat) -> nat
    decreases k,
{
    if k == 0 {
        0
    } else {
        gf_add(gf_scale(a, b % 3), gf_xtime(mul_digits(a, b / 3, (k - 1) as nat)))
    }
}

/// Field multiplication.
pub open spec fn gf_mul(a: nat, b: nat) -> nat {
    mul_digits(a, b, 6)
}

/// `αⁿ`.
pub open spec fn gf_exp(n: nat) -> nat
    decreases n,
{
    if n == 0 {
        1
    } else {
        gf_xtime(gf_exp((n - 1) as nat))
    }
}

/// `a` has a multiplicative inverse.
pub open spec fn invertible(a: nat) -> bool {
    exists|b: nat| b < 729 && #[trigger] gf_mul(a, b) == 1
}

/// The value of a trit sequence read as a base-3 number, least significant first.
pub open spec fn trits_value(s: Seq<u8>) -> nat
    decreases s.len(),
{
    if s.len() == 0 {
        0
    } else {
        trits_value(s.drop_last()) + pow3((s.len() - 1) as nat) * (s.last() as nat)
    }
}

/// The symbol read from at most six trits, each taken modulo 3.
pub open spec fn symbol_of(s: Seq<u8>) -> nat
    decreases s.len(),
{
    if s.len() == 0 {
        0
    } else {
        (s[0] % 3) as nat + 3 * symbol_of(s.drop_first())
    }
}

/// The first six elements of `s` (all of `s` when it is shorter).
pub open spec fn prefix6(s: Seq<u8>) -> Seq<u8> {
    if s.len() < 6 {
        s
    } else {
        s.take(6)
    }
}

/// Base-3 digit `i` of `a`.
pub open spec fn digit(a: nat, i: nat) -> nat {
    (a / pow3(i)) % 3
}

pub proof fn lemma_pow3_small()
    ensures
        pow3(0) == 1,
        pow3(1) == 3,
        pow3(2) == 9,
        pow3(3) == 27,
        pow3(4) == 81,
        pow3(5) == 243,
        pow3(6) == 729,
{
    reveal_with_fuel(pow3, 7);
}

pub proof fn lemma_pow3_positive(n: nat)
    ensures
        pow3(n) >= 1,
    decreases n,
{
    if n > 0 {
        lemma_pow3_positive((n - 1) as nat);
    }
}

proof fn lemma_digits_add_bound(a: nat, b: nat, k: nat)
    ensures
        digits_add(a, b, k) < pow3(k),
    decreases k,
{
    if k > 0 {
        lemma_digits_add_bound(a / 3, b / 3, (k - 1) as nat);
    }
}

proof fn lemma_digits_sub_bound(a: nat, b: nat, k: nat)
    ensures
        digits_sub(a, b, k) < pow3(k),
    decreases k,
{
    if k > 0 {
        lemma_digits_sub_bound(a / 3, b / 3, (k - 1) as nat);
    }
}

/// Every field operation yields a symbol below 729.
pub proof fn lemma_gf_ranges(a: nat, b: nat)
    ensures
        gf_add(a, b) < 729,
        gf_sub(a, b) < 729,
        gf_xtime(a) < 729,
        gf_scale(a, b) < 729,
        gf_mul(a, b) < 729,
{
    lemma_pow3_small();
    lemma_digits_add_bound(a, b, 6);
    lemma_digits_sub_bound(a, b, 6);
    lemma_digits_add_bound(a, a, 6);
    lemma_digits_add_bound(a, 0, 6);
    lemma_mul_digits_bound(a, b, 6);
}

proof fn lemma_mul_digits_bound(a: nat, b: nat, k: nat)
    ensures
        mul_digits(a, b, k) < 729,
    decreases k,
{
    lemma_pow3_small();
    if k > 0 {
        lemma_digits_add_bound(
            gf_scale(a, b % 3),
            gf_xtime(mul_digits(a, b / 3, (k - 1) as nat)),
            6,
        );
    }
}

/// The symbol `exp(n)` is a field element.
pub proof fn lemma_exp_range(n: nat)
    ensures
        gf_exp(n) < 729,
    decreases n,
{
    if n > 0 {
        lemma_exp_range((n - 1) as nat);
    }
}

fn add_digits_exec(a: u16, b: u16, k: u8) -> (r: u16)
    requires
        k <= 6,
    ensures
        r == digits_add(a as nat, b as nat, k as nat),
        r < pow3(k as nat),
    decreases k,
{
    proof {
        lemma_pow3_small();
        reveal_with_fuel(pow3, 2);
    }
    if k == 0 {
        0
    } else {
        let d = (a % 3 + b % 3) % 3;
        let rest = add_digits_exec(a / 3, b / 3, k - 1);
        proof {
            lemma_pow3_monotone((k - 1) as nat, 5);
        }
        d + 3 * rest
    }
}

fn sub_digits_exec(a: u16, b: u16, k: u8) -> (r: u16)
    requires
        k <= 6,
    ensures
        r == digits_sub(a as nat, b as nat, k as nat),
        r < pow3(k as nat),
    decreases k,
{
    proof {
        lemma_pow3_small();
        reveal_with_fuel(pow3, 2);
    }
    if k == 0 {
        0
    } else {
        let d = (a % 3 + 3 - b % 3) % 3;
        let rest = sub_digits_exec(a / 3, b / 3, k - 1);
        proof {
            lemma_pow3_monotone((k - 1) as nat, 5);
        }
        d + 3 * rest
    }
}

proof fn lemma_pow3_monotone(i: nat, j: nat)
    requires
        i <= j,
    ensures
        pow3(i) <= pow3(j),
    decreases j,
{
    if i < j {
        lemma_pow3_monotone(i, (j - 1) as nat);
        lemma_pow3_positive((j - 1) as nat);
    }
}

/// Multiplication by α on symbols.
pub fn xtime(a: u16) -> (r: u16)
    ensures
        r == gf_xtime(a as nat),
        r < 729,
{
    let top = (a / 243) % 3;
    top + 3 * ((a % 3 + 2 * top) % 3) + 9 * ((a % 243) / 3)
}

fn mul_digits_exec(a: u16, b: u16, k: u8) -> (r: u16)
    requires
        k <= 6,
    ensures
        r == mul_digits(a as nat, b as nat, k as nat),
        r < 729,
    decreases k,
{
    proof {
        lemma_pow3_small();
    }
    if k == 0 {
        0
    } else {
        let c = b % 3;
        let scaled = if c == 0 {
            0
        } else if c == 1 {
            add_digits_exec(a, 0, 6)
        } else {
            add_digits_exec(a, a, 6)
        };
        let rest = mul_digits_exec(a, b / 3, k - 1);
        add_digits_exec(scaled, xtime(rest), 6)
    }
}

/// Convert up to six trits (least significant first, each taken modulo 3)
/// into a GF(3⁶) symbol.
pub fn trits_to_symbol(chunk: &[u8]) -> (r: u16)
    ensures
        r == symbol_of(prefix6(chunk@)),
        r < 729,
{
    let n = if chunk.len() < 6 { chunk.len() } else { 6 };
    let mut acc: u16 = 0;
    let mut i = n;
    proof {
        lemma_pow3_small();
    }
    while i > 0
        invariant
            i <= n <= 6,
            n == (if chunk@.len() < 6 { chunk@.len() } else { 6 }),
            acc == symbol_of(prefix6(chunk@).subrange(i as int, n as int)),
            prefix6(chunk@).len() == n,
            acc < pow3((n - i) as nat),
        decreases i,
    {
        let ghost s = prefix6(chunk@);
        i = i - 1;
        assert(s.subrange(i as int, n as int).drop_first() =~= s.subrange(i + 1, n as int));
        proof {
            lemma_pow3_small();
            lemma_pow3_monotone((n - i - 1) as nat, 5);
            reveal_with_fuel(pow3, 2);
            assert(s[i as int] == chunk@[i as int]);
        }
        acc = (chunk[i] % 3) as u16 + 3 * acc;
    }
    assert(prefix6(chunk@).subrange(0, n as int) =~= prefix6(chunk@));
    acc
}

/// The six trits of a symbol, least significant first.
pub fn symbol_to_trits(sym: u16) -> (r: [u8; 6])
    ensures
        forall|i: int| 0 <= i < 6 ==> #[trigger] r@[i] == digit(sym as nat, i as nat),
        forall|i: int| 0 <= i < 6 ==> #[trigger] r@[i] < 3,
{
    proof {
        lemma_pow3_small();
    }
    let mut out = [0u8; 6];
    let mut v = sym;
    let mut i: usize = 0;
    while i < 6
        invariant
            0 <= i <= 6,
            v == sym as nat / pow3(i as nat),
            forall|j: int| 0 <= j < i ==> #[trigger] out@[j] == digit(sym as nat, j as nat),
            forall|j: int| 0 <= j < i ==> #[trigger] out@[j] < 3,
        decreases 6 - i,
    {
        out[i] = (v % 3) as u8;
        proof {
            lemma_pow3_positive(i as nat);
            vstd::arithmetic::div_mod::lemma_div_denominator(sym as int, pow3(i as nat) as int, 3);
            assert(pow3((i + 1) as nat) == pow3(i as nat) * 3);
        }
        v = v / 3;
        i = i + 1;
    }
    out
}

/// GF(3⁶) arithmetic with a precomputed table of the powers of α.
pub struct GF3 {
    exp_table: Vec<u16>,
}

impl GF3 {
    /// The power table holds `αⁱ` for `i < 728`.
    pub closed spec fn wf(&self) -> bool {
        &&& self.exp_table@.len() == FIELD_ORDER
        &&& forall|i: int| 0 <= i < FIELD_ORDER ==> #[trigger] self.exp_table@[i] == gf_exp(i as nat)
    }

    /// Build the table of powers of α.
    pub fn new() -> (gf: GF3)
        ensures
            gf.wf(),
    {
        let mut exp_table: Vec<u16> = Vec::with_capacity(FIELD_ORDER);
        let mut cur: u16 = 1;
        let mut i: usize = 0;
        while i < FIELD_ORDER
            invariant
                0 <= i <= FIELD_ORDER,
                exp_table@.len() == i,
                cur == gf_exp(i as nat),
                forall|j: int| 0 <= j < i ==> #[trigger] exp_table@[j] == gf_exp(j as nat),
            decreases FIELD_ORDER - i,
        {
            exp_table.push(cur);
            cur = xtime(cur);
            i = i + 1;
        }
        GF3 { exp_table }
    }

    /// Field addition.
    pub fn add(&self, a: u16, b: u16) -> (r: u16)
        ensures
            r == gf_add(a as nat, b as nat),
            r < 729,
    {
        proof {
            lemma_pow3_small();
        }
        add_digits_exec(a, b, 6)
    }

    /// Field subtraction.
    pub fn sub(&self, a: u16, b: u16) -> (r: u16)
        ensures
            r == gf_sub(a as nat, b as nat),
            r < 729,
    {
        proof {
            lemma_pow3_small();
        }
        sub_digits_exec(a, b, 6)
    }

    /// Field multiplication.
    pub fn mul(&self, a: u16, b: u16) -> (r: u16)
        ensures
            r == gf_mul(a as nat, b as nat),
            r < 729,
    {
        mul_digits_exec(a, b, 6)
    }

    /// `α^(i mod 728)`.
    pub fn exp(&self, i: usize) -> (r: u16)
        requires
            self.wf(),
        ensures
            r == gf_exp((i % FIELD_ORDER) as nat),
            r < 729,
    {
        proof {
            lemma_exp_range((i % FIELD_ORDER) as nat);
        }
        self.exp_table[i % FIELD_ORDER]
    }

    /// The multiplicative inverse of `a` (the least one, should there be
    /// several), or 0 when `a` has none.
    pub fn inv(&self, a: u16) -> (r: u16)
        ensures
            r == spec_inv(a as nat),
            r < 729,
            r != 0 ==> gf_mul(a as nat, r as nat) == 1,
            r == 0 ==> !invertible(a as nat),
    {
        let mut b: u16 = 1;
        while b < 729
            invariant
                1 <= b <= 729,
                spec_inv(a as nat) == inv_from(a as nat, b as nat),
                forall|c: nat| 1 <= c < b ==> #[trigger] gf_mul(a as nat, c) != 1,
            decreases 729 - b,
        {
            if self.mul(a, b) == 1 {
                return b;
            }
            b = b + 1;
        }
        proof {
            assert forall|c: nat| c < 729 implies #[trigger] gf_mul(a as nat, c) != 1 by {
                if c == 0 {
                    lemma_mul_by_zero(a as nat);
                }
            }
        }
        0
    }

    /// Field division `a / b`: `a` times the inverse of `b` (0 when `b` has none).
    pub fn div(&self, a: u16, b: u16) -> (r: u16)
        ensures
            r == gf_mul(a as nat, spec_inv(b as nat)),
            r < 729,
    {
        let ib = self.inv(b);
        self.mul(a, ib)
    }
}

/// The least `c` in `start .. 729` with `a · c = 1`, or 0 when there is none.
pub open spec fn inv_from(a: nat, start: nat) -> nat
    decreases 729 - start,
{
    if start >= 729 {
        0
    } else if gf_mul(a, start) == 1 {
        start
    } else {
        inv_from(a, start + 1)
    }
}

/// The multiplicative inverse of `a` (the least, should there be several),
/// or 0 when there is none.
pub open spec fn spec_inv(a: nat) -> nat {
    inv_from(a, 1)
}

/// Anything times zero is zero.
pub proof fn lemma_mul_by_zero(a: nat)
    ensures
        gf_mul(a, 0) == 0,
{
    reveal_with_fuel(mul_digits, 7);
    reveal_with_fuel(digits_add, 7);
}

} // verus!
