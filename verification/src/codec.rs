//! Byte ↔ trit conversion and the fixed-width length prefix.
//!
//! Each byte becomes six trits, least significant first (3⁶ = 729 ≥ 256).
use vstd::prelude::*;
use vstd::arithmetic::div_mod::{lemma_breakdown, lemma_div_denominator, lemma_fundamental_div_mod_converse};
use crate::gf3::{digit, pow3, trits_value, lemma_pow3_positive, lemma_pow3_small};

verus! {

/// Errors of the trit codec.
#[derive(Debug, PartialEq, Eq)]
pub enum CodecError {
    /// A trit value above 2 at the given index.
    InvalidTrit(u8, usize),
    /// A trit sequence whose length is not a multiple of 6.
    BadLength(usize),
    /// A six-trit group whose value does not fit in a byte.
    Overflow(u32),
}

/// Converts between raw bytes and trit arrays.
pub trait TernaryCodec {
    /// Expand bytes into trits (six trits per byte).
    fn encode_bytes(data: &[u8]) -> Result<Vec<u8>, CodecError>;

    /// Reconstruct bytes from a trit array.
    fn decode_trits(trits: &[u8]) -> Result<Vec<u8>, CodecError>;
}

/// Plain base-3 expansion: six trits per byte, least significant first.
pub struct MockCodec;

/// The trits of `d`: byte `k` becomes trits `6k .. 6k + 6`.
pub open spec fn spec_encode_bytes(d: Seq<u8>) -> Seq<u8> {
    Seq::new(6 * d.len(), |k: int| digit(d[k / 6] as nat, (k % 6) as nat) as u8)
}

/// Six-trit group `k` of `s`.
pub open spec fn chunk(s: Seq<u8>, k: int) -> Seq<u8> {
    s.subrange(6 * k, 6 * k + 6)
}

/// Group `k` of `s` holds only trits 0..2 and encodes a byte.
pub open spec fn chunk_valid(s: Seq<u8>, k: int) -> bool {
    &&& forall|j: int| 0 <= j < 6 ==> #[trigger] s[6 * k + j] <= 2
    &&& trits_value(chunk(s, k)) <= 255
}

/// `s` is a valid trit stream and `bytes` is what it encodes.
pub open spec fn decodes_to(s: Seq<u8>, bytes: Seq<u8>) -> bool {
    &&& s.len() % 6 == 0
    &&& bytes.len() == s.len() / 6
    &&& forall|k: int| 0 <= k < bytes.len() ==> #[trigger] chunk_valid(s, k)
    &&& forall|k: int| 0 <= k < bytes.len() ==> #[trigger] bytes[k] as nat == trits_value(chunk(s, k))
}

/// Every group of `s` is valid.
pub open spec fn all_chunks_valid(s: Seq<u8>) -> bool {
    forall|k: int| 0 <= k < s.len() / 6 ==> #[trigger] chunk_valid(s, k)
}

impl TernaryCodec for MockCodec {
    fn encode_bytes(data: &[u8]) -> (r: Result<Vec<u8>, CodecError>)
        ensures
            r matches Ok(trits) && trits@ == spec_encode_bytes(data@),
    {
        let n = data.len();
        let mut trits: Vec<u8> = Vec::new();
        let mut i: usize = 0;
        while i < n
            invariant
                n == data@.len(),
                0 <= i <= n,
                trits@.len() == 6 * i,
                forall|t: int| 0 <= t < 6 * i ==> #[trigger] trits@[t] == digit(data@[t / 6] as nat, (t % 6) as nat) as u8,
            decreases n - i,
        {
            let byte = data[i];
            let mut val: u32 = byte as u32;
            let mut j: usize = 0;
            proof {
                lemma_pow3_small();
            }
            while j < 6
                invariant
                    n == data@.len(),
                    0 <= i < n,
                    0 <= j <= 6,
                    byte == data@[i as int],
                    trits@.len() == 6 * i + j,
                    val == byte as nat / pow3(j as nat),
                    forall|t: int| 0 <= t < 6 * i + j ==> #[trigger] trits@[t] == digit(data@[t / 6] as nat, (t % 6) as nat) as u8,
                decreases 6 - j,
            {
                proof {
                    lemma_fundamental_div_mod_converse(6 * i + j, 6, i as int, j as int);
                    lemma_pow3_positive(j as nat);
                    lemma_div_denominator(byte as int, pow3(j as nat) as int, 3);
                    assert(pow3((j + 1) as nat) == pow3(j as nat) * 3);
                }
                trits.push((val % 3) as u8);
                val = val / 3;
                j = j + 1;
            }
            i = i + 1;
        }
        proof {
            assert(trits@ =~= spec_encode_bytes(data@));
        }
        Ok(trits)
    }

    fn decode_trits(trits: &[u8]) -> (r: Result<Vec<u8>, CodecError>)
        ensures
            r is Ok <==> (trits@.len() % 6 == 0 && all_chunks_valid(trits@)),
            match r {
                Ok(bytes) => decodes_to(trits@, bytes@),
                Err(CodecError::BadLength(n)) => trits@.len() % 6 != 0 && n == trits@.len(),
                Err(CodecError::InvalidTrit(t, idx)) => {
                    &&& trits@.len() % 6 == 0
                    &&& idx < trits@.len()
                    &&& trits@[idx as int] == t
                    &&& t > 2
                    &&& forall|k: int| 0 <= k < idx / 6 ==> #[trigger] chunk_valid(trits@, k)
                    &&& forall|j: int| 6 * (idx / 6) <= j < idx ==> #[trigger] trits@[j] <= 2
                },
                Err(CodecError::Overflow(v)) => {
                    &&& trits@.len() % 6 == 0
                    &&& exists|k: int|
                        {
                            &&& 0 <= k < trits@.len() / 6
                            &&& forall|kk: int| 0 <= kk < k ==> #[trigger] chunk_valid(trits@, kk)
                            &&& forall|j: int| 0 <= j < 6 ==> #[trigger] trits@[6 * k + j] <= 2
                            &&& v as nat == trits_value(chunk(trits@, k))
                            &&& v > 255
                        }
                },
            },
    {
        let len = trits.len();
        if len % 6 != 0 {
            return Err(CodecError::BadLength(len));
        }
        let groups = len / 6;
        let mut bytes: Vec<u8> = Vec::new();
        let mut k: usize = 0;
        while k < groups
            invariant
                len == trits@.len(),
                len % 6 == 0,
                groups == len / 6,
                0 <= k <= groups,
                bytes@.len() == k,
                forall|kk: int| 0 <= kk < k ==> #[trigger] chunk_valid(trits@, kk),
                forall|kk: int| 0 <= kk < k ==> #[trigger] bytes@[kk] as nat == trits_value(chunk(trits@, kk)),
            decreases groups - k,
        {
            let mut val: u32 = 0;
            let mut base: u32 = 1;
            let mut i: usize = 0;
            proof {
                lemma_pow3_small();
                assert(6 * k + 6 <= len) by (nonlinear_arith)
                    requires
                        k < groups,
                        groups == len / 6,
                        len % 6 == 0,
                ;
            }
            while i < 6
                invariant
                    len == trits@.len(),
                    6 * k + 6 <= len,
                    len % 6 == 0,
                    groups == len / 6,
                    k < groups,
                    bytes@.len() == k,
                    forall|kk: int| 0 <= kk < k ==> #[trigger] chunk_valid(trits@, kk),
                    forall|kk: int| 0 <= kk < k ==> #[trigger] bytes@[kk] as nat == trits_value(chunk(trits@, kk)),
                    0 <= i <= 6,
                    base == pow3(i as nat),
                    val == trits_value(trits@.subrange(6 * k, 6 * k + i)),
                    val < pow3(i as nat),
                    forall|j: int| 0 <= j < i ==> #[trigger] trits@[6 * k + j] <= 2,
                decreases 6 - i,
            {
                let t = trits[6 * k + i];
                if t > 2 {
                    proof {
                        lemma_fundamental_div_mod_converse(6 * k + i, 6, k as int, i as int);
                        assert(trits@[6 * k + i] > 2);
                        assert(!chunk_valid(trits@, k as int));
                        assert(k < len / 6);
                        let idx = (k * 6 + i) as int;
                        assert(idx / 6 == k);
                        assert forall|j: int| 6 * (idx / 6) <= j < idx implies #[trigger] trits@[j] <= 2 by {
                            assert(trits@[6 * k + (j - 6 * k)] <= 2);
                        }
                        assert(idx < trits@.len());
                        assert(trits@[idx] == t);
                        assert(forall|kk: int| 0 <= kk < idx / 6 ==> #[trigger] chunk_valid(trits@, kk));
                    }
                    return Err(CodecError::InvalidTrit(t, bytes.len() * 6 + i));
                }
                proof {
                    lemma_pow3_small();
                    lemma_pow3_le6(i as nat);
                    let s1 = trits@.subrange(6 * k, 6 * k + i + 1);
                    assert(s1.drop_last() =~= trits@.subrange(6 * k, 6 * k + i));
                    assert(s1.last() == t);
                    assert(trits_value(s1) == trits_value(s1.drop_last()) + pow3(i as nat) * (t as nat));
                    assert((t as int) * base == pow3(i as nat) * (t as nat)) by (nonlinear_arith)
                        requires
                            base == pow3(i as nat),
                    ;
                    assert(val + (t as int) * base < pow3((i + 1) as nat)) by (nonlinear_arith)
                        requires
                            val < base,
                            t <= 2,
                            pow3((i + 1) as nat) == 3 * base,
                    ;
                }
                val = val + (t as u32) * base;
                base = base * 3;
                i = i + 1;
            }
            proof {
                assert(trits@.subrange(6 * k, 6 * k + 6) =~= chunk(trits@, k as int));
            }
            if val > 255 {
                proof {
                    assert(exists|kk: int|
                        {
                            &&& 0 <= kk < trits@.len() / 6
                            &&& forall|k2: int| 0 <= k2 < kk ==> #[trigger] chunk_valid(trits@, k2)
                            &&& forall|j: int| 0 <= j < 6 ==> #[trigger] trits@[6 * kk + j] <= 2
                            &&& val as nat == trits_value(chunk(trits@, kk))
                            &&& val > 255
                        }) by {
                        assert(forall|j: int| 0 <= j < 6 ==> #[trigger] trits@[6 * k + j] <= 2);
                    }
                    assert(!chunk_valid(trits@, k as int));
                }
                return Err(CodecError::Overflow(val));
            }
            bytes.push(val as u8);
            k = k + 1;
        }
        Ok(bytes)
    }
}

proof fn lemma_pow3_le6(i: nat)
    requires
        i <= 6,
    ensures
        pow3(i) <= 729,
        pow3(i + 1) == 3 * pow3(i),
{
    lemma_pow3_small();
    reveal_with_fuel(pow3, 2);
    if i <= 6 {
        assert(i == 0 || i == 1 || i == 2 || i == 3 || i == 4 || i == 5 || i == 6);
    }
}


/// Number of trits in the length prefix.
pub const LENGTH_PREFIX_TRITS: usize = 12;

/// The first `n` elements of `s` (all of `s` when it is shorter).
pub open spec fn take_upto(s: Seq<u8>, n: nat) -> Seq<u8> {
    if s.len() < n {
        s
    } else {
        s.take(n as int)
    }
}

/// The twelve base-3 digits of `n`, least significant first.
pub open spec fn spec_length_trits(n: nat) -> Seq<u8> {
    Seq::new(12, |i: int| digit(n, i as nat) as u8)
}

/// Encode a `usize` into a fixed-width base-3 trit sequence (least
/// significant first); values of 3¹² and more keep only their low digits.
pub fn encode_length(len: usize) -> (r: [u8; 12])
    ensures
        r@ == spec_length_trits(len as nat),
{
    let mut trits = [0u8; 12];
    let mut v = len;
    let mut i: usize = 0;
    proof {
        lemma_pow3_small();
    }
    while i < 12
        invariant
            0 <= i <= 12,
            v == len as nat / pow3(i as nat),
            forall|j: int| 0 <= j < i ==> #[trigger] trits@[j] == digit(len as nat, j as nat) as u8,
        decreases 12 - i,
    {
        proof {
            lemma_pow3_positive(i as nat);
            lemma_div_denominator(len as int, pow3(i as nat) as int, 3);
            assert(pow3((i + 1) as nat) == pow3(i as nat) * 3);
        }
        trits[i] = (v % 3) as u8;
        v = v / 3;
        i = i + 1;
    }
    proof {
        assert(trits@ =~= spec_length_trits(len as nat));
    }
    trits
}

/// Decode a fixed-width base-3 trit sequence (least significant first) from
/// the first twelve trits (or fewer, when `trits` is shorter).
pub fn decode_length(trits: &[u8]) -> (r: usize)
    ensures
        r as nat == trits_value(take_upto(trits@, 12)),
{
    let n = if trits.len() < 12 { trits.len() } else { 12 };
    let mut val: usize = 0;
    let mut base: usize = 1;
    let mut i: usize = 0;
    proof {
        lemma_pow3_small();
    }
    while i < n
        invariant
            n == (if trits@.len() < 12 { trits@.len() } else { 12 }),
            0 <= i <= n,
            base == pow3(i as nat),
            pow3(i as nat) <= 531441,
            val == trits_value(trits@.subrange(0, i as int)),
            val <= 255 * (pow3(i as nat) - 1) / 2,
        decreases n - i,
    {
        let t = trits[i];
        proof {
            lemma_pow3_le12(i as nat);
            let s1 = trits@.subrange(0, i + 1);
            assert(s1.drop_last() =~= trits@.subrange(0, i as int));
            assert((t as int) * base == pow3(i as nat) * (t as nat)) by (nonlinear_arith)
                requires
                    base == pow3(i as nat),
            ;
            assert(val + (t as int) * base <= 255 * (pow3((i + 1) as nat) - 1) / 2) by (nonlinear_arith)
                requires
                    val <= 255 * (base - 1) / 2,
                    t <= 255,
                    pow3((i + 1) as nat) == 3 * base,
                    base >= 1,
            ;
        }
        val = val + (t as usize) * base;
        base = base * 3;
        i = i + 1;
    }
    proof {
        assert(trits@.subrange(0, n as int) =~= take_upto(trits@, 12));
    }
    val
}

proof fn lemma_pow3_le12(i: nat)
    requires
        i < 12,
    ensures
        1 <= pow3(i) <= 177147,
        pow3(i + 1) == 3 * pow3(i),
        pow3(i + 1) <= 531441,
{
    reveal_with_fuel(pow3, 13);
    assert(i == 0 || i == 1 || i == 2 || i == 3 || i == 4 || i == 5 || i == 6 || i == 7 || i == 8 || i
        == 9 || i == 10 || i == 11);
}

/// Reading the first `i` base-3 digits of `b` back gives `b mod 3ⁱ`.
pub proof fn lemma_digits_value(b: nat, i: nat)
    ensures
        trits_value(Seq::new(i, |j: int| digit(b, j as nat) as u8)) == b % pow3(i),
    decreases i,
{
    let s = Seq::new(i, |j: int| digit(b, j as nat) as u8);
    if i == 0 {
        assert(b % 1 == 0);
    } else {
        let k = (i - 1) as nat;
        let s0 = Seq::new(k, |j: int| digit(b, j as nat) as u8);
        assert(s.drop_last() =~= s0);
        lemma_digits_value(b, k);
        lemma_pow3_positive(k);
        assert(s.last() as nat == (b / pow3(k)) % 3);
        lemma_breakdown(b as int, pow3(k) as int, 3);
        assert(pow3(i) == pow3(k) * 3);
    }
}

/// The codec round trip: decoding the trits of any byte string gives the
/// byte string back.
pub proof fn law_codec_roundtrip(d: Seq<u8>)
    ensures
        decodes_to(spec_encode_bytes(d), d),
        all_chunks_valid(spec_encode_bytes(d)),
{
    let s = spec_encode_bytes(d);
    assert forall|k: int| 0 <= k < d.len() implies #[trigger] chunk_valid(s, k) && d[k] as nat
        == trits_value(chunk(s, k)) by {
        let f = Seq::new(6, |j: int| digit(d[k] as nat, j as nat) as u8);
        assert forall|j: int| 0 <= j < 6 implies #[trigger] s[6 * k + j] == f[j] by {
            lemma_fundamental_div_mod_converse(6 * k + j, 6, k, j);
            assert(6 * k + j < 6 * d.len()) by (nonlinear_arith)
                requires
                    0 <= k < d.len(),
                    0 <= j < 6,
            ;
        }
        assert(6 * k + 6 <= 6 * d.len()) by (nonlinear_arith)
            requires
                0 <= k < d.len(),
        ;
        assert(chunk(s, k) =~= f);
        lemma_digits_value(d[k] as nat, 6);
        lemma_pow3_small();
        assert forall|j: int| 0 <= j < 6 implies #[trigger] s[6 * k + j] <= 2 by {
            assert(s[6 * k + j] == f[j]);
        }
    }
    assert(s.len() / 6 == d.len() && s.len() % 6 == 0) by {
        lemma_fundamental_div_mod_converse((6 * d.len()) as int, 6, d.len() as int, 0);
    }
    assert forall|k: int| 0 <= k < d.len() implies #[trigger] d[k] as nat == trits_value(chunk(s, k)) by {
        assert(chunk_valid(s, k));
    }
}

/// The length prefix round trip: decoding the prefix of `n` gives
/// `n mod 3¹²` (so `n` itself whenever `n < 531441`).
pub proof fn law_length_roundtrip(n: nat)
    ensures
        trits_value(take_upto(spec_length_trits(n), 12)) == n % 531441,
{
    assert(take_upto(spec_length_trits(n), 12) =~= spec_length_trits(n));
    lemma_digits_value(n, 12);
    reveal_with_fuel(pow3, 13);
}

} // verus!
