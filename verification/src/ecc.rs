//! Error-correction framing of trit payloads.
//!
//! `MockEcc` frames a payload as `[length prefix ‖ payload ‖ zero parity]`.
//! `RsEcc` packs the payload into GF(3⁶) symbols behind a three-symbol header
//! `[len % 729, len / 729, parity_count]`, Reed-Solomon encodes the message,
//! and prefixes the codeword's trit length. How many symbols the parity gets
//! is computed by the caller from the requested capacity; here it is a whole
//! number of trits (or symbols).
use vstd::prelude::*;
use crate::codec::{
    LENGTH_PREFIX_TRITS, MockCodec, TernaryCodec, all_chunks_valid, chunk, chunk_valid, decode_length,
    encode_length, law_length_roundtrip, spec_length_trits, take_upto,
};
use crate::field::{dg, lemma_digits_of, lemma_of_digits, sym};
use crate::gf3::{
    GF3, digit, lemma_pow3_small, prefix6, symbol_of, symbol_to_trits, trits_to_symbol, trits_value,
};
use crate::rs_roots::{law_encode_decode, symbols};
use crate::rs::{ReedSolomon, RsError, nats, spec_decode, spec_encode};
use crate::tri_gauss_solver::{message_symbol, msg_symbols_for, padded_trit};

verus! {

/// Symbols in the Reed-Solomon header: length low, length high, parity count.
pub const RS_HEADER_SYMBOLS: usize = 3;

/// Why a payload could not be framed or recovered.
#[derive(Debug, Clone, PartialEq, Eq)]
pub enum EccError {
    /// Too many errors to recover.
    Unrecoverable { errors: usize, erasures: usize, capacity: usize },
    /// The payload (or the framed stream) is empty.
    EmptyPayload,
}

// ---------------------------------------------------------------------------
// Mock framing
// ---------------------------------------------------------------------------

/// `[length prefix ‖ payload ‖ zeros]`, padded with zeros to `total` trits.
pub open spec fn spec_mock_frame(payload: Seq<u8>, total: nat) -> Seq<u8> {
    let prefixed = 12 + payload.len();
    let parity: nat = if total > prefixed { (total - prefixed) as nat } else { 0 };
    spec_length_trits(payload.len()) + payload + Seq::new(parity, |i: int| 0u8)
}

/// What the mock decoder reads back from `raw`.
pub open spec fn spec_mock_correct(raw: Seq<u8>) -> Result<Seq<u8>, EccError> {
    if raw.len() < 12 {
        Err(EccError::EmptyPayload)
    } else {
        let len = trits_value(raw.take(12));
        if 12 + len > raw.len() {
            Err(EccError::Unrecoverable { errors: 0, erasures: 0, capacity: (raw.len() - 12) as usize })
        } else {
            Ok(raw.subrange(12, (12 + len) as int))
        }
    }
}

/// Mock error correction: zero padding for parity; the payload
/// length is stored as a 12-trit base-3 prefix.
pub struct MockEcc;

impl MockEcc {
    /// Frame `payload` as `[length prefix ‖ payload ‖ zeros]` of
    /// `total_trits` trits (no padding when the framed payload is longer).
    pub fn apply_parity_total(payload: &[u8], total_trits: usize) -> (r: Result<Vec<u8>, EccError>)
        requires
            payload@.len() + 12 <= usize::MAX,
        ensures
            payload@.len() == 0 ==> r == Err::<Vec<u8>, EccError>(EccError::EmptyPayload),
            payload@.len() > 0 ==> (r matches Ok(out) && out@ == spec_mock_frame(payload@, total_trits as nat)),
    {
        if payload.len() == 0 {
            return Err(EccError::EmptyPayload);
        }
        let prefixed_len = LENGTH_PREFIX_TRITS + payload.len();
        let parity_len = if total_trits > prefixed_len { total_trits - prefixed_len } else { 0 };
        let len_trits = encode_length(payload.len());
        let mut out: Vec<u8> = Vec::new();
        let mut i: usize = 0;
        while i < LENGTH_PREFIX_TRITS
            invariant
                0 <= i <= 12,
                out@ == len_trits@.subrange(0, i as int),
            decreases 12 - i,
        {
            out.push(len_trits[i]);
            proof {
                assert(out@ =~= len_trits@.subrange(0, i + 1));
            }
            i = i + 1;
        }
        let mut i: usize = 0;
        while i < payload.len()
            invariant
                0 <= i <= payload@.len(),
                out@ == len_trits@ + payload@.subrange(0, i as int),
            decreases payload@.len() - i,
        {
            out.push(payload[i]);
            proof {
                assert(out@ =~= len_trits@ + payload@.subrange(0, i + 1));
            }
            i = i + 1;
        }
        let mut i: usize = 0;
        while i < parity_len
            invariant
                0 <= i <= parity_len,
                out@ == len_trits@ + payload@ + Seq::new(i as nat, |k: int| 0u8),
            decreases parity_len - i,
        {
            out.push(0);
            proof {
                assert(out@ =~= len_trits@ + payload@ + Seq::new((i + 1) as nat, |k: int| 0u8));
            }
            i = i + 1;
        }
        proof {
            assert(payload@.subrange(0, payload@.len() as int) =~= payload@);
        }
        Ok(out)
    }

    /// Recover the payload: read the length prefix and return that many
    /// trits after it.
    pub fn correct_errors(raw_read: &[u8]) -> (r: Result<Vec<u8>, EccError>)
        ensures
            match (r, spec_mock_correct(raw_read@)) {
                (Ok(v), Ok(sv)) => v@ == sv,
                (Err(e1), Err(e2)) => e1 == e2,
                _ => false,
            },
    {
        let n = raw_read.len();
        if n < LENGTH_PREFIX_TRITS {
            return Err(EccError::EmptyPayload);
        }
        let len = decode_length(raw_read);
        proof {
            assert(take_upto(raw_read@, 12) =~= raw_read@.take(12));
        }
        if len > n - LENGTH_PREFIX_TRITS {
            return Err(EccError::Unrecoverable { errors: 0, erasures: 0, capacity: n - LENGTH_PREFIX_TRITS });
        }
        let mut out: Vec<u8> = Vec::new();
        let mut i: usize = 0;
        while i < len
            invariant
                12 + len <= n,
                n == raw_read@.len(),
                0 <= i <= len,
                out@ == raw_read@.subrange(12, 12 + i),
            decreases len - i,
        {
            out.push(raw_read[LENGTH_PREFIX_TRITS + i]);
            proof {
                assert(out@ =~= raw_read@.subrange(12, 12 + i + 1));
            }
            i = i + 1;
        }
        Ok(out)
    }
}

/// The mock framing round trip: a nonempty payload shorter than 3¹² trits
/// is read back exactly, whatever padding was added.
pub proof fn law_mock_ecc_roundtrip(payload: Seq<u8>, total: nat)
    requires
        0 < payload.len() < 531441,
    ensures
        spec_mock_correct(spec_mock_frame(payload, total)) == Ok::<Seq<u8>, EccError>(payload),
{
    let framed = spec_mock_frame(payload, total);
    let lt = spec_length_trits(payload.len());
    assert(framed.take(12) =~= lt);
    crate::codec::law_length_roundtrip(payload.len());
    assert(take_upto(lt, 12) =~= lt);
    assert(framed.subrange(12, 12 + payload.len() as int) =~= payload);
}

// ---------------------------------------------------------------------------
// Reed-Solomon framing
// ---------------------------------------------------------------------------

/// The trits of a sequence of symbols, six per symbol, least significant first.
pub open spec fn symbol_trits(ds: Seq<nat>) -> Seq<u8> {
    Seq::new(6 * ds.len(), |i: int| digit(ds[i / 6], (i % 6) as nat) as u8)
}

/// Parity symbols for a message of `msg` symbols in a codeword of `total`
/// symbols: at least 2, made even, at most 728.
pub open spec fn spec_rs_parity(total: nat, msg: nat) -> nat {
    let p0: nat = if total > msg { (total - msg) as nat } else { 0 };
    let p1: nat = if p0 < 2 { 2 } else { p0 };
    let p2: nat = if p1 % 2 == 1 { p1 + 1 } else { p1 };
    if p2 > 728 { 728 } else { p2 }
}

/// The message block `[len % 729, len / 729, parity, payload symbols…]`.
pub open spec fn spec_message(payload: Seq<u8>, parity: nat) -> Seq<nat> {
    Seq::new(msg_symbols_for(payload.len()), |k: int| message_symbol(payload, parity, k))
}

/// The framed stream: the trit length of the codeword, then the codeword's
/// trits.
pub open spec fn spec_rs_frame(payload: Seq<u8>, total_symbols: nat) -> Seq<u8> {
    let p = spec_rs_parity(total_symbols, msg_symbols_for(payload.len()));
    let cw = spec_encode(p, spec_message(payload, p));
    spec_length_trits(6 * cw.len()) + symbol_trits(cw)
}

/// The six-trit chunk `k` of a raw codeword (shorter at the end).
pub open spec fn raw_chunk(cw: Seq<u8>, k: int) -> Seq<u8> {
    cw.subrange(6 * k, if 6 * k + 6 <= cw.len() { 6 * k + 6 } else { cw.len() as int })
}

/// Chunk `k` holds an erasure mark (the value 3).
pub open spec fn chunk_erased(cw: Seq<u8>, k: int) -> bool {
    raw_chunk(cw, k).contains(3u8)
}

/// The symbol read from chunk `k`: 0 for an erased chunk.
pub open spec fn raw_symbol(cw: Seq<u8>, k: int) -> nat {
    if chunk_erased(cw, k) {
        0
    } else {
        symbol_of(prefix6(raw_chunk(cw, k)))
    }
}

/// The symbols of a raw codeword.
pub open spec fn raw_symbols(cw: Seq<u8>) -> Seq<nat> {
    Seq::new(((cw.len() + 5) / 6) as nat, |k: int| raw_symbol(cw, k))
}

/// Chunk `k` is erased.
pub open spec fn erased_in(cw: Seq<u8>) -> spec_fn(usize) -> bool {
    |k: usize| chunk_erased(cw, k as int)
}

/// The erased chunk positions, in increasing order.
pub open spec fn raw_erasures(cw: Seq<u8>) -> Seq<usize> {
    Seq::new(((cw.len() + 5) / 6) as nat, |k: int| k as usize).filter(erased_in(cw))
}

/// The payload length recorded by the header at `off`.
pub open spec fn header_len(d: Seq<nat>, off: int) -> nat {
    d[off] + d[off + 1] * 729
}

/// The payload trits behind the header at `off`.
pub open spec fn header_payload(d: Seq<nat>, off: int) -> Seq<u8> {
    symbol_trits(d.subrange(off + 3, d.len() as int)).take(header_len(d, off) as int)
}

/// A header at `off` naming parity `pc`: a positive length that is a
/// multiple of 6, fits the symbols behind it, and whose trits are all bytes.
pub open spec fn header_accepted(d: Seq<nat>, pc: nat, off: int) -> bool {
    &&& 0 <= off
    &&& off + 3 <= d.len()
    &&& d[off + 2] == pc
    &&& header_len(d, off) > 0
    &&& header_len(d, off) % 6 == 0
    &&& header_len(d, off) <= 6 * (d.len() - off - 3)
    &&& all_chunks_valid(header_payload(d, off))
}

/// The first accepted header offset.
pub open spec fn first_header(d: Seq<nat>, pc: nat, off: int) -> bool {
    header_accepted(d, pc, off) && forall|o: int| 0 <= o < off ==> !#[trigger] header_accepted(d, pc, o)
}

/// Decoding with parity `pc` succeeds and yields an accepted header.
pub open spec fn attempt_ok(syms: Seq<nat>, ers: Seq<usize>, pc: nat) -> bool {
    &&& spec_decode(pc, syms, ers) is Ok
    &&& exists|off: int| #[trigger] header_accepted(spec_decode(pc, syms, ers)->Ok_0, pc, off)
}

/// The codeword trits named by the length prefix of `raw`, if they are all
/// there.
pub open spec fn framed_codeword(raw: Seq<u8>) -> Option<Seq<u8>> {
    if raw.len() < 12 {
        None
    } else {
        let len = trits_value(raw.take(12));
        if 12 + len > raw.len() || len == 0 {
            None
        } else {
            Some(raw.subrange(12, (12 + len) as int))
        }
    }
}

/// An even parity count in `2 ..= n / 2`.
pub open spec fn candidate_parity(pc: nat, n: nat) -> bool {
    2 <= pc <= n / 2 && pc % 2 == 0
}

/// Production Reed-Solomon error correction over GF(3⁶).
pub struct RsEcc;

impl RsEcc {
    /// Symbols in the message block for a payload of `payload_len` trits.
    pub fn message_symbols(payload_len: usize) -> (m: usize)
        requires
            payload_len <= usize::MAX / 2,
        ensures
            m == msg_symbols_for(payload_len as nat),
    {
        RS_HEADER_SYMBOLS + (payload_len + 5) / 6
    }

    /// Frame `payload`: the message block is Reed-Solomon encoded into a
    /// codeword of `total_symbols` symbols (parity at least 2, even, at
    /// most 728), and the codeword's trit length is put in front.
    pub fn apply_parity_total(payload: &[u8], total_symbols: usize) -> (r: Result<Vec<u8>, EccError>)
        requires
            payload@.len() <= usize::MAX / 16,
        ensures
            payload@.len() == 0 ==> r == Err::<Vec<u8>, EccError>(EccError::EmptyPayload),
            payload@.len() > 0 ==> (r matches Ok(out) && out@ == spec_rs_frame(payload@, total_symbols as nat)),
    {
        if payload.len() == 0 {
            return Err(EccError::EmptyPayload);
        }
        let msg_len = Self::message_symbols(payload.len());
        let p0 = if total_symbols > msg_len { total_symbols - msg_len } else { 0 };
        let p1 = if p0 < 2 { 2 } else { p0 };
        let p2 = if p1 % 2 == 1 { p1 + 1 } else { p1 };
        let parity_count = if p2 > 728 { 728 } else { p2 };
        let message = message_block(payload, parity_count);
        let gf = GF3::new();
        let rs = ReedSolomon::new(&gf, parity_count);
        let codeword = rs.encode(&gf, &message);
        let codeword_trits_len = codeword.len() * 6;
        let len_trits = encode_length(codeword_trits_len);
        let mut out: Vec<u8> = Vec::new();
        let mut i: usize = 0;
        while i < LENGTH_PREFIX_TRITS
            invariant
                0 <= i <= 12,
                out@ == len_trits@.subrange(0, i as int),
            decreases 12 - i,
        {
            out.push(len_trits[i]);
            proof {
                assert(out@ =~= len_trits@.subrange(0, i + 1));
            }
            i = i + 1;
        }
        let ghost cw = nats(codeword@);
        let mut k: usize = 0;
        while k < codeword.len()
            invariant
                cw == nats(codeword@),
                codeword@.len() * 6 <= usize::MAX,
                0 <= k <= codeword@.len(),
                out@ == len_trits@ + symbol_trits(cw.subrange(0, k as int)),
            decreases codeword@.len() - k,
        {
            let trits = symbol_to_trits(codeword[k]);
            let mut t: usize = 0;
            while t < 6
                invariant
                    cw == nats(codeword@),
                    0 <= k < codeword@.len(),
                    0 <= t <= 6,
                    forall|j: int| 0 <= j < 6 ==> #[trigger] trits@[j] == digit(codeword@[k as int] as nat, j as nat),
                    out@.len() == 12 + 6 * k + t,
                    out@.subrange(0, 12 + 6 * k) == len_trits@ + symbol_trits(cw.subrange(0, k as int)),
                    forall|j: int| 0 <= j < t ==> #[trigger] out@[12 + 6 * k + j] == trits@[j],
                decreases 6 - t,
            {
                let ghost before = out@;
                out.push(trits[t]);
                proof {
                    assert(out@.subrange(0, 12 + 6 * k) =~= before.subrange(0, 12 + 6 * k));
                }
                t = t + 1;
            }
            proof {
                let s1 = symbol_trits(cw.subrange(0, k + 1));
                let s0 = symbol_trits(cw.subrange(0, k as int));
                assert forall|i: int| 0 <= i < s1.len() implies #[trigger] s1[i] == (len_trits@ + s0 + trits@)[12 + i] by {
                    vstd::arithmetic::div_mod::lemma_fundamental_div_mod(i, 6);
                    if i < 6 * k {
                        assert(s0[i] == s1[i]);
                    } else {
                        assert(i / 6 == k) by (nonlinear_arith)
                            requires
                                6 * k <= i < 6 * k + 6,
                        ;
                    }
                }
                assert forall|i: int| 0 <= i < 12 + 6 * k implies #[trigger] out@[i] == (len_trits@ + s0)[i] by {
                    assert(out@[i] == out@.subrange(0, 12 + 6 * k)[i]);
                }
                assert forall|i: int| 12 + 6 * k <= i < 12 + 6 * k + 6 implies #[trigger] out@[i] == trits@[i - (12 + 6 * k)] by {
                    let j = i - (12 + 6 * k);
                    assert(out@[12 + 6 * k + j] == trits@[j]);
                }
                assert(out@ =~= (len_trits@ + s0) + trits@);
                assert(len_trits@ + s1 =~= (len_trits@ + s0) + trits@);
            }
            k = k + 1;
        }
        proof {
            assert(cw.subrange(0, cw.len() as int) =~= cw);
            assert(nats(message@) =~= spec_message(payload@, parity_count as nat));
        }
        Ok(out)
    }
}

/// The message block as symbols.
fn message_block(payload: &[u8], parity: usize) -> (m: Vec<u16>)
    requires
        payload@.len() <= usize::MAX / 2,
        parity <= 728,
    ensures
        nats(m@) == Seq::new(msg_symbols_for(payload@.len()), |k: int| message_symbol(payload@, parity as nat, k)),
        m@.len() == msg_symbols_for(payload@.len()),
{
    let len = payload.len();
    let ms = 3 + (len + 5) / 6;
    let mut m: Vec<u16> = Vec::new();
    let mut k: usize = 0;
    while k < ms
        invariant
            payload@.len() == len,
            len <= usize::MAX / 2,
            parity <= 728,
            ms == 3 + (len + 5) / 6,
            0 <= k <= ms,
            m@.len() == k,
            forall|j: int| 0 <= j < k ==> #[trigger] m@[j] as nat == message_symbol(payload@, parity as nat, j),
        decreases ms - k,
    {
        let sym: u16 = if k == 0 {
            (len % 729) as u16
        } else if k == 1 {
            ((len / 729) % 65536) as u16
        } else if k == 2 {
            parity as u16
        } else {
            let mut chunk: Vec<u8> = Vec::new();
            let mut t: usize = 0;
            while t < 6
                invariant
                    3 <= k < ms,
                    ms == 3 + (len + 5) / 6,
                    payload@.len() == len,
                    len <= usize::MAX / 2,
                    0 <= t <= 6,
                    chunk@.len() == t,
                    forall|i: int| 0 <= i < t ==> #[trigger] chunk@[i] == padded_trit(payload@, 6 * (k - 3) + i),
                decreases 6 - t,
            {
                let pos = 6 * (k - 3) + t;
                if pos < len {
                    chunk.push(payload[pos]);
                } else {
                    chunk.push(0);
                }
                t = t + 1;
            }
            proof {
                assert(prefix6(chunk@) =~= Seq::new(6, |i: int| padded_trit(payload@, 6 * (k - 3) + i)));
            }
            trits_to_symbol(&chunk)
        };
        m.push(sym);
        k = k + 1;
    }
    proof {
        assert(nats(m@) =~= Seq::new(ms as nat, |k: int| message_symbol(payload@, parity as nat, k)));
    }
    m
}

/// The outcome of decoding a framed stream whose codeword is `cw`.
pub open spec fn rs_recovered(cw: Seq<u8>, t: Seq<u8>) -> bool {
    let syms = raw_symbols(cw);
    let ers = raw_erasures(cw);
    exists|pc: nat|
        {
            &&& #[trigger] candidate_parity(pc, syms.len())
            &&& attempt_ok(syms, ers, pc)
            &&& forall|pc2: nat| #[trigger] candidate_parity(pc2, syms.len()) && pc2 < pc ==> !attempt_ok(syms, ers, pc2)
            &&& exists|off: int|
                #[trigger] first_header(spec_decode(pc, syms, ers)->Ok_0, pc, off) && t == header_payload(
                    spec_decode(pc, syms, ers)->Ok_0,
                    off,
                )
        }
}

impl RsEcc {
    /// Recover the payload from a framed stream that may contain erasures
    /// (value 3).
    ///
    /// The length prefix selects the codeword; chunks holding a 3 are
    /// erasures. Each even parity count `pc` in `2 ..= n/2` is tried in turn:
    /// the first one for which Reed-Solomon decoding succeeds and a header
    /// naming `pc` is found (a positive length, a multiple of 6 that fits,
    /// with every six-trit group a byte) gives the payload.
    pub fn correct_errors(raw_read: &[u8]) -> (r: Result<Vec<u8>, EccError>)
        ensures
            framed_codeword(raw_read@) is None ==> r == Err::<Vec<u8>, EccError>(EccError::EmptyPayload),
            framed_codeword(raw_read@) is Some ==> match r {
                Ok(t) => rs_recovered(framed_codeword(raw_read@)->Some_0, t@),
                Err(e) => {
                    let cw = framed_codeword(raw_read@)->Some_0;
                    &&& e == EccError::Unrecoverable {
                        errors: 0,
                        erasures: raw_erasures(cw).len() as usize,
                        capacity: 0,
                    }
                    &&& forall|pc: nat|
                        #[trigger] candidate_parity(pc, raw_symbols(cw).len()) ==> !attempt_ok(
                            raw_symbols(cw),
                            raw_erasures(cw),
                            pc,
                        )
                },
            },
    {
        let n_raw = raw_read.len();
        if n_raw < LENGTH_PREFIX_TRITS {
            return Err(EccError::EmptyPayload);
        }
        let codeword_trits_len = decode_length(raw_read);
        proof {
            assert(take_upto(raw_read@, 12) =~= raw_read@.take(12));
        }
        if codeword_trits_len > n_raw - LENGTH_PREFIX_TRITS || codeword_trits_len == 0 {
            return Err(EccError::EmptyPayload);
        }
        let ghost cw = raw_read@.subrange(12, 12 + codeword_trits_len);
        let (symbols, erasure_positions) = read_symbols(raw_read, LENGTH_PREFIX_TRITS, codeword_trits_len);
        let ghost syms = raw_symbols(cw);
        let ghost ers = raw_erasures(cw);
        let n = symbols.len();
        let gf = GF3::new();
        proof {
            assert(framed_codeword(raw_read@) == Some(cw));
            assert(n <= usize::MAX / 4) by {
                assert(codeword_trits_len <= usize::MAX);
            }
        }
        let mut pc: usize = 2;
        while pc <= n / 2
            invariant
                framed_codeword(raw_read@) == Some(cw),
                syms == raw_symbols(cw),
                ers == raw_erasures(cw),
                gf.wf(),
                syms == nats(symbols@),
                ers == erasure_positions@,
                n == symbols@.len(),
                n <= usize::MAX / 4,
                ers.len() <= n,
                2 <= pc <= n / 2 + 2,
                pc % 2 == 0,
                forall|pc2: nat| #[trigger] candidate_parity(pc2, n as nat) && pc2 < pc ==> !attempt_ok(syms, ers, pc2),
            decreases n / 2 + 2 - pc,
        {
            if let Some(t) = try_parity(&gf, &symbols, &erasure_positions, pc) {
                proof {
                    assert(syms.len() == n);
                    assert(candidate_parity(pc as nat, syms.len()));
                    assert(forall|pc2: nat| #[trigger] candidate_parity(pc2, syms.len()) && pc2 < pc ==> !attempt_ok(syms, ers, pc2));
                    let off = choose|off: int|
                        #[trigger] first_header(spec_decode(pc as nat, syms, ers)->Ok_0, pc as nat, off) && t@ == header_payload(
                            spec_decode(pc as nat, syms, ers)->Ok_0,
                            off,
                        );
                    assert(first_header(spec_decode(pc as nat, syms, ers)->Ok_0, pc as nat, off));
                    assert(rs_recovered(cw, t@));
                }
                return Ok(t);
            }
            proof {
                assert forall|pc2: nat| #[trigger] candidate_parity(pc2, n as nat) && pc2 < pc + 2 implies !attempt_ok(syms, ers, pc2) by {
                    if pc2 == pc + 1 {
                        assert(pc2 % 2 == 1);
                    }
                }
            }
            pc = pc + 2;
        }
        Err(EccError::Unrecoverable { errors: 0, erasures: erasure_positions.len(), capacity: 0 })
    }
}

/// Decode with parity `pc` and look for a header naming it.
fn try_parity(gf: &GF3, symbols: &Vec<u16>, erasure_positions: &Vec<usize>, pc: usize) -> (r: Option<Vec<u8>>)
    requires
        gf.wf(),
        2 <= pc <= symbols@.len() <= usize::MAX / 4,
        erasure_positions@.len() <= symbols@.len(),
    ensures
        match r {
            Some(t) => {
                &&& attempt_ok(nats(symbols@), erasure_positions@, pc as nat)
                &&& exists|off: int|
                    #[trigger] first_header(spec_decode(pc as nat, nats(symbols@), erasure_positions@)->Ok_0, pc as nat, off)
                        && t@ == header_payload(spec_decode(pc as nat, nats(symbols@), erasure_positions@)->Ok_0, off)
            },
            None => !attempt_ok(nats(symbols@), erasure_positions@, pc as nat),
        },
{
    let ghost syms = nats(symbols@);
    let ghost ers = erasure_positions@;
    let rs = ReedSolomon::new(gf, pc);
    match rs.decode(gf, symbols.as_slice(), erasure_positions.as_slice()) {
        Ok(data_with_header) => {
            let ghost d = nats(data_with_header@);
            proof {
                assert(spec_decode(pc as nat, syms, ers) == Ok::<Seq<nat>, crate::rs::RsError>(d));
            }
            match scan_header(&data_with_header, pc) {
                Some(t) => {
                    proof {
                        let off = choose|off: int| first_header(d, pc as nat, off) && t@ == header_payload(d, off);
                        assert(header_accepted(d, pc as nat, off));
                    }
                    Some(t)
                },
                None => {
                    proof {
                        assert(!attempt_ok(syms, ers, pc as nat)) by {
                            if attempt_ok(syms, ers, pc as nat) {
                                let off = choose|off: int| #[trigger] header_accepted(spec_decode(pc as nat, syms, ers)->Ok_0, pc as nat, off);
                                assert(header_accepted(d, pc as nat, off));
                            }
                        }
                    }
                    None
                },
            }
        },
        Err(_) => None,
    }
}

/// The symbols and erasure positions of the raw codeword `raw[start .. start + len]`.
fn read_symbols(raw: &[u8], start: usize, len: usize) -> (res: (Vec<u16>, Vec<usize>))
    requires
        start + len <= raw@.len(),
    ensures
        nats(res.0@) == raw_symbols(raw@.subrange(start as int, start + len)),
        res.0@.len() == (len + 5) / 6,
        res.1@ == raw_erasures(raw@.subrange(start as int, start + len)),
        res.1@.len() <= res.0@.len(),
{
    let ghost cw = raw@.subrange(start as int, start + len);
    let rl = raw.len();
    let nchunks = len / 6 + (if len % 6 == 0 { 0 } else { 1 });
    proof {
        assert(nchunks == (len + 5) / 6);
    }
    let mut symbols: Vec<u16> = Vec::new();
    let mut erasures: Vec<usize> = Vec::new();
    let mut k: usize = 0;
    while k < nchunks
        invariant
            cw == raw@.subrange(start as int, start + len),
            start + len <= raw@.len(),
            rl == raw@.len(),
            nchunks == (len + 5) / 6,
            0 <= k <= nchunks,
            symbols@.len() == k,
            forall|j: int| 0 <= j < k ==> #[trigger] symbols@[j] as nat == raw_symbol(cw, j),
            erasures@ == Seq::new(k as nat, |j: int| j as usize).filter(erased_in(cw)),
            erasures@.len() <= k,
        decreases nchunks - k,
    {
        proof {
            assert(6 * k < len) by (nonlinear_arith)
                requires
                    k < nchunks,
                    nchunks == (len + 5) / 6,
            ;
        }
        let lo = 6 * k;
        let hi = if len - lo >= 6 { lo + 6 } else { len };
        let mut chunk: Vec<u8> = Vec::new();
        let mut erased = false;
        let mut i = lo;
        while i < hi
            invariant
                cw == raw@.subrange(start as int, start + len),
                start + len <= raw@.len(),
                rl == raw@.len(),
                lo == 6 * k,
                lo <= hi <= len,
                hi == (if 6 * k + 6 <= len { 6 * k + 6 } else { len as int }),
                lo <= i <= hi,
                chunk@ == cw.subrange(lo as int, i as int),
                erased == chunk@.contains(3u8),
            decreases hi - i,
        {
            let t = raw[start + i];
            let ghost before = chunk@;
            chunk.push(t);
            proof {
                assert(chunk@ =~= cw.subrange(lo as int, i + 1));
                assert(chunk@ =~= before.push(t));
                if t == 3 {
                    assert(chunk@[chunk@.len() - 1] == 3u8);
                }
                if chunk@.contains(3u8) && !before.contains(3u8) {
                    let w = choose|w: int| 0 <= w < chunk@.len() && chunk@[w] == 3u8;
                    if w < before.len() {
                        assert(before[w] == 3u8);
                    }
                }
                if before.contains(3u8) {
                    let w = choose|w: int| 0 <= w < before.len() && before[w] == 3u8;
                    assert(chunk@[w] == 3u8);
                }
            }
            if t == 3 {
                erased = true;
            }
            i = i + 1;
        }
        proof {
            assert(chunk@ =~= raw_chunk(cw, k as int));
        }
        let sym = if erased { 0 } else { trits_to_symbol(&chunk) };
        symbols.push(sym);
        proof {
            let f = |j: int| j as usize;
            let s1 = Seq::new((k + 1) as nat, f);
            assert(s1.drop_last() =~= Seq::new(k as nat, f));
            reveal(Seq::filter);
            assert(Seq::new((k + 1) as nat, f).filter(erased_in(cw)) == (if erased_in(cw)(k) {
                Seq::new(k as nat, f).filter(erased_in(cw)).push(k)
            } else {
                Seq::new(k as nat, f).filter(erased_in(cw))
            }));
        }
        if erased {
            erasures.push(k);
        }
        k = k + 1;
    }
    proof {
        assert(nats(symbols@) =~= raw_symbols(cw));
    }
    (symbols, erasures)
}

/// The payload behind the first accepted header naming `pc`.
fn scan_header(d: &Vec<u16>, pc: usize) -> (r: Option<Vec<u8>>)
    ensures
        match r {
            Some(t) => exists|off: int| first_header(nats(d@), pc as nat, off) && t@ == header_payload(nats(d@), off),
            None => forall|off: int| !#[trigger] header_accepted(nats(d@), pc as nat, off),
        },
{
    let ghost nd = nats(d@);
    let len = d.len();
    let limit = if len >= 2 { len - 2 } else { 0 };
    let mut off: usize = 0;
    while off < limit
        invariant
            nd == nats(d@),
            len == d@.len(),
            limit == (if len >= 2 { len - 2 } else { 0 }),
            0 <= off <= limit,
            forall|o: int| 0 <= o < off ==> !#[trigger] header_accepted(nd, pc as nat, o),
        decreases limit - off,
    {
        if d[off + 2] as usize == pc {
            let ol = d[off] as usize + d[off + 1] as usize * 729;
            if ol > 0 && ol % 6 == 0 && ol / 6 <= len - off - 3 {
                let trits = header_trits(d, off + 3, ol);
                proof {
                    assert(ol as nat == header_len(nd, off as int));
                }
                let check = MockCodec::decode_trits(&trits);
                if check.is_ok() {
                    proof {
                        assert(header_accepted(nd, pc as nat, off as int));
                    }
                    return Some(trits);
                }
                proof {
                    assert(!header_accepted(nd, pc as nat, off as int));
                }
            }
        }
        off = off + 1;
    }
    proof {
        assert forall|o: int| !#[trigger] header_accepted(nd, pc as nat, o) by {
            if 0 <= o < off {
            }
        }
    }
    None
}

/// The first `count` trits of the symbols `d[from ..]`.
fn header_trits(d: &Vec<u16>, from: usize, count: usize) -> (t: Vec<u8>)
    requires
        from <= d@.len(),
        count <= 6 * (d@.len() - from),
    ensures
        t@ == symbol_trits(nats(d@).subrange(from as int, d@.len() as int)).take(count as int),
        forall|i: int| 0 <= i < t@.len() ==> #[trigger] t@[i] < 3,
{
    let ghost ds = nats(d@).subrange(from as int, d@.len() as int);
    let dl = d.len();
    let mut t: Vec<u8> = Vec::new();
    let mut i: usize = 0;
    while i < count
        invariant
            ds == nats(d@).subrange(from as int, d@.len() as int),
            from <= d@.len(),
            dl == d@.len(),
            count <= 6 * (d@.len() - from),
            0 <= i <= count,
            t@ == symbol_trits(ds).take(i as int),
            forall|j: int| 0 <= j < t@.len() ==> #[trigger] t@[j] < 3,
        decreases count - i,
    {
        proof {
            vstd::arithmetic::div_mod::lemma_fundamental_div_mod(i as int, 6);
            assert(i / 6 < d@.len() - from) by (nonlinear_arith)
                requires
                    i < count,
                    count <= 6 * (d@.len() - from),
            ;
        }
        let trits = symbol_to_trits(d[from + i / 6]);
        t.push(trits[i % 6]);
        proof {
            assert(t@ =~= symbol_trits(ds).take(i + 1));
        }
        i = i + 1;
    }
    t
}

// ---------------------------------------------------------------------------
// The Reed-Solomon framing round trip
// ---------------------------------------------------------------------------

/// `digit` and `dg` agree on the six digits of a symbol.
proof fn lemma_digit_dg(a: nat)
    ensures
        forall|i: int| 0 <= i < 6 ==> #[trigger] digit(a, i as nat) == dg(a, i),
{
    lemma_pow3_small();
    reveal(dg);
    assert forall|i: int| 0 <= i < 6 implies #[trigger] digit(a, i as nat) == dg(a, i) by {
        if i == 0 {
        } else if i == 1 {
        } else if i == 2 {
        } else if i == 3 {
        } else if i == 4 {
        } else {
        }
    }
}

/// Six trits read as a symbol.
pub proof fn lemma_symbol_of6(s: Seq<u8>)
    requires
        s.len() == 6,
    ensures
        symbol_of(s) == sym(
            (s[0] % 3) as nat,
            (s[1] % 3) as nat,
            (s[2] % 3) as nat,
            (s[3] % 3) as nat,
            (s[4] % 3) as nat,
            (s[5] % 3) as nat,
        ),
        symbol_of(s) < 729,
{
    let s1 = s.drop_first();
    let s2 = s1.drop_first();
    let s3 = s2.drop_first();
    let s4 = s3.drop_first();
    let s5 = s4.drop_first();
    let s6 = s5.drop_first();
    assert(s6.len() == 0);
    assert(symbol_of(s6) == 0);
    assert(symbol_of(s5) == (s[5] % 3) as nat);
    assert(symbol_of(s4) == (s[4] % 3) as nat + 3 * symbol_of(s5));
    assert(symbol_of(s3) == (s[3] % 3) as nat + 3 * symbol_of(s4));
    assert(symbol_of(s2) == (s[2] % 3) as nat + 3 * symbol_of(s3));
    assert(symbol_of(s1) == (s[1] % 3) as nat + 3 * symbol_of(s2));
    assert(symbol_of(s) == (s[0] % 3) as nat + 3 * symbol_of(s1));
    lemma_digits_of(
        (s[0] % 3) as nat,
        (s[1] % 3) as nat,
        (s[2] % 3) as nat,
        (s[3] % 3) as nat,
        (s[4] % 3) as nat,
        (s[5] % 3) as nat,
    );
}

/// Writing a symbol as six trits and reading them back gives the symbol.
#[verifier::spinoff_prover]
proof fn lemma_symbol_chunk(a: nat)
    requires
        a < 729,
    ensures
        symbol_of(Seq::new(6, |i: int| digit(a, i as nat) as u8)) == a,
        forall|i: int| 0 <= i < 6 ==> #[trigger] (digit(a, i as nat) as u8) <= 2,
{
    let c = Seq::new(6, |i: int| digit(a, i as nat) as u8);
    lemma_digit_dg(a);
    assert(dg(a, 0) < 3 && dg(a, 1) < 3 && dg(a, 2) < 3 && dg(a, 3) < 3 && dg(a, 4) < 3 && dg(a, 5) < 3) by {
        reveal(dg);
    }
    assert(c[0] == dg(a, 0) && c[1] == dg(a, 1) && c[2] == dg(a, 2));
    assert(c[3] == dg(a, 3) && c[4] == dg(a, 4) && c[5] == dg(a, 5));
    lemma_symbol_of6(c);
    assert(symbol_of(c) == sym(dg(a, 0), dg(a, 1), dg(a, 2), dg(a, 3), dg(a, 4), dg(a, 5)));
    lemma_of_digits(a);
}

/// The trits of field symbols read back as the same symbols, with no erasure.
proof fn lemma_symbol_trits_read(cw: Seq<nat>)
    requires
        symbols(cw),
    ensures
        raw_symbols(symbol_trits(cw)) == cw,
        raw_erasures(symbol_trits(cw)) == Seq::<usize>::empty(),
{
    let t = symbol_trits(cw);
    assert forall|k: int| 0 <= k < cw.len() implies raw_chunk(t, k) =~= Seq::new(6, |i: int| digit(cw[k], i as nat) as u8)
        && !#[trigger] chunk_erased(t, k) by {
        assert(raw_chunk(t, k) =~= Seq::new(6, |i: int| digit(cw[k], i as nat) as u8));
        lemma_symbol_chunk(cw[k]);
        if raw_chunk(t, k).contains(3u8) {
            let j = choose|j: int| 0 <= j < raw_chunk(t, k).len() && raw_chunk(t, k)[j] == 3u8;
            assert((digit(cw[k], j as nat) as u8) <= 2);
        }
    }
    assert forall|k: int| 0 <= k < cw.len() implies #[trigger] raw_symbol(t, k) == cw[k] by {
        assert(!chunk_erased(t, k));
        assert(raw_chunk(t, k) =~= Seq::new(6, |i: int| digit(cw[k], i as nat) as u8));
        assert(prefix6(raw_chunk(t, k)) =~= raw_chunk(t, k));
        lemma_symbol_chunk(cw[k]);
    }
    assert(raw_symbols(t) =~= cw);
    let all = Seq::new(((t.len() + 5) / 6) as nat, |k: int| k as usize);
    assert(all.filter(erased_in(t)) =~= Seq::<usize>::empty()) by {
        reveal(Seq::filter);
        lemma_filter_none(all, erased_in(t), t);
    }
}

pub proof fn lemma_filter_none(s: Seq<usize>, f: spec_fn(usize) -> bool, t: Seq<u8>)
    requires
        forall|i: int| 0 <= i < s.len() ==> !f(#[trigger] s[i]),
    ensures
        s.filter(f) =~= Seq::<usize>::empty(),
    decreases s.len(),
{
    reveal(Seq::filter);
    if s.len() > 0 {
        lemma_filter_none(s.drop_last(), f, t);
        assert(!f(s.last()));
    }
}

/// The payload trits are bytes: each is at most 2.
pub proof fn lemma_valid_trits(payload: Seq<u8>)
    requires
        payload.len() % 6 == 0,
        all_chunks_valid(payload),
    ensures
        forall|i: int| 0 <= i < payload.len() ==> #[trigger] payload[i] <= 2,
{
    assert forall|i: int| 0 <= i < payload.len() implies #[trigger] payload[i] <= 2 by {
        let k = i / 6;
        assert(chunk_valid(payload, k));
        assert(payload[6 * k + (i % 6)] <= 2);
    }
}

/// The message block holds field symbols and its data part spells out the
/// payload.
proof fn lemma_message_facts(payload: Seq<u8>, p: nat)
    requires
        0 < payload.len() < 531441,
        payload.len() % 6 == 0,
        all_chunks_valid(payload),
        p < 729,
    ensures
        symbols(spec_message(payload, p)),
        header_accepted(spec_message(payload, p), p, 0),
        header_payload(spec_message(payload, p), 0) == payload,
{
    let m = spec_message(payload, p);
    let len = payload.len();
    lemma_valid_trits(payload);
    assert forall|k: int| 3 <= k < m.len() implies #[trigger] m[k] < 729 by {
        lemma_symbol_of6(Seq::new(6, |i: int| padded_trit(payload, 6 * (k - 3) + i)));
    }
    assert(len / 729 < 729);
    assert(symbols(m));
    let d = m.subrange(3, m.len() as int);
    let st = symbol_trits(d);
    assert forall|i: int| 0 <= i < len implies #[trigger] st[i] == payload[i] by {
        let k = i / 6;
        let j = i % 6;
        let c = Seq::new(6, |q: int| padded_trit(payload, 6 * k + q));
        lemma_symbol_of6(c);
        assert(d[k] == symbol_of(c));
        lemma_digit_dg(symbol_of(c));
        assert forall|q: int| 0 <= q < 6 implies #[trigger] c[q] < 3 by {
            if 6 * k + q < len {
                assert(payload[6 * k + q] <= 2);
            }
        }
        lemma_digits_of(
            (c[0] % 3) as nat,
            (c[1] % 3) as nat,
            (c[2] % 3) as nat,
            (c[3] % 3) as nat,
            (c[4] % 3) as nat,
            (c[5] % 3) as nat,
        );
        assert(6 * k + j == i);
        assert(c[j] == payload[i]);
    }
    assert(header_payload(m, 0) =~= payload);
}

/// A data block that holds the message block of a byte payload at offset
/// `o` shows an accepted header there, naming the payload.
pub proof fn lemma_header_at(payload: Seq<u8>, p: nat, d: Seq<nat>, o: int)
    requires
        0 < payload.len() < 531441,
        payload.len() % 6 == 0,
        all_chunks_valid(payload),
        p < 729,
        0 <= o,
        o + msg_symbols_for(payload.len()) <= d.len(),
        forall|k: int| 0 <= k < msg_symbols_for(payload.len()) ==> #[trigger] d[o + k] == message_symbol(payload, p, k),
    ensures
        header_accepted(d, p, o),
        header_payload(d, o) == payload,
{
    let len = payload.len();
    lemma_valid_trits(payload);
    let k0: int = 0;
    assert(d[o + k0] == message_symbol(payload, p, k0));
    assert(d[o] == message_symbol(payload, p, 0));
    assert(d[o + 1] == message_symbol(payload, p, 1));
    assert(d[o + 2] == message_symbol(payload, p, 2));
    assert(len / 729 < 729);
    let rest = d.subrange(o + 3, d.len() as int);
    let st = symbol_trits(rest);
    assert forall|i: int| 0 <= i < len implies #[trigger] st[i] == payload[i] by {
        let k = i / 6;
        let j = i % 6;
        let c = Seq::new(6, |q: int| padded_trit(payload, 6 * k + q));
        lemma_symbol_of6(c);
        assert(d[o + (k + 3)] == message_symbol(payload, p, k + 3));
        assert(rest[k] == symbol_of(c));
        lemma_digit_dg(symbol_of(c));
        assert forall|q: int| 0 <= q < 6 implies #[trigger] c[q] < 3 by {
            if 6 * k + q < len {
                assert(payload[6 * k + q] <= 2);
            }
        }
        lemma_digits_of(
            (c[0] % 3) as nat,
            (c[1] % 3) as nat,
            (c[2] % 3) as nat,
            (c[3] % 3) as nat,
            (c[4] % 3) as nat,
            (c[5] % 3) as nat,
        );
        assert(6 * k + j == i);
        assert(c[j] == payload[i]);
    }
    assert(header_payload(d, o) =~= payload);
}

/// The framed stream of a codeword of field symbols reads back as that
/// codeword, without erasures.
proof fn lemma_rs_frame_read(payload: Seq<u8>, total: nat, p: nat, code: Seq<nat>)
    requires
        p == spec_rs_parity(total, msg_symbols_for(payload.len())),
        code == spec_encode(p, spec_message(payload, p)),
        symbols(code),
        0 < code.len(),
        6 * code.len() < 531441,
    ensures
        framed_codeword(spec_rs_frame(payload, total)) == Some(symbol_trits(code)),
        raw_symbols(symbol_trits(code)) == code,
        raw_erasures(symbol_trits(code)) == Seq::<usize>::empty(),
{
    let cw = symbol_trits(code);
    let frame = spec_rs_frame(payload, total);
    lemma_symbol_trits_read(code);
    law_length_roundtrip(6 * code.len());
    assert(frame.take(12) =~= spec_length_trits(6 * code.len()));
    assert(take_upto(spec_length_trits(6 * code.len()), 12) =~= spec_length_trits(6 * code.len()));
    assert(frame.subrange(12, (12 + 6 * code.len()) as int) =~= cw);
}

/// With the true parity count, decoding succeeds and the header sits at
/// offset 0 and names the payload.
proof fn lemma_rs_true_attempt(payload: Seq<u8>, p: nat)
    requires
        0 < payload.len() < 531441,
        payload.len() % 6 == 0,
        all_chunks_valid(payload),
        2 <= p < 729,
    ensures
        spec_decode(p, spec_encode(p, spec_message(payload, p)), Seq::<usize>::empty()) == Ok::<Seq<nat>, RsError>(
            spec_message(payload, p),
        ),
        attempt_ok(spec_encode(p, spec_message(payload, p)), Seq::<usize>::empty(), p),
        header_accepted(spec_message(payload, p), p, 0),
        header_payload(spec_message(payload, p), 0) == payload,
        symbols(spec_encode(p, spec_message(payload, p))),
        spec_encode(p, spec_message(payload, p)).len() == msg_symbols_for(payload.len()) + p,
{
    let m = spec_message(payload, p);
    lemma_message_facts(payload, p);
    law_encode_decode(p, m, Seq::<usize>::empty());
    crate::rs_roots::lemma_encode_symbols(p, m);
    assert(header_accepted(spec_decode(p, spec_encode(p, m), Seq::<usize>::empty())->Ok_0, p, 0));
}

/// When the true parity count is the first that works, whatever the reader
/// recovers is the payload.
proof fn lemma_rs_recovered_unique(payload: Seq<u8>, p: nat, code: Seq<nat>, t: Seq<u8>)
    requires
        code == spec_encode(p, spec_message(payload, p)),
        raw_symbols(symbol_trits(code)) == code,
        raw_erasures(symbol_trits(code)) == Seq::<usize>::empty(),
        spec_decode(p, code, Seq::<usize>::empty()) == Ok::<Seq<nat>, RsError>(spec_message(payload, p)),
        attempt_ok(code, Seq::<usize>::empty(), p),
        candidate_parity(p, code.len()),
        header_accepted(spec_message(payload, p), p, 0),
        header_payload(spec_message(payload, p), 0) == payload,
        forall|pc: nat| #[trigger] candidate_parity(pc, code.len()) && pc < p ==> !attempt_ok(code, Seq::<usize>::empty(), pc),
        rs_recovered(symbol_trits(code), t),
    ensures
        t == payload,
{
    let m = spec_message(payload, p);
    let e = Seq::<usize>::empty();
    let pc = choose|pc: nat|
        {
            &&& #[trigger] candidate_parity(pc, code.len())
            &&& attempt_ok(code, e, pc)
            &&& forall|pc2: nat| #[trigger] candidate_parity(pc2, code.len()) && pc2 < pc ==> !attempt_ok(code, e, pc2)
            &&& exists|off: int|
                #[trigger] first_header(spec_decode(pc, code, e)->Ok_0, pc, off) && t == header_payload(
                    spec_decode(pc, code, e)->Ok_0,
                    off,
                )
        };
    if pc < p {
        assert(!attempt_ok(code, e, pc));
    } else if pc > p {
        assert(candidate_parity(p, code.len()));
    }
    assert(pc == p);
    let off = choose|off: int| #[trigger] first_header(m, p, off) && t == header_payload(m, off);
    if off > 0 {
        assert(header_accepted(m, p, 0));
    }
}

/// The Reed-Solomon framing round trip. A payload of bytes (a whole
/// number of six-trit groups, each at most 255) framed with parity `P`
/// that is at most the message length reads back exactly — unless, for
/// some smaller even parity count tried first, decoding happens to succeed
/// and to show an accepted header as well (the reader tries the counts in
/// increasing order and takes the first that works).
#[verifier::spinoff_prover]
#[verifier::rlimit(60)]
pub proof fn law_rs_ecc_roundtrip(payload: Seq<u8>, total: nat)
    requires
        payload.len() > 0,
        payload.len() % 6 == 0,
        all_chunks_valid(payload),
        ({
            let ms = msg_symbols_for(payload.len());
            let p = spec_rs_parity(total, ms);
            &&& p <= ms
            &&& 6 * (ms + p) < 531441
            &&& forall|pc: nat|
                #[trigger] candidate_parity(pc, ms + p) && pc < p ==> !attempt_ok(
                    spec_encode(p, spec_message(payload, p)),
                    Seq::<usize>::empty(),
                    pc,
                )
        }),
    ensures
        ({
            let ms = msg_symbols_for(payload.len());
            let p = spec_rs_parity(total, ms);
            let cw = symbol_trits(spec_encode(p, spec_message(payload, p)));
            &&& framed_codeword(spec_rs_frame(payload, total)) == Some(cw)
            &&& attempt_ok(raw_symbols(cw), raw_erasures(cw), p)
            &&& candidate_parity(p, raw_symbols(cw).len())
            &&& forall|t: Seq<u8>| rs_recovered(cw, t) ==> t == payload
        }),
{
    let ms = msg_symbols_for(payload.len());
    let p = spec_rs_parity(total, ms);
    let code = spec_encode(p, spec_message(payload, p));
    assert(2 <= p <= 728);
    assert(payload.len() < 531441);
    lemma_rs_true_attempt(payload, p);
    assert(code.len() == ms + p);
    lemma_rs_frame_read(payload, total, p, code);
    assert(candidate_parity(p, code.len()));
    assert forall|t: Seq<u8>| rs_recovered(symbol_trits(code), t) implies t == payload by {
        lemma_rs_recovered_unique(payload, p, code, t);
    }
}

} // verus!
