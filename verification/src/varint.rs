//! Base-128 variable-length integer encoding: the self-describing length and
//! tag primitive of both trace encodings.
//!
//! A value is emitted least-significant group first; every byte but the last
//! carries a continuation marker in its high bit. The decoder accepts at most
//! ten bytes for one value (enough for any 64-bit value) and rejects any
//! continuation that would not fit in 64 bits.

use vstd::prelude::*;
use vstd::arithmetic::div_mod::lemma_fundamental_div_mod;

verus! {

/// Largest value a continuation (the part above the low seven bits) may take:
/// `127 + 128 * VARINT_REST_MAX == u64::MAX`.
pub const VARINT_REST_MAX: u64 = 0x01FF_FFFF_FFFF_FFFF;

/// Decoder fuel: no 64-bit value needs more than ten bytes.
pub const VARINT_MAX_BYTES: u64 = 10;

/// The encoding of `v`, least-significant seven-bit group first.
pub open spec fn spec_enc_varint(v: u64) -> Seq<u8>
    decreases v,
{
    if v < 128 {
        seq![v as u8]
    } else {
        seq![(v % 128 + 128) as u8] + spec_enc_varint(v / 128)
    }
}

/// Decodes one varint from the front of `s`, consuming at most `fuel` bytes.
/// Returns the value and the number of bytes consumed.
pub open spec fn spec_dec_varint(s: Seq<u8>, fuel: nat) -> Option<(u64, int)>
    decreases fuel,
{
    if fuel == 0 || s.len() == 0 {
        None
    } else {
        let b = s[0];
        if b < 128 {
            Some((b as u64, 1))
        } else {
            match spec_dec_varint(s.skip(1), (fuel - 1) as nat) {
                None => None,
                Some((rest, n)) => {
                    if rest <= VARINT_REST_MAX {
                        Some((((b - 128) + 128 * rest) as u64, n + 1))
                    } else {
                        None
                    }
                },
            }
        }
    }
}

/// An encoded varint takes between one and ten bytes.
pub proof fn lemma_enc_varint_len(v: u64)
    ensures
        1 <= spec_enc_varint(v).len() <= VARINT_MAX_BYTES,
{
    if v >= 128 {
        lemma_u64_lt_pow128_9(v);
        lemma_enc_varint_len_bound(v / 128, 9);
    }
}

/// A value below `128^k` encodes in at most `k` bytes.
proof fn lemma_enc_varint_len_bound(v: u64, k: nat)
    requires
        1 <= k,
        v < pow128(k),
    ensures
        spec_enc_varint(v).len() <= k,
    decreases k,
{
    if v >= 128 {
        assert(pow128(k) == 128 * pow128((k - 1) as nat));
        lemma_fundamental_div_mod(v as int, 128);
        assert(v / 128 < pow128((k - 1) as nat));
        lemma_enc_varint_len_bound(v / 128, (k - 1) as nat);
    }
}

spec fn pow128(k: nat) -> int
    decreases k,
{
    if k == 0 {
        1
    } else {
        128 * pow128((k - 1) as nat)
    }
}

proof fn lemma_u64_lt_pow128_9(v: u64)
    ensures
        v / 128 < pow128(9),
{
    assert(pow128(0) == 1);
    assert(pow128(1) == 128);
    assert(pow128(2) == 0x4000);
    assert(pow128(3) == 0x20_0000);
    assert(pow128(4) == 0x1000_0000);
    assert(pow128(5) == 0x08_0000_0000);
    assert(pow128(6) == 0x0400_0000_0000);
    assert(pow128(7) == 0x02_0000_0000_0000);
    assert(pow128(8) == 0x0100_0000_0000_0000);
    assert(pow128(9) == 0x8000_0000_0000_0000);
    lemma_fundamental_div_mod(v as int, 128);
}

/// Decoding the encoding of `v`, followed by anything, yields `v` back and
/// consumes exactly the encoding.
pub proof fn lemma_dec_enc_varint(v: u64, rest: Seq<u8>, fuel: nat)
    requires
        spec_enc_varint(v).len() <= fuel,
    ensures
        spec_dec_varint(spec_enc_varint(v) + rest, fuel) == Some(
            (v, spec_enc_varint(v).len() as int),
        ),
    decreases v,
{
    let e = spec_enc_varint(v);
    let s = e + rest;
    if v < 128 {
        assert(s[0] == v as u8);
    } else {
        let b = (v % 128 + 128) as u8;
        assert(s[0] == b);
        assert(b >= 128);
        assert(e.skip(1) =~= spec_enc_varint(v / 128));
        assert(s.skip(1) =~= spec_enc_varint(v / 128) + rest);
        lemma_dec_enc_varint(v / 128, rest, (fuel - 1) as nat);
        lemma_fundamental_div_mod(v as int, 128);
        assert(v / 128 <= VARINT_REST_MAX);
        assert((b - 128) + 128 * (v / 128) == v);
    }
}

/// A successful decode consumes at least one byte and at most
/// `min(fuel, s.len())` bytes.
pub proof fn lemma_dec_varint_consumed(s: Seq<u8>, fuel: nat)
    ensures
        spec_dec_varint(s, fuel) matches Some((v, n)) ==> 1 <= n <= s.len() && n <= fuel,
    decreases fuel,
{
    if fuel > 0 && s.len() > 0 && s[0] >= 128 {
        lemma_dec_varint_consumed(s.skip(1), (fuel - 1) as nat);
    }
}

/// Appends the encoding of `v` to `out`.
pub fn write_varint(out: &mut Vec<u8>, v: u64)
    ensures
        final(out)@ == old(out)@ + spec_enc_varint(v),
    decreases v,
{
    if v < 128 {
        out.push(v as u8);
        assert(out@ =~= old(out)@ + spec_enc_varint(v));
    } else {
        out.push((v % 128 + 128) as u8);
        write_varint(out, v / 128);
        assert(out@ =~= old(out)@ + spec_enc_varint(v));
    }
}

/// The encoding of `v` as a fresh byte vector.
pub fn encode_varint_vec(v: u64) -> (r: Vec<u8>)
    ensures
        r@ == spec_enc_varint(v),
{
    let mut out: Vec<u8> = Vec::new();
    write_varint(&mut out, v);
    assert(out@ =~= spec_enc_varint(v));
    out
}

/// Decodes one varint from `buf` between `pos` and `end`; returns the value
/// and the position just past it.
pub fn parse_varint(buf: &Vec<u8>, pos: usize, end: usize) -> (r: Option<(u64, usize)>)
    requires
        pos <= end <= buf.len(),
    ensures
        match r {
            Some((v, newpos)) => {
                &&& spec_dec_varint(buf@.subrange(pos as int, end as int), VARINT_MAX_BYTES as nat)
                    == Some((v, newpos - pos))
                &&& pos < newpos <= end
            },
            None => spec_dec_varint(
                buf@.subrange(pos as int, end as int),
                VARINT_MAX_BYTES as nat,
            ) is None,
        },
{
    let r = parse_varint_rec(buf, pos, end, VARINT_MAX_BYTES);
    proof {
        lemma_dec_varint_consumed(buf@.subrange(pos as int, end as int), VARINT_MAX_BYTES as nat);
    }
    r
}

fn parse_varint_rec(buf: &Vec<u8>, pos: usize, end: usize, fuel: u64) -> (r: Option<(u64, usize)>)
    requires
        pos <= end <= buf.len(),
    ensures
        match r {
            Some((v, newpos)) => {
                &&& spec_dec_varint(buf@.subrange(pos as int, end as int), fuel as nat) == Some(
                    (v, newpos - pos),
                )
                &&& pos < newpos <= end
            },
            None => spec_dec_varint(buf@.subrange(pos as int, end as int), fuel as nat) is None,
        },
    decreases fuel,
{
    let ghost s = buf@.subrange(pos as int, end as int);
    if fuel == 0 || pos == end {
        return None;
    }
    let b = buf[pos];
    assert(s[0] == b);
    if b < 128 {
        Some((b as u64, pos + 1))
    } else {
        assert(s.skip(1) =~= buf@.subrange(pos + 1, end as int));
        match parse_varint_rec(buf, pos + 1, end, fuel - 1) {
            None => None,
            Some((rest, newpos)) => {
                if rest <= VARINT_REST_MAX {
                    let v = (b - 128) as u64 + 128 * rest;
                    Some((v, newpos))
                } else {
                    None
                }
            },
        }
    }
}

} // verus!
