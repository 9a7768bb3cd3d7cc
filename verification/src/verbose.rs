//! The verbose trace encoding: a flat sequence of length-delimited
//! execution-record frames, with no dictionary. Each frame is a varint byte
//! length followed by that many bytes of record payload; the buffer must be
//! consumed exactly, and any trailing incomplete frame is an error.

use vstd::prelude::*;
use crate::model::{ExecutionRecord, SpecRecord, DecodeError, DecodeCause, records_view};
use crate::varint::{
    spec_enc_varint, spec_dec_varint, lemma_enc_varint_len, lemma_dec_enc_varint,
    lemma_dec_varint_consumed, write_varint, parse_varint, VARINT_MAX_BYTES,
};
use crate::wire::copy_range;
use crate::record_codec::{
    spec_parse_record, spec_enc_record, wf_record, lemma_record_rt, decode_record, encode_record,
};

verus! {

/// One length-delimited frame around a payload.
pub open spec fn spec_enc_frame(payload: Seq<u8>) -> Seq<u8> {
    spec_enc_varint(payload.len() as u64) + payload
}

/// The verbose encoding of a record sequence: one frame per record, in
/// order.
pub open spec fn spec_enc_verbose(rs: Seq<SpecRecord>) -> Seq<u8>
    decreases rs.len(),
{
    if rs.len() == 0 {
        Seq::empty()
    } else {
        spec_enc_frame(spec_enc_record(rs[0])) + spec_enc_verbose(rs.skip(1))
    }
}

/// Decodes a whole buffer as a verbose trace. Reaching the end exactly is
/// success; a frame that does not decode, or runs past the end, fails.
pub open spec fn spec_parse_verbose(s: Seq<u8>) -> Option<Seq<SpecRecord>>
    decreases s.len(),
{
    if s.len() == 0 {
        Some(Seq::empty())
    } else {
        match spec_dec_varint(s, VARINT_MAX_BYTES as nat) {
            None => None,
            Some((len, n)) => {
                if 1 <= n && n + len <= s.len() {
                    match spec_parse_record(s.subrange(n, n + len)) {
                        None => None,
                        Some(r) => match spec_parse_verbose(s.skip(n + len)) {
                            None => None,
                            Some(rest) => Some(seq![r] + rest),
                        },
                    }
                } else {
                    None
                }
            },
        }
    }
}

/// Round trip of the verbose path: decoding a verbose-encoded record set
/// yields the records back, field for field.
#[verifier::rlimit(100)]
pub proof fn lemma_verbose_round_trip(rs: Seq<SpecRecord>)
    requires
        forall|i: int| 0 <= i < rs.len() ==> wf_record(#[trigger] rs[i]),
    ensures
        spec_parse_verbose(spec_enc_verbose(rs)) == Some(rs),
    decreases rs.len(),
{
    if rs.len() > 0 {
        let payload = spec_enc_record(rs[0]);
        let rest = spec_enc_verbose(rs.skip(1));
        let s = spec_enc_verbose(rs);
        let lv = payload.len() as u64;
        let ev = spec_enc_varint(lv);
        assert(s =~= ev + (payload + rest));
        lemma_enc_varint_len(lv);
        lemma_dec_enc_varint(lv, payload + rest, VARINT_MAX_BYTES as nat);
        let n = ev.len() as int;
        assert(s.len() > 0);
        assert(s.subrange(n, n + payload.len()) =~= payload);
        lemma_record_rt(rs[0]);
        assert(s.skip(n + payload.len()) =~= rest);
        assert(forall|i: int| 0 <= i < rs.skip(1).len() ==> wf_record(#[trigger] rs.skip(1)[i]));
        lemma_verbose_round_trip(rs.skip(1));
        assert(seq![rs[0]] + rs.skip(1) =~= rs);
    }
}

/// A window whose frame boundary cannot be established fails to parse.
proof fn lemma_verbose_frame_fail(s: Seq<u8>)
    requires
        s.len() > 0,
        match spec_dec_varint(s, VARINT_MAX_BYTES as nat) {
            None => true,
            Some((len, n)) => n + len > s.len(),
        },
    ensures
        spec_parse_verbose(s) is None,
{
    lemma_dec_varint_consumed(s, VARINT_MAX_BYTES as nat);
}

/// A frame whose payload does not decode fails the whole parse.
proof fn lemma_verbose_record_fail(s: Seq<u8>, len: u64, n: int)
    requires
        s.len() > 0,
        spec_dec_varint(s, VARINT_MAX_BYTES as nat) == Some((len, n)),
        1 <= n,
        n + len <= s.len(),
        spec_parse_record(s.subrange(n, n + len)) is None,
    ensures
        spec_parse_verbose(s) is None,
{
}

/// One decoded frame peels off the front of the parse.
proof fn lemma_verbose_step(s: Seq<u8>, len: u64, n: int, r: SpecRecord)
    requires
        s.len() > 0,
        spec_dec_varint(s, VARINT_MAX_BYTES as nat) == Some((len, n)),
        1 <= n,
        n + len <= s.len(),
        spec_parse_record(s.subrange(n, n + len)) == Some(r),
    ensures
        spec_parse_verbose(s) == match spec_parse_verbose(s.skip(n + len)) {
            None => None::<Seq<SpecRecord>>,
            Some(rest) => Some(seq![r] + rest),
        },
{
}

/// Decodes a verbose trace: the flat record sequence, or the offset where
/// decoding stopped. Succeeds exactly when the buffer is a well-formed
/// verbose trace.
#[verifier::rlimit(100)]
pub fn parse_verbose_log(content: &Vec<u8>) -> (r: Result<Vec<ExecutionRecord>, DecodeError>)
    ensures
        match r {
            Ok(v) => spec_parse_verbose(content@) == Some(records_view(v@)),
            Err(_) => spec_parse_verbose(content@) is None,
        },
{
    let end = content.len();
    let ghost full = content@;
    let mut acc: Vec<ExecutionRecord> = Vec::new();
    let mut pos: usize = 0;
    proof {
        assert(full.subrange(0, end as int) =~= full);
    }
    while pos < end
        invariant
            pos <= end == content.len(),
            full == content@,
            spec_parse_verbose(content@.subrange(pos as int, end as int)) matches Some(tail)
                ==> spec_parse_verbose(full) == Some(records_view(acc@) + tail),
            spec_parse_verbose(content@.subrange(pos as int, end as int)) is None
                ==> spec_parse_verbose(full) is None,
        decreases end - pos,
    {
        let ghost window = content@.subrange(pos as int, end as int);
        assert(window.len() > 0);
        let (len, p) = match parse_varint(content, pos, end) {
            None => {
                proof {
                    lemma_verbose_frame_fail(window);
                }
                return Err(DecodeError { offset: pos, cause: DecodeCause::TruncatedFrame });
            },
            Some(x) => x,
        };
        if len > (end - p) as u64 {
            proof {
                lemma_verbose_frame_fail(window);
            }
            return Err(DecodeError { offset: pos, cause: DecodeCause::TruncatedFrame });
        }
        let len_us = len as usize;
        let payload = copy_range(content, p, p + len_us);
        proof {
            let n = p - pos;
            assert(window.subrange(n as int, n + len) =~= content@.subrange(
                p as int,
                p + len,
            ));
            assert(payload@ == window.subrange(n as int, n + len));
        }
        let rec = match decode_record(&payload) {
            None => {
                proof {
                    lemma_verbose_record_fail(window, len, p - pos);
                }
                return Err(DecodeError { offset: pos, cause: DecodeCause::MalformedMessage });
            },
            Some(x) => x,
        };
        let ghost old_acc = acc@;
        acc.push(rec);
        proof {
            let n = p - pos;
            lemma_verbose_step(window, len, n as int, rec@);
            assert(window.skip(n + len) =~= content@.subrange(p + len, end as int));
            assert(records_view(acc@) =~= records_view(old_acc) + seq![rec@]);
            match spec_parse_verbose(content@.subrange(p + len, end as int)) {
                Some(tail) => {
                    assert(spec_parse_verbose(window) == Some(seq![rec@] + tail));
                    assert(records_view(old_acc) + (seq![rec@] + tail) =~= records_view(acc@)
                        + tail);
                },
                None => {},
            }
        }
        pos = p + len_us;
    }
    proof {
        assert(content@.subrange(pos as int, end as int) =~= Seq::<u8>::empty());
        assert(records_view(acc@) + Seq::<SpecRecord>::empty() =~= records_view(acc@));
    }
    Ok(acc)
}

/// Extending the record prefix by one appends one frame.
#[verifier::rlimit(100)]
proof fn lemma_enc_verbose_take_one(rs: Seq<SpecRecord>, i: int)
    requires
        0 <= i < rs.len(),
    ensures
        spec_enc_verbose(rs.take(i + 1)) == spec_enc_verbose(rs.take(i)) + spec_enc_frame(
            spec_enc_record(rs[i]),
        ),
    decreases i,
{
    reveal_with_fuel(spec_enc_verbose, 4);
    let a = rs.take(i + 1);
    if i == 0 {
        assert(a.skip(1) =~= Seq::<SpecRecord>::empty());
        assert(rs.take(0) =~= Seq::<SpecRecord>::empty());
        assert(spec_enc_verbose(a) =~= spec_enc_verbose(rs.take(0)) + spec_enc_frame(
            spec_enc_record(rs[0]),
        ));
    } else {
        assert(a.skip(1) =~= rs.skip(1).take(i));
        assert(rs.take(i).skip(1) =~= rs.skip(1).take(i - 1));
        lemma_enc_verbose_take_one(rs.skip(1), i - 1);
        assert(spec_enc_verbose(a) =~= spec_enc_verbose(rs.take(i)) + spec_enc_frame(
            spec_enc_record(rs[i]),
        ));
    }
}

/// Writes the verbose encoding of `records` to a fresh vector.
pub fn encode_verbose_log(records: &Vec<ExecutionRecord>) -> (out: Vec<u8>)
    ensures
        out@ == spec_enc_verbose(records_view(records@)),
{
    let ghost rv = records_view(records@);
    let mut out: Vec<u8> = Vec::new();
    let mut i: usize = 0;
    proof {
        assert(rv.take(0) =~= Seq::<SpecRecord>::empty());
    }
    while i < records.len()
        invariant
            i <= records.len(),
            rv == records_view(records@),
            out@ == spec_enc_verbose(rv.take(i as int)),
        decreases records.len() - i,
    {
        let payload = encode_record(&records[i]);
        let ghost before = out@;
        write_varint(&mut out, payload.len() as u64);
        let mut k: usize = 0;
        let ghost mid = out@;
        while k < payload.len()
            invariant
                k <= payload.len(),
                out@ == mid + payload@.subrange(0, k as int),
            decreases payload.len() - k,
        {
            out.push(payload[k]);
            assert(out@ =~= mid + payload@.subrange(0, k + 1));
            k = k + 1;
        }
        proof {
            assert(payload@.subrange(0, payload@.len() as int) =~= payload@);
            assert(rv[i as int] == records@[i as int]@);
            assert(out@ =~= before + spec_enc_frame(spec_enc_record(rv[i as int])));
            lemma_enc_verbose_take_one(rv, i as int);
            assert(out@ =~= spec_enc_verbose(rv.take(i + 1)));
        }
        i = i + 1;
    }
    proof {
        assert(rv.take(rv.len() as int) =~= rv);
    }
    out
}

} // verus!
