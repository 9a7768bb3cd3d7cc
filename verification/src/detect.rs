//! Format detection: the two trace encodings are not self-identifying, so
//! detection attempts whole-buffer decompression and a compact parse first,
//! and falls back to reading the original bytes as a verbose trace. The
//! fallback decision is its own function, auditable apart from the codecs.

use vstd::prelude::*;
use crate::model::{ExecutionRecord, SpecRecord, DecodeError, records_view};
use crate::verbose::{spec_parse_verbose, parse_verbose_log};
use crate::compact::{spec_parse_compact, parse_compact_log};

verus! {

/// What zstd decompression of a frame stream yields: a function of the
/// compressed bytes alone.
pub uninterp spec fn zstd_inflate(compressed: Seq<u8>) -> Seq<u8>;

/// Relies on zstd::stream::decode_all: decompressing a buffer in the zstd
/// frame format is deterministic in the input bytes; an input that is not
/// a well-formed frame stream is an error, mapped to `None` here.
#[verifier::external_body]
fn zstd_decompress(bytes: &Vec<u8>) -> (r: Option<Vec<u8>>)
    ensures
        r matches Some(d) ==> d@ == zstd_inflate(bytes@),
{
    match zstd::stream::decode_all(bytes.as_slice()) {
        Ok(v) => Some(v),
        Err(_) => None,
    }
}

pub open spec fn view_opt_bytes(d: Option<Vec<u8>>) -> Option<Seq<u8>> {
    match d {
        Some(v) => Some(v@),
        None => None,
    }
}

/// The encoding selection: with a decompression result in hand, a buffer
/// whose decompressed form parses as compact yields those records; in
/// every other case — decompression failed, or the compact parse failed —
/// the original bytes are read as verbose.
pub open spec fn spec_select(raw: Seq<u8>, decompressed: Option<Seq<u8>>) -> Option<
    Seq<SpecRecord>,
> {
    match decompressed {
        Some(d) => match spec_parse_compact(d) {
            Some(rs) => Some(rs),
            None => spec_parse_verbose(raw),
        },
        None => spec_parse_verbose(raw),
    }
}

/// A buffer that fails decompression is parsed as verbose, without error,
/// whenever it is valid verbose content.
pub proof fn lemma_fallback_to_verbose(raw: Seq<u8>, rs: Seq<SpecRecord>)
    requires
        spec_parse_verbose(raw) == Some(rs),
    ensures
        spec_select(raw, None) == Some(rs),
{
}

/// When the decompressed bytes parse as compact, the compact records are
/// chosen and the verbose fallback is never consulted.
pub proof fn lemma_compact_preferred(raw: Seq<u8>, d: Seq<u8>, rs: Seq<SpecRecord>)
    requires
        spec_parse_compact(d) == Some(rs),
    ensures
        spec_select(raw, Some(d)) == Some(rs),
{
}

/// Which of the two encodings detection chose.
#[derive(Clone, Copy, Debug, PartialEq, Eq)]
pub enum TraceFormat {
    Compact,
    Verbose,
}

/// Applies the encoding selection to a decompression outcome, reporting
/// which encoding the records came from.
pub fn select_and_parse(raw: &Vec<u8>, decompressed: Option<Vec<u8>>) -> (r: Result<
    (Vec<ExecutionRecord>, TraceFormat),
    DecodeError,
>)
    ensures
        match r {
            Ok(p) => {
                &&& spec_select(raw@, view_opt_bytes(decompressed)) == Some(records_view(p.0@))
                &&& (p.1 == TraceFormat::Compact ==> match decompressed {
                    Some(d) => spec_parse_compact(d@) == Some(records_view(p.0@)),
                    None => false,
                })
                &&& (p.1 == TraceFormat::Verbose ==> spec_parse_verbose(raw@) == Some(
                    records_view(p.0@),
                ))
            },
            Err(_) => spec_select(raw@, view_opt_bytes(decompressed)) is None,
        },
{
    match decompressed {
        Some(d) => match parse_compact_log(&d) {
            Ok(v) => Ok((v, TraceFormat::Compact)),
            Err(_) => match parse_verbose_log(raw) {
                Ok(v) => Ok((v, TraceFormat::Verbose)),
                Err(e) => Err(e),
            },
        },
        None => match parse_verbose_log(raw) {
            Ok(v) => Ok((v, TraceFormat::Verbose)),
            Err(e) => Err(e),
        },
    }
}

/// Parses a raw trace, auto-detecting its encoding: decompression and a
/// compact parse are attempted once, and the verbose reading of the
/// original bytes is the fallback. The records come with the encoding
/// they were read from — the compact reading of the inflated bytes, or
/// the verbose reading of the raw bytes — and valid verbose content is
/// never rejected.
pub fn parse_log_bytes(raw: &Vec<u8>) -> (r: Result<
    (Vec<ExecutionRecord>, TraceFormat),
    DecodeError,
>)
    ensures
        match r {
            Ok(p) => {
                &&& (p.1 == TraceFormat::Compact ==> spec_parse_compact(zstd_inflate(raw@))
                    == Some(records_view(p.0@)))
                &&& (p.1 == TraceFormat::Verbose ==> spec_parse_verbose(raw@) == Some(
                    records_view(p.0@),
                ))
            },
            Err(_) => spec_parse_verbose(raw@) is None,
        },
        spec_parse_verbose(raw@) is Some ==> r is Ok,
{
    let decompressed = zstd_decompress(raw);
    select_and_parse(raw, decompressed)
}

} // verus!
