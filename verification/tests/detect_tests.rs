//! Format-detection tests: the compressed compact path, and the verbose
//! fallback when decompression fails.

use exec_log_analyzer::detect::{parse_log_bytes, TraceFormat};
use exec_log_analyzer::model::ExecutionRecord;
use exec_log_analyzer::varint::write_varint;
use exec_log_analyzer::verbose::encode_verbose_log;
use exec_log_analyzer::wire::{write_fields, Field, FieldVal};

fn fields_bytes(fields: Vec<Field>) -> Vec<u8> {
    let mut out = Vec::new();
    write_fields(&mut out, &fields);
    out
}

fn frame(payload: &[u8]) -> Vec<u8> {
    let mut out = Vec::new();
    write_varint(&mut out, payload.len() as u64);
    out.extend_from_slice(payload);
    out
}

/// A compact log with one spawn.
fn compact_log(mnemonic: &[u8]) -> Vec<u8> {
    let spawn = fields_bytes(vec![Field { num: 9, val: FieldVal::Bytes(mnemonic.to_vec()) }]);
    frame(&fields_bytes(vec![Field { num: 2, val: FieldVal::Bytes(spawn) }]))
}

#[test]
fn compressed_compact_log_is_detected() {
    let plain = compact_log(b"Javac");
    let compressed = zstd::stream::encode_all(plain.as_slice(), 3).unwrap();
    // If decompression handed its input back unchanged, the compact parse
    // of the compressed bytes would fail and this would not reconstruct.
    let (records, format) = parse_log_bytes(&compressed).unwrap();
    assert_eq!(format, TraceFormat::Compact);
    assert_eq!(records.len(), 1);
    assert_eq!(records[0].mnemonic, b"Javac".to_vec());
}

#[test]
fn failed_decompression_falls_back_to_verbose() {
    let mut rec = ExecutionRecord::new_empty();
    rec.mnemonic = b"Link".to_vec();
    let verbose = encode_verbose_log(&vec![rec]);
    // Not a zstd frame stream, but valid verbose content: parsed as
    // verbose, without error.
    let (records, format) = parse_log_bytes(&verbose).unwrap();
    assert_eq!(format, TraceFormat::Verbose);
    assert_eq!(records.len(), 1);
    assert_eq!(records[0].mnemonic, b"Link".to_vec());
}

#[test]
fn empty_input_is_an_empty_verbose_trace() {
    let bytes: Vec<u8> = Vec::new();
    let (records, format) = parse_log_bytes(&bytes).unwrap();
    assert_eq!(format, TraceFormat::Verbose);
    assert!(records.is_empty());
}

#[test]
fn garbage_input_is_an_error() {
    let bytes: Vec<u8> = vec![0xff, 0xff, 0xff, 0xff];
    assert!(parse_log_bytes(&bytes).is_err());
}

#[test]
fn compact_reading_of_compressed_bytes_takes_precedence() {
    // The decompressed bytes here are a verbose trace whose only fields
    // use numbers the envelope reader does not know, so the compact
    // reading succeeds with zero spawns and takes precedence over any
    // verbose fallback.
    let mut rec = ExecutionRecord::new_empty();
    rec.mnemonic = b"Cc".to_vec();
    rec.exit_code = 3;
    let verbose = encode_verbose_log(&vec![rec]);
    let compressed = zstd::stream::encode_all(verbose.as_slice(), 3).unwrap();
    let (records, format) = parse_log_bytes(&compressed).unwrap();
    assert_eq!(format, TraceFormat::Compact);
    assert!(records.is_empty());
}
