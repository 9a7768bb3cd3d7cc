//! Compact-encoding tests: dictionary reconstruction, the id-zero
//! sentinel, unknown envelope types, and repeated ids.

use exec_log_analyzer::compact::parse_compact_log;
use exec_log_analyzer::varint::write_varint;
use exec_log_analyzer::wire::{write_fields, Field, FieldVal};

fn fields_bytes(fields: Vec<Field>) -> Vec<u8> {
    let mut out = Vec::new();
    write_fields(&mut out, &fields);
    out
}

fn bytes_field(num: u32, data: Vec<u8>) -> Field {
    Field { num, val: FieldVal::Bytes(data) }
}

fn uint_field(num: u32, v: u64) -> Field {
    Field { num, val: FieldVal::Uint(v) }
}

fn frame(payload: &[u8]) -> Vec<u8> {
    let mut out = Vec::new();
    write_varint(&mut out, payload.len() as u64);
    out.extend_from_slice(payload);
    out
}

fn digest_payload(hash: &[u8], size: u64) -> Vec<u8> {
    fields_bytes(vec![
        bytes_field(1, hash.to_vec()),
        uint_field(2, size),
        bytes_field(3, b"SHA-256".to_vec()),
    ])
}

/// An envelope interning a file under `id`.
fn file_entry_frame(id: u64, path: &[u8], hash: &[u8], size: u64) -> Vec<u8> {
    let cfile = fields_bytes(vec![
        bytes_field(1, path.to_vec()),
        bytes_field(2, digest_payload(hash, size)),
    ]);
    frame(&fields_bytes(vec![uint_field(1, id), bytes_field(3, cfile)]))
}

/// An envelope interning a directory under `id`.
fn dir_entry_frame(id: u64, path: &[u8]) -> Vec<u8> {
    let cdir = fields_bytes(vec![bytes_field(1, path.to_vec())]);
    frame(&fields_bytes(vec![uint_field(1, id), bytes_field(4, cdir)]))
}

/// An envelope carrying a spawn with one output reference per given id.
fn spawn_entry_frame(mnemonic: &[u8], runner: &[u8], output_ids: &[u64]) -> Vec<u8> {
    let mut spawn_fields = Vec::new();
    for id in output_ids {
        let output_ref = fields_bytes(vec![uint_field(1, *id)]);
        spawn_fields.push(bytes_field(4, output_ref));
    }
    spawn_fields.push(bytes_field(9, mnemonic.to_vec()));
    spawn_fields.push(bytes_field(11, runner.to_vec()));
    let spawn = fields_bytes(spawn_fields);
    frame(&fields_bytes(vec![bytes_field(2, spawn)]))
}

#[test]
fn file_reference_keeps_digest() {
    let mut log = Vec::new();
    log.extend(file_entry_frame(7, b"/f", b"h1", 100));
    log.extend(spawn_entry_frame(b"Cc", b"linux-sandbox", &[7]));
    let records = parse_compact_log(&log).unwrap();
    assert_eq!(records.len(), 1);
    let rec = &records[0];
    assert_eq!(rec.mnemonic, b"Cc".to_vec());
    assert_eq!(rec.actual_outputs.len(), 1);
    let out = &rec.actual_outputs[0];
    assert_eq!(out.path, b"/f".to_vec());
    let digest = out.digest.as_ref().unwrap();
    assert_eq!(digest.hash, b"h1".to_vec());
    assert_eq!(digest.size_bytes, 100);
}

#[test]
fn directory_reference_drops_digest() {
    let mut log = Vec::new();
    log.extend(dir_entry_frame(7, b"/d"));
    log.extend(spawn_entry_frame(b"Cc", b"linux-sandbox", &[7]));
    let records = parse_compact_log(&log).unwrap();
    assert_eq!(records.len(), 1);
    let out = &records[0].actual_outputs[0];
    assert_eq!(out.path, b"/d".to_vec());
    assert!(out.digest.is_none());
}

#[test]
fn id_zero_is_never_stored() {
    let mut log = Vec::new();
    log.extend(file_entry_frame(0, b"/zero", b"h0", 5));
    log.extend(spawn_entry_frame(b"Cc", b"local", &[0]));
    let records = parse_compact_log(&log).unwrap();
    assert_eq!(records.len(), 1);
    assert!(records[0].actual_outputs.is_empty());
}

#[test]
fn unknown_reference_is_silently_dropped() {
    let mut log = Vec::new();
    log.extend(file_entry_frame(7, b"/f", b"h1", 100));
    log.extend(spawn_entry_frame(b"Cc", b"local", &[9, 7]));
    let records = parse_compact_log(&log).unwrap();
    assert_eq!(records.len(), 1);
    // The unknown id 9 contributes nothing; the known id 7 stays.
    assert_eq!(records[0].actual_outputs.len(), 1);
    assert_eq!(records[0].actual_outputs[0].path, b"/f".to_vec());
}

#[test]
fn repeated_id_last_write_wins() {
    let mut log = Vec::new();
    log.extend(file_entry_frame(7, b"/old", b"h1", 1));
    log.extend(file_entry_frame(7, b"/new", b"h2", 2));
    log.extend(spawn_entry_frame(b"Cc", b"local", &[7]));
    let records = parse_compact_log(&log).unwrap();
    assert_eq!(records[0].actual_outputs[0].path, b"/new".to_vec());
}

#[test]
fn other_envelope_types_are_ignored() {
    let mut log = Vec::new();
    // An envelope whose payload field number this analysis does not know.
    log.extend(frame(&fields_bytes(vec![
        uint_field(1, 3),
        bytes_field(9, b"unrelated".to_vec()),
    ])));
    log.extend(spawn_entry_frame(b"Cc", b"local", &[3]));
    let records = parse_compact_log(&log).unwrap();
    assert_eq!(records.len(), 1);
    // Id 3 was never interned, so the reference is dropped.
    assert!(records[0].actual_outputs.is_empty());
}

#[test]
fn spawn_order_is_preserved() {
    let mut log = Vec::new();
    log.extend(spawn_entry_frame(b"First", b"local", &[]));
    log.extend(spawn_entry_frame(b"Second", b"local", &[]));
    let records = parse_compact_log(&log).unwrap();
    assert_eq!(records.len(), 2);
    assert_eq!(records[0].mnemonic, b"First".to_vec());
    assert_eq!(records[1].mnemonic, b"Second".to_vec());
}

#[test]
fn dictionary_is_populated_before_use_only() {
    // A reference to an id interned only later in the stream is dropped:
    // the pass is strictly forward.
    let mut log = Vec::new();
    log.extend(spawn_entry_frame(b"Early", b"local", &[7]));
    log.extend(file_entry_frame(7, b"/late", b"h1", 1));
    let records = parse_compact_log(&log).unwrap();
    assert_eq!(records.len(), 1);
    assert!(records[0].actual_outputs.is_empty());
}

#[test]
fn envelope_with_fixed_width_extras_is_ignored() {
    // An envelope carrying only fields this analysis does not know, one of
    // them fixed-width, is skipped whole.
    let mut log = Vec::new();
    log.extend(frame(&fields_bytes(vec![
        uint_field(1, 4),
        Field { num: 77, val: FieldVal::Fixed32(5) },
    ])));
    log.extend(spawn_entry_frame(b"Cc", b"local", &[4]));
    let records = parse_compact_log(&log).unwrap();
    assert_eq!(records.len(), 1);
    assert!(records[0].actual_outputs.is_empty());
}
