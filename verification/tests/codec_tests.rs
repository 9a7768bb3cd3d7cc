//! Wire-level tests: varint encoding cross-checked against an independent
//! protobuf implementation, and the verbose round trip.

use exec_log_analyzer::model::{
    DecodeCause, Digest, DurationVal, ExecutionRecord, FileEntry, KeyValue, Metrics,
};
use exec_log_analyzer::varint::{encode_varint_vec, write_varint};
use exec_log_analyzer::verbose::{encode_verbose_log, parse_verbose_log};
use exec_log_analyzer::wire::{write_fields, Field, FieldVal};

fn fields_bytes(fields: Vec<Field>) -> Vec<u8> {
    let mut out = Vec::new();
    write_fields(&mut out, &fields);
    out
}

fn frame(payload: &[u8]) -> Vec<u8> {
    let mut out = Vec::new();
    write_varint(&mut out, payload.len() as u64);
    out.extend_from_slice(payload);
    out
}

fn sample_metrics() -> Metrics {
    Metrics {
        total_time: Some(DurationVal { seconds: 2, nanos: 500_000_000 }),
        queue_time: Some(DurationVal { seconds: 0, nanos: 250_000_000 }),
        setup_time: None,
        upload_time: Some(DurationVal { seconds: 1, nanos: 0 }),
        execution_wall_time: Some(DurationVal { seconds: 1, nanos: 750_000_000 }),
        fetch_time: None,
        retry_time: Some(DurationVal { seconds: 0, nanos: 1 }),
        input_bytes: 4096,
        input_files: 17,
        memory_estimate_bytes: 1_000_000,
        memory_bytes_limit: 2_000_000,
    }
}

fn sample_record() -> ExecutionRecord {
    let mut rec = ExecutionRecord::new_empty();
    rec.command_args = vec![b"gcc".to_vec(), b"-c".to_vec(), b"main.c".to_vec()];
    rec.environment_variables = vec![KeyValue { name: b"PATH".to_vec(), value: b"/usr/bin".to_vec() }];
    rec.platform = vec![KeyValue { name: b"cpu".to_vec(), value: b"k8".to_vec() }];
    rec.listed_outputs = vec![b"main.o".to_vec()];
    rec.remotable = true;
    rec.cacheable = true;
    rec.timeout_millis = 60_000;
    rec.mnemonic = b"CppCompile".to_vec();
    rec.actual_outputs = vec![FileEntry {
        path: b"bazel-out/main.o".to_vec(),
        digest: Some(Digest {
            hash: b"deadbeef".to_vec(),
            size_bytes: 2048,
            hash_function_name: b"SHA-256".to_vec(),
        }),
        symlink_target_path: Vec::new(),
        is_tool: false,
    }];
    rec.runner = b"remote".to_vec();
    rec.cache_hit = false;
    rec.status = Vec::new();
    rec.exit_code = 0;
    rec.remote_cacheable = true;
    rec.target_label = b"//src:main".to_vec();
    rec.digest = Some(Digest {
        hash: b"cafef00d".to_vec(),
        size_bytes: 9,
        hash_function_name: b"SHA-256".to_vec(),
    });
    rec.metrics = Some(sample_metrics());
    rec
}

#[test]
fn varint_matches_independent_decoder() {
    for v in [0u64, 1, 127, 128, 300, 16_383, 16_384, u32::MAX as u64, u64::MAX] {
        let enc = encode_varint_vec(v);
        let mut slice: &[u8] = enc.as_slice();
        let decoded = prost::encoding::decode_varint(&mut slice).unwrap();
        assert_eq!(decoded, v);
        assert!(slice.is_empty());
    }
}

#[test]
fn verbose_round_trip_single_record() {
    let records = vec![sample_record()];
    let bytes = encode_verbose_log(&records);
    let back = parse_verbose_log(&bytes).unwrap();
    assert_eq!(back, records);
}

#[test]
fn verbose_round_trip_many_records() {
    let mut records = Vec::new();
    records.push(ExecutionRecord::new_empty());
    records.push(sample_record());
    let mut third = ExecutionRecord::new_empty();
    third.mnemonic = b"Link".to_vec();
    third.status = b"FAILED".to_vec();
    third.exit_code = 1;
    records.push(third);
    let bytes = encode_verbose_log(&records);
    let back = parse_verbose_log(&bytes).unwrap();
    assert_eq!(back, records);
}

#[test]
fn verbose_empty_log_is_no_records() {
    let bytes: Vec<u8> = Vec::new();
    let back = parse_verbose_log(&bytes).unwrap();
    assert!(back.is_empty());
}

#[test]
fn truncated_frame_is_an_error() {
    let records = vec![sample_record()];
    let mut bytes = encode_verbose_log(&records);
    bytes.pop();
    let err = parse_verbose_log(&bytes).unwrap_err();
    assert_eq!(err.cause, DecodeCause::TruncatedFrame);
}

#[test]
fn garbage_after_valid_frames_is_an_error() {
    let records = vec![sample_record()];
    let mut bytes = encode_verbose_log(&records);
    // An incomplete trailing frame: a length prefix promising more bytes
    // than remain.
    bytes.push(0x7f);
    assert!(parse_verbose_log(&bytes).is_err());
}

#[test]
fn zero_valued_present_duration_stays_present() {
    let mut rec = ExecutionRecord::new_empty();
    let mut m = sample_metrics();
    m.total_time = Some(DurationVal { seconds: 0, nanos: 0 });
    rec.metrics = Some(m);
    let bytes = encode_verbose_log(&vec![rec.clone()]);
    let back = parse_verbose_log(&bytes).unwrap();
    // Presence is not the same as zero: the measured-but-zero span survives.
    assert_eq!(
        back[0].metrics.as_ref().unwrap().total_time,
        Some(DurationVal { seconds: 0, nanos: 0 })
    );
    assert_eq!(back[0].metrics.as_ref().unwrap().setup_time, None);
}

#[test]
fn overlong_nanos_field_is_rejected() {
    // A duration whose fractional part is not a genuine fraction of a
    // second is malformed.
    let duration = fields_bytes(vec![Field { num: 2, val: FieldVal::Uint(2_000_000_000) }]);
    let metrics = fields_bytes(vec![Field { num: 1, val: FieldVal::Bytes(duration) }]);
    let record = fields_bytes(vec![Field { num: 18, val: FieldVal::Bytes(metrics) }]);
    let log = frame(&record);
    assert!(parse_verbose_log(&log).is_err());
}

#[test]
fn out_of_range_exit_code_is_rejected() {
    let record = fields_bytes(vec![Field { num: 14, val: FieldVal::Uint(u64::MAX) }]);
    let log = frame(&record);
    let err = parse_verbose_log(&log).unwrap_err();
    assert_eq!(err.cause, DecodeCause::MalformedMessage);
    assert_eq!(err.offset, 0);
}

#[test]
fn unknown_record_fields_are_skipped() {
    let record = fields_bytes(vec![
        Field { num: 900, val: FieldVal::Bytes(b"future data".to_vec()) },
        Field { num: 9, val: FieldVal::Bytes(b"Cc".to_vec()) },
    ]);
    let log = frame(&record);
    let back = parse_verbose_log(&log).unwrap();
    assert_eq!(back.len(), 1);
    assert_eq!(back[0].mnemonic, b"Cc".to_vec());
}

#[test]
fn unknown_fixed_width_fields_are_skipped() {
    let record = fields_bytes(vec![
        Field { num: 901, val: FieldVal::Fixed64(0x0102_0304_0506_0708) },
        Field { num: 902, val: FieldVal::Fixed32(0xAABB_CCDD) },
        Field { num: 9, val: FieldVal::Bytes(b"Cc".to_vec()) },
    ]);
    let log = frame(&record);
    let back = parse_verbose_log(&log).unwrap();
    assert_eq!(back.len(), 1);
    assert_eq!(back[0].mnemonic, b"Cc".to_vec());
}

#[test]
fn fixed_width_kind_on_a_known_field_is_rejected() {
    // The mnemonic field is length-delimited; an eight-byte kind there is
    // a wire-kind mismatch.
    let record = fields_bytes(vec![Field { num: 9, val: FieldVal::Fixed64(7) }]);
    let log = frame(&record);
    let err = parse_verbose_log(&log).unwrap_err();
    assert_eq!(err.cause, DecodeCause::MalformedMessage);
}
