//! Message readers and writers for the metrics envelope and the execution
//! record itself, built on the leaf codecs.

use vstd::prelude::*;
use crate::model::{
    DurationVal, SpecDurationVal, Digest, SpecDigest, KeyValue, SpecKeyValue, FileEntry,
    SpecFileEntry, Metrics, SpecMetrics, ExecutionRecord, SpecRecord, swf_duration,
    view_opt_duration, empty_spec_record,
};
use crate::wire::{
    Field, FieldVal, SpecField, SpecFieldVal, fields_view, wf_field, wf_fields, spec_enc_fields,
    spec_parse_fields, lemma_parse_fields_enc, lemma_wf_fields_concat, lemma_enc_fields_concat,
    parse_fields_exec, write_fields, copy_range, FIELD_NUM_MAX,
};
use crate::codec::{
    U32_FIELD_MAX, default_duration, default_digest, default_kv, default_file, opt_u64_field,
    opt_bool_field, opt_bytes_field, rep_bytes_fields, push_opt_u64_field, push_opt_bool_field,
    push_opt_bytes_field, spec_parse_duration, spec_enc_duration, lemma_duration_rt,
    decode_duration, encode_duration, spec_parse_digest, spec_enc_digest, wf_digest,
    lemma_digest_rt, decode_digest, encode_digest, spec_parse_kv, spec_enc_kv, wf_kv, lemma_kv_rt,
    decode_kv, encode_kv, spec_parse_file, spec_enc_file, wf_file, lemma_file_rt, decode_file,
    encode_file, view_opt_digest, opt_digest_field, push_opt_digest_field,
};

verus! {

pub open spec fn default_metrics() -> SpecMetrics {
    SpecMetrics {
        total_time: None,
        queue_time: None,
        setup_time: None,
        upload_time: None,
        execution_wall_time: None,
        fetch_time: None,
        retry_time: None,
        input_bytes: 0,
        input_files: 0,
        memory_estimate_bytes: 0,
        memory_bytes_limit: 0,
    }
}

/// A nested time-span field, present exactly when the span is present.
pub open spec fn opt_duration_field(num: u32, d: Option<SpecDurationVal>) -> Seq<SpecField> {
    match d {
        None => Seq::empty(),
        Some(x) => seq![SpecField { num, val: SpecFieldVal::Bytes(spec_enc_duration(x)) }],
    }
}

/// Pushes a nested time-span field when the span is present.
pub fn push_opt_duration_field(fields: &mut Vec<Field>, num: u32, d: &Option<DurationVal>)
    requires
        1 <= num <= FIELD_NUM_MAX,
    ensures
        fields_view(final(fields)@) == fields_view(old(fields)@) + opt_duration_field(
            num,
            view_opt_duration(*d),
        ),
        forall|j: int|
            old(fields)@.len() <= j < final(fields)@.len()
                ==> (#[trigger] final(fields)@[j]).num == num,
{
    match d {
        None => {},
        Some(x) => {
            let payload = encode_duration(x);
            fields.push(Field { num, val: FieldVal::Bytes(payload) });
        },
    }
    assert(fields_view(fields@) =~= fields_view(old(fields)@) + opt_duration_field(
        num,
        view_opt_duration(*d),
    ));
}

/// Folds one field into a metrics envelope: 1–7 the seven time spans,
/// 8 input bytes, 9 input files, 10 memory estimate, 11 memory limit.
pub open spec fn step_metrics(acc: SpecMetrics, f: SpecField) -> Option<SpecMetrics> {
    if 1 <= f.num <= 7 {
        match f.val {
            SpecFieldVal::Bytes(d) => match spec_parse_duration(d) {
                Some(dv) => Some(
                    if f.num == 1 {
                        SpecMetrics { total_time: Some(dv), ..acc }
                    } else if f.num == 2 {
                        SpecMetrics { queue_time: Some(dv), ..acc }
                    } else if f.num == 3 {
                        SpecMetrics { setup_time: Some(dv), ..acc }
                    } else if f.num == 4 {
                        SpecMetrics { upload_time: Some(dv), ..acc }
                    } else if f.num == 5 {
                        SpecMetrics { execution_wall_time: Some(dv), ..acc }
                    } else if f.num == 6 {
                        SpecMetrics { fetch_time: Some(dv), ..acc }
                    } else {
                        SpecMetrics { retry_time: Some(dv), ..acc }
                    },
                ),
                None => None,
            },
            _ => None,
        }
    } else if f.num == 8 {
        match f.val {
            SpecFieldVal::Uint(v) => Some(SpecMetrics { input_bytes: v, ..acc }),
            _ => None,
        }
    } else if f.num == 9 {
        match f.val {
            SpecFieldVal::Uint(v) => Some(SpecMetrics { input_files: v, ..acc }),
            _ => None,
        }
    } else if f.num == 10 {
        match f.val {
            SpecFieldVal::Uint(v) => Some(SpecMetrics { memory_estimate_bytes: v, ..acc }),
            _ => None,
        }
    } else if f.num == 11 {
        match f.val {
            SpecFieldVal::Uint(v) => Some(SpecMetrics { memory_bytes_limit: v, ..acc }),
            _ => None,
        }
    } else {
        Some(acc)
    }
}

pub open spec fn fold_metrics(fs: Seq<SpecField>, acc: SpecMetrics) -> Option<SpecMetrics>
    decreases fs.len(),
{
    if fs.len() == 0 {
        Some(acc)
    } else {
        match step_metrics(acc, fs[0]) {
            None => None,
            Some(a) => fold_metrics(fs.skip(1), a),
        }
    }
}

pub proof fn lemma_fold_metrics_append(a: Seq<SpecField>, b: Seq<SpecField>, acc: SpecMetrics)
    ensures
        fold_metrics(a + b, acc) == match fold_metrics(a, acc) {
            None => None::<SpecMetrics>,
            Some(m) => fold_metrics(b, m),
        },
    decreases a.len(),
{
    if a.len() == 0 {
        assert(a + b =~= b);
    } else {
        assert((a + b).skip(1) =~= a.skip(1) + b);
        assert((a + b)[0] == a[0]);
        match step_metrics(acc, a[0]) {
            None => {},
            Some(m) => {
                lemma_fold_metrics_append(a.skip(1), b, m);
            },
        }
    }
}

pub open spec fn spec_parse_metrics(s: Seq<u8>) -> Option<SpecMetrics> {
    match spec_parse_fields(s) {
        None => None,
        Some(fs) => fold_metrics(fs, default_metrics()),
    }
}

pub open spec fn fields_of_metrics(m: SpecMetrics) -> Seq<SpecField> {
    opt_duration_field(1, m.total_time) + opt_duration_field(2, m.queue_time)
        + opt_duration_field(3, m.setup_time) + opt_duration_field(4, m.upload_time)
        + opt_duration_field(5, m.execution_wall_time) + opt_duration_field(6, m.fetch_time)
        + opt_duration_field(7, m.retry_time) + opt_u64_field(8, m.input_bytes) + opt_u64_field(
        9,
        m.input_files,
    ) + opt_u64_field(10, m.memory_estimate_bytes) + opt_u64_field(11, m.memory_bytes_limit)
}

pub open spec fn spec_enc_metrics(m: SpecMetrics) -> Seq<u8> {
    spec_enc_fields(fields_of_metrics(m))
}

pub open spec fn swf_opt_duration(d: Option<SpecDurationVal>) -> bool {
    match d {
        Some(x) => swf_duration(x),
        None => true,
    }
}

/// A metrics envelope the writer can represent: every present time span is
/// a genuine fraction of a second, and the payload fits.
pub open spec fn wf_metrics(m: SpecMetrics) -> bool {
    &&& swf_opt_duration(m.total_time)
    &&& swf_opt_duration(m.queue_time)
    &&& swf_opt_duration(m.setup_time)
    &&& swf_opt_duration(m.upload_time)
    &&& swf_opt_duration(m.execution_wall_time)
    &&& swf_opt_duration(m.fetch_time)
    &&& swf_opt_duration(m.retry_time)
    &&& spec_enc_metrics(m).len() <= u64::MAX
}

#[verifier::rlimit(100)]
pub proof fn lemma_metrics_rt(m: SpecMetrics)
    requires
        wf_metrics(m),
    ensures
        wf_fields(fields_of_metrics(m)),
        spec_parse_metrics(spec_enc_metrics(m)) == Some(m),
{
    let s1 = opt_duration_field(1, m.total_time);
    let s2 = opt_duration_field(2, m.queue_time);
    let s3 = opt_duration_field(3, m.setup_time);
    let s4 = opt_duration_field(4, m.upload_time);
    let s5 = opt_duration_field(5, m.execution_wall_time);
    let s6 = opt_duration_field(6, m.fetch_time);
    let s7 = opt_duration_field(7, m.retry_time);
    let s8 = opt_u64_field(8, m.input_bytes);
    let s9 = opt_u64_field(9, m.input_files);
    let s10 = opt_u64_field(10, m.memory_estimate_bytes);
    let s11 = opt_u64_field(11, m.memory_bytes_limit);
    let fs = fields_of_metrics(m);
    let m1 = SpecMetrics { total_time: m.total_time, ..default_metrics() };
    let m2 = SpecMetrics { queue_time: m.queue_time, ..m1 };
    let m3 = SpecMetrics { setup_time: m.setup_time, ..m2 };
    let m4 = SpecMetrics { upload_time: m.upload_time, ..m3 };
    let m5 = SpecMetrics { execution_wall_time: m.execution_wall_time, ..m4 };
    let m6 = SpecMetrics { fetch_time: m.fetch_time, ..m5 };
    let m7 = SpecMetrics { retry_time: m.retry_time, ..m6 };
    let m8 = SpecMetrics { input_bytes: m.input_bytes, ..m7 };
    let m9 = SpecMetrics { input_files: m.input_files, ..m8 };
    let m10 = SpecMetrics { memory_estimate_bytes: m.memory_estimate_bytes, ..m9 };
    assert(fold_metrics(s1, default_metrics()) == Some(m1)) by {
        reveal_with_fuel(fold_metrics, 3);
        lemma_fold_one_duration(1, m.total_time, default_metrics(), m1);
    }
    assert(fold_metrics(s2, m1) == Some(m2)) by {
        reveal_with_fuel(fold_metrics, 3);
        lemma_fold_one_duration(2, m.queue_time, m1, m2);
    }
    assert(fold_metrics(s3, m2) == Some(m3)) by {
        reveal_with_fuel(fold_metrics, 3);
        lemma_fold_one_duration(3, m.setup_time, m2, m3);
    }
    assert(fold_metrics(s4, m3) == Some(m4)) by {
        reveal_with_fuel(fold_metrics, 3);
        lemma_fold_one_duration(4, m.upload_time, m3, m4);
    }
    assert(fold_metrics(s5, m4) == Some(m5)) by {
        reveal_with_fuel(fold_metrics, 3);
        lemma_fold_one_duration(5, m.execution_wall_time, m4, m5);
    }
    assert(fold_metrics(s6, m5) == Some(m6)) by {
        reveal_with_fuel(fold_metrics, 3);
        lemma_fold_one_duration(6, m.fetch_time, m5, m6);
    }
    assert(fold_metrics(s7, m6) == Some(m7)) by {
        reveal_with_fuel(fold_metrics, 3);
        lemma_fold_one_duration(7, m.retry_time, m6, m7);
    }
    assert(fold_metrics(s8, m7) == Some(m8)) by {
        reveal_with_fuel(fold_metrics, 3);
        if m.input_bytes != 0 {
            assert(s8.skip(1) =~= Seq::<SpecField>::empty());
        } else {
            assert(m8 =~= m7);
        }
    }
    assert(fold_metrics(s9, m8) == Some(m9)) by {
        reveal_with_fuel(fold_metrics, 3);
        if m.input_files != 0 {
            assert(s9.skip(1) =~= Seq::<SpecField>::empty());
        } else {
            assert(m9 =~= m8);
        }
    }
    assert(fold_metrics(s10, m9) == Some(m10)) by {
        reveal_with_fuel(fold_metrics, 3);
        if m.memory_estimate_bytes != 0 {
            assert(s10.skip(1) =~= Seq::<SpecField>::empty());
        } else {
            assert(m10 =~= m9);
        }
    }
    assert(fold_metrics(s11, m10) == Some(m)) by {
        reveal_with_fuel(fold_metrics, 3);
        if m.memory_bytes_limit != 0 {
            assert(s11.skip(1) =~= Seq::<SpecField>::empty());
            assert(SpecMetrics { memory_bytes_limit: m.memory_bytes_limit, ..m10 } =~= m);
        } else {
            assert(m10 =~= m);
        }
    }
    let p2 = s1 + s2;
    let p3 = p2 + s3;
    let p4 = p3 + s4;
    let p5 = p4 + s5;
    let p6 = p5 + s6;
    let p7 = p6 + s7;
    let p8 = p7 + s8;
    let p9 = p8 + s9;
    let p10 = p9 + s10;
    let p11 = p10 + s11;
    assert(fs =~= p11);
    assert(wf_fields(s1)) by {
        lemma_wf_opt_duration_field(1, m.total_time);
    }
    assert(wf_fields(s2)) by {
        lemma_wf_opt_duration_field(2, m.queue_time);
    }
    assert(wf_fields(s3)) by {
        lemma_wf_opt_duration_field(3, m.setup_time);
    }
    assert(wf_fields(s4)) by {
        lemma_wf_opt_duration_field(4, m.upload_time);
    }
    assert(wf_fields(s5)) by {
        lemma_wf_opt_duration_field(5, m.execution_wall_time);
    }
    assert(wf_fields(s6)) by {
        lemma_wf_opt_duration_field(6, m.fetch_time);
    }
    assert(wf_fields(s7)) by {
        lemma_wf_opt_duration_field(7, m.retry_time);
    }
    lemma_wf_fields_concat(s1, s2);
    lemma_wf_fields_concat(p2, s3);
    lemma_wf_fields_concat(p3, s4);
    lemma_wf_fields_concat(p4, s5);
    lemma_wf_fields_concat(p5, s6);
    lemma_wf_fields_concat(p6, s7);
    lemma_wf_fields_concat(p7, s8);
    lemma_wf_fields_concat(p8, s9);
    lemma_wf_fields_concat(p9, s10);
    lemma_wf_fields_concat(p10, s11);
    lemma_parse_fields_enc(fs);
    lemma_fold_metrics_append(s1, s2, default_metrics());
    assert(fold_metrics(p2, default_metrics()) == Some(m2));
    lemma_fold_metrics_append(p2, s3, default_metrics());
    assert(fold_metrics(p3, default_metrics()) == Some(m3));
    lemma_fold_metrics_append(p3, s4, default_metrics());
    assert(fold_metrics(p4, default_metrics()) == Some(m4));
    lemma_fold_metrics_append(p4, s5, default_metrics());
    assert(fold_metrics(p5, default_metrics()) == Some(m5));
    lemma_fold_metrics_append(p5, s6, default_metrics());
    assert(fold_metrics(p6, default_metrics()) == Some(m6));
    lemma_fold_metrics_append(p6, s7, default_metrics());
    assert(fold_metrics(p7, default_metrics()) == Some(m7));
    lemma_fold_metrics_append(p7, s8, default_metrics());
    assert(fold_metrics(p8, default_metrics()) == Some(m8));
    lemma_fold_metrics_append(p8, s9, default_metrics());
    assert(fold_metrics(p9, default_metrics()) == Some(m9));
    lemma_fold_metrics_append(p9, s10, default_metrics());
    assert(fold_metrics(p10, default_metrics()) == Some(m10));
    lemma_fold_metrics_append(p10, s11, default_metrics());
    assert(fold_metrics(p11, default_metrics()) == Some(m));
}

/// An optional time-span field is well formed.
proof fn lemma_wf_opt_duration_field(num: u32, d: Option<SpecDurationVal>)
    requires
        1 <= num <= 7,
    ensures
        wf_fields(opt_duration_field(num, d)),
{
    match d {
        None => {},
        Some(x) => {
            crate::codec::lemma_enc_duration_len(x);
        },
    }
}

/// A present span round-trips through its nested field; an absent span
/// contributes no field.
proof fn lemma_fold_one_duration(
    num: u32,
    d: Option<SpecDurationVal>,
    acc: SpecMetrics,
    expect: SpecMetrics,
)
    requires
        1 <= num <= 7,
        swf_opt_duration(d),
        d is None ==> expect == acc,
        d is Some ==> expect == if num == 1 {
            SpecMetrics { total_time: d, ..acc }
        } else if num == 2 {
            SpecMetrics { queue_time: d, ..acc }
        } else if num == 3 {
            SpecMetrics { setup_time: d, ..acc }
        } else if num == 4 {
            SpecMetrics { upload_time: d, ..acc }
        } else if num == 5 {
            SpecMetrics { execution_wall_time: d, ..acc }
        } else if num == 6 {
            SpecMetrics { fetch_time: d, ..acc }
        } else {
            SpecMetrics { retry_time: d, ..acc }
        },
    ensures
        fold_metrics(opt_duration_field(num, d), acc) == Some(expect),
{
    reveal_with_fuel(fold_metrics, 3);
    match d {
        None => {},
        Some(x) => {
            lemma_duration_rt(x);
            assert(opt_duration_field(num, d).skip(1) =~= Seq::<SpecField>::empty());
        },
    }
}

/// Decodes a whole buffer as a metrics envelope.
pub fn decode_metrics(data: &Vec<u8>) -> (r: Option<Metrics>)
    ensures
        match r {
            Some(m) => spec_parse_metrics(data@) == Some(m@),
            None => spec_parse_metrics(data@) is None,
        },
{
    proof {
        assert(data@.subrange(0, data@.len() as int) =~= data@);
    }
    let fields = match parse_fields_exec(data, 0, data.len()) {
        None => {
            return None;
        },
        Some(fs) => fs,
    };
    let ghost fv = fields_view(fields@);
    let mut acc = Metrics {
        total_time: None,
        queue_time: None,
        setup_time: None,
        upload_time: None,
        execution_wall_time: None,
        fetch_time: None,
        retry_time: None,
        input_bytes: 0,
        input_files: 0,
        memory_estimate_bytes: 0,
        memory_bytes_limit: 0,
    };
    let mut i: usize = 0;
    proof {
        assert(fv.take(0) =~= Seq::<SpecField>::empty());
        assert(acc@ =~= default_metrics());
    }
    while i < fields.len()
        invariant
            i <= fields.len(),
            fv == fields_view(fields@),
            spec_parse_fields(data@) == Some(fv),
            fold_metrics(fv.take(i as int), default_metrics()) == Some(acc@),
        decreases fields.len() - i,
    {
        proof {
            reveal_with_fuel(fold_metrics, 3);
            assert(fv.take(i + 1) =~= fv.take(i as int) + seq![fv[i as int]]);
            lemma_fold_metrics_append(fv.take(i as int), seq![fv[i as int]], default_metrics());
            assert(seq![fv[i as int]].skip(1) =~= Seq::<SpecField>::empty());
            assert(fold_metrics(fv.take(i + 1), default_metrics()) == step_metrics(
                acc@,
                fv[i as int],
            ));
            assert(fv =~= fv.take(i + 1) + fv.skip(i + 1));
            lemma_fold_metrics_append(fv.take(i + 1), fv.skip(i + 1), default_metrics());
            assert(step_metrics(acc@, fv[i as int]) is None ==> fold_metrics(
                fv,
                default_metrics(),
            ) is None);
        }
        let f = &fields[i];
        assert(f@ == fv[i as int]);
        if 1 <= f.num && f.num <= 7 {
            match &f.val {
                FieldVal::Bytes(d) => {
                    let dv = match decode_duration(d) {
                        Some(x) => x,
                        None => {
                            return None;
                        },
                    };
                    if f.num == 1 {
                        acc.total_time = Some(dv);
                    } else if f.num == 2 {
                        acc.queue_time = Some(dv);
                    } else if f.num == 3 {
                        acc.setup_time = Some(dv);
                    } else if f.num == 4 {
                        acc.upload_time = Some(dv);
                    } else if f.num == 5 {
                        acc.execution_wall_time = Some(dv);
                    } else if f.num == 6 {
                        acc.fetch_time = Some(dv);
                    } else {
                        acc.retry_time = Some(dv);
                    }
                },
                _ => {
                    return None;
                },
            }
        } else if f.num == 8 {
            match &f.val {
                FieldVal::Uint(v) => {
                    acc.input_bytes = *v;
                },
                _ => {
                    return None;
                },
            }
        } else if f.num == 9 {
            match &f.val {
                FieldVal::Uint(v) => {
                    acc.input_files = *v;
                },
                _ => {
                    return None;
                },
            }
        } else if f.num == 10 {
            match &f.val {
                FieldVal::Uint(v) => {
                    acc.memory_estimate_bytes = *v;
                },
                _ => {
                    return None;
                },
            }
        } else if f.num == 11 {
            match &f.val {
                FieldVal::Uint(v) => {
                    acc.memory_bytes_limit = *v;
                },
                _ => {
                    return None;
                },
            }
        }
        i = i + 1;
    }
    proof {
        assert(fv.take(fv.len() as int) =~= fv);
    }
    Some(acc)
}

/// Writes the canonical payload of `m` to a fresh vector.
pub fn encode_metrics(m: &Metrics) -> (out: Vec<u8>)
    ensures
        out@ == spec_enc_metrics(m@),
{
    let mut fields: Vec<Field> = Vec::new();
    push_opt_duration_field(&mut fields, 1, &m.total_time);
    push_opt_duration_field(&mut fields, 2, &m.queue_time);
    push_opt_duration_field(&mut fields, 3, &m.setup_time);
    push_opt_duration_field(&mut fields, 4, &m.upload_time);
    push_opt_duration_field(&mut fields, 5, &m.execution_wall_time);
    push_opt_duration_field(&mut fields, 6, &m.fetch_time);
    push_opt_duration_field(&mut fields, 7, &m.retry_time);
    push_opt_u64_field(&mut fields, 8, m.input_bytes);
    push_opt_u64_field(&mut fields, 9, m.input_files);
    push_opt_u64_field(&mut fields, 10, m.memory_estimate_bytes);
    push_opt_u64_field(&mut fields, 11, m.memory_bytes_limit);
    proof {
        assert(fields_view(fields@) =~= fields_of_metrics(m@));
        assert forall|j: int| 0 <= j < fields@.len() implies 1 <= (#[trigger] fields@[j]).num
            <= FIELD_NUM_MAX by {
            assert(fields_view(fields@)[j] == fields@[j]@);
        }
    }
    let mut out: Vec<u8> = Vec::new();
    write_fields(&mut out, &fields);
    assert(out@ =~= spec_enc_metrics(m@));
    out
}


// ---------------------------------------------------------------------------
// Execution records.
// ---------------------------------------------------------------------------

/// One nested name/value field for each element, in order.
pub open spec fn rep_kv_fields(num: u32, elems: Seq<SpecKeyValue>) -> Seq<SpecField>
    decreases elems.len(),
{
    if elems.len() == 0 {
        Seq::empty()
    } else {
        seq![SpecField { num, val: SpecFieldVal::Bytes(spec_enc_kv(elems[0])) }] + rep_kv_fields(
            num,
            elems.skip(1),
        )
    }
}

/// One nested file-entry field for each element, in order.
pub open spec fn rep_file_fields(num: u32, elems: Seq<SpecFileEntry>) -> Seq<SpecField>
    decreases elems.len(),
{
    if elems.len() == 0 {
        Seq::empty()
    } else {
        seq![SpecField { num, val: SpecFieldVal::Bytes(spec_enc_file(elems[0])) }]
            + rep_file_fields(num, elems.skip(1))
    }
}

/// A nested metrics field, present exactly when metrics are present.
pub open spec fn opt_metrics_field(num: u32, m: Option<SpecMetrics>) -> Seq<SpecField> {
    match m {
        None => Seq::empty(),
        Some(x) => seq![SpecField { num, val: SpecFieldVal::Bytes(spec_enc_metrics(x)) }],
    }
}

pub open spec fn view_opt_metrics(m: Option<Metrics>) -> Option<SpecMetrics> {
    match m {
        Some(x) => Some(x@),
        None => None,
    }
}

/// Pushes one byte-string field per element.
pub fn push_rep_bytes_fields(fields: &mut Vec<Field>, num: u32, elems: &Vec<Vec<u8>>)
    requires
        1 <= num <= FIELD_NUM_MAX,
    ensures
        fields_view(final(fields)@) == fields_view(old(fields)@) + rep_bytes_fields(
            num,
            elems@.map_values(|b: Vec<u8>| b@),
        ),
        forall|j: int|
            old(fields)@.len() <= j < final(fields)@.len()
                ==> (#[trigger] final(fields)@[j]).num == num,
{
    let ghost ev = elems@.map_values(|b: Vec<u8>| b@);
    let mut i: usize = 0;
    while i < elems.len()
        invariant
            i <= elems.len(),
            ev == elems@.map_values(|b: Vec<u8>| b@),
            fields_view(fields@) == fields_view(old(fields)@) + rep_bytes_fields(
                num,
                ev.take(i as int),
            ),
            forall|j: int|
                old(fields)@.len() <= j < fields@.len() ==> (#[trigger] fields@[j]).num == num,
            1 <= num <= FIELD_NUM_MAX,
        decreases elems.len() - i,
    {
        let b = &elems[i];
        let ghost prev = fields@;
        fields.push(Field { num, val: FieldVal::Bytes(copy_range(b, 0, b.len())) });
        proof {
            assert(b@.subrange(0, b@.len() as int) =~= b@);
            assert(ev[i as int] == b@);
            assert(fields_view(fields@) =~= fields_view(prev) + seq![
                SpecField { num, val: SpecFieldVal::Bytes(ev[i as int]) },
            ]);
            lemma_rep_bytes_take_one(num, ev, i as int);
            assert(fields_view(fields@) =~= fields_view(old(fields)@) + rep_bytes_fields(
                num,
                ev.take(i + 1),
            ));
        }
        i = i + 1;
    }
    proof {
        assert(ev.take(ev.len() as int) =~= ev);
    }
}

/// Extending the element prefix by one appends one field.
proof fn lemma_rep_bytes_take_one(num: u32, ev: Seq<Seq<u8>>, i: int)
    requires
        0 <= i < ev.len(),
    ensures
        rep_bytes_fields(num, ev.take(i + 1)) == rep_bytes_fields(num, ev.take(i)) + seq![
            SpecField { num, val: SpecFieldVal::Bytes(ev[i]) },
        ],
    decreases i,
{
    reveal_with_fuel(rep_bytes_fields, 4);
    let a = ev.take(i + 1);
    if i == 0 {
        assert(a.skip(1) =~= Seq::<Seq<u8>>::empty());
        assert(rep_bytes_fields(num, ev.take(0)) =~= Seq::<SpecField>::empty());
        assert(rep_bytes_fields(num, a) =~= rep_bytes_fields(num, ev.take(0)) + seq![
            SpecField { num, val: SpecFieldVal::Bytes(ev[0]) },
        ]);
    } else {
        assert(a.skip(1) =~= ev.skip(1).take(i));
        assert(ev.take(i).skip(1) =~= ev.skip(1).take(i - 1));
        lemma_rep_bytes_take_one(num, ev.skip(1), i - 1);
        assert(rep_bytes_fields(num, a) =~= rep_bytes_fields(num, ev.take(i)) + seq![
            SpecField { num, val: SpecFieldVal::Bytes(ev[i]) },
        ]);
    }
}

/// Pushes one nested name/value field per element.
pub fn push_rep_kv_fields(fields: &mut Vec<Field>, num: u32, elems: &Vec<KeyValue>)
    requires
        1 <= num <= FIELD_NUM_MAX,
    ensures
        fields_view(final(fields)@) == fields_view(old(fields)@) + rep_kv_fields(
            num,
            elems@.map_values(|kv: KeyValue| kv@),
        ),
        forall|j: int|
            old(fields)@.len() <= j < final(fields)@.len()
                ==> (#[trigger] final(fields)@[j]).num == num,
{
    let ghost ev = elems@.map_values(|kv: KeyValue| kv@);
    let mut i: usize = 0;
    while i < elems.len()
        invariant
            i <= elems.len(),
            ev == elems@.map_values(|kv: KeyValue| kv@),
            fields_view(fields@) == fields_view(old(fields)@) + rep_kv_fields(
                num,
                ev.take(i as int),
            ),
            forall|j: int|
                old(fields)@.len() <= j < fields@.len() ==> (#[trigger] fields@[j]).num == num,
            1 <= num <= FIELD_NUM_MAX,
        decreases elems.len() - i,
    {
        let ghost prev = fields@;
        let payload = encode_kv(&elems[i]);
        fields.push(Field { num, val: FieldVal::Bytes(payload) });
        proof {
            assert(ev[i as int] == elems@[i as int]@);
            assert(fields_view(fields@) =~= fields_view(prev) + seq![
                SpecField { num, val: SpecFieldVal::Bytes(spec_enc_kv(ev[i as int])) },
            ]);
            lemma_rep_kv_take_one(num, ev, i as int);
            assert(fields_view(fields@) =~= fields_view(old(fields)@) + rep_kv_fields(
                num,
                ev.take(i + 1),
            ));
        }
        i = i + 1;
    }
    proof {
        assert(ev.take(ev.len() as int) =~= ev);
    }
}

proof fn lemma_rep_kv_take_one(num: u32, ev: Seq<SpecKeyValue>, i: int)
    requires
        0 <= i < ev.len(),
    ensures
        rep_kv_fields(num, ev.take(i + 1)) == rep_kv_fields(num, ev.take(i)) + seq![
            SpecField { num, val: SpecFieldVal::Bytes(spec_enc_kv(ev[i])) },
        ],
    decreases i,
{
    reveal_with_fuel(rep_kv_fields, 4);
    let a = ev.take(i + 1);
    if i == 0 {
        assert(a.skip(1) =~= Seq::<SpecKeyValue>::empty());
        assert(rep_kv_fields(num, ev.take(0)) =~= Seq::<SpecField>::empty());
        assert(rep_kv_fields(num, a) =~= rep_kv_fields(num, ev.take(0)) + seq![
            SpecField { num, val: SpecFieldVal::Bytes(spec_enc_kv(ev[0])) },
        ]);
    } else {
        assert(a.skip(1) =~= ev.skip(1).take(i));
        assert(ev.take(i).skip(1) =~= ev.skip(1).take(i - 1));
        lemma_rep_kv_take_one(num, ev.skip(1), i - 1);
        assert(rep_kv_fields(num, a) =~= rep_kv_fields(num, ev.take(i)) + seq![
            SpecField { num, val: SpecFieldVal::Bytes(spec_enc_kv(ev[i])) },
        ]);
    }
}

/// Pushes one nested file-entry field per element.
pub fn push_rep_file_fields(fields: &mut Vec<Field>, num: u32, elems: &Vec<FileEntry>)
    requires
        1 <= num <= FIELD_NUM_MAX,
    ensures
        fields_view(final(fields)@) == fields_view(old(fields)@) + rep_file_fields(
            num,
            elems@.map_values(|f: FileEntry| f@),
        ),
        forall|j: int|
            old(fields)@.len() <= j < final(fields)@.len()
                ==> (#[trigger] final(fields)@[j]).num == num,
{
    let ghost ev = elems@.map_values(|f: FileEntry| f@);
    let mut i: usize = 0;
    while i < elems.len()
        invariant
            i <= elems.len(),
            ev == elems@.map_values(|f: FileEntry| f@),
            fields_view(fields@) == fields_view(old(fields)@) + rep_file_fields(
                num,
                ev.take(i as int),
            ),
            forall|j: int|
                old(fields)@.len() <= j < fields@.len() ==> (#[trigger] fields@[j]).num == num,
            1 <= num <= FIELD_NUM_MAX,
        decreases elems.len() - i,
    {
        let ghost prev = fields@;
        let payload = encode_file(&elems[i]);
        fields.push(Field { num, val: FieldVal::Bytes(payload) });
        proof {
            assert(ev[i as int] == elems@[i as int]@);
            assert(fields_view(fields@) =~= fields_view(prev) + seq![
                SpecField { num, val: SpecFieldVal::Bytes(spec_enc_file(ev[i as int])) },
            ]);
            lemma_rep_file_take_one(num, ev, i as int);
            assert(fields_view(fields@) =~= fields_view(old(fields)@) + rep_file_fields(
                num,
                ev.take(i + 1),
            ));
        }
        i = i + 1;
    }
    proof {
        assert(ev.take(ev.len() as int) =~= ev);
    }
}

proof fn lemma_rep_file_take_one(num: u32, ev: Seq<SpecFileEntry>, i: int)
    requires
        0 <= i < ev.len(),
    ensures
        rep_file_fields(num, ev.take(i + 1)) == rep_file_fields(num, ev.take(i)) + seq![
            SpecField { num, val: SpecFieldVal::Bytes(spec_enc_file(ev[i])) },
        ],
    decreases i,
{
    reveal_with_fuel(rep_file_fields, 4);
    let a = ev.take(i + 1);
    if i == 0 {
        assert(a.skip(1) =~= Seq::<SpecFileEntry>::empty());
        assert(rep_file_fields(num, ev.take(0)) =~= Seq::<SpecField>::empty());
        assert(rep_file_fields(num, a) =~= rep_file_fields(num, ev.take(0)) + seq![
            SpecField { num, val: SpecFieldVal::Bytes(spec_enc_file(ev[0])) },
        ]);
    } else {
        assert(a.skip(1) =~= ev.skip(1).take(i));
        assert(ev.take(i).skip(1) =~= ev.skip(1).take(i - 1));
        lemma_rep_file_take_one(num, ev.skip(1), i - 1);
        assert(rep_file_fields(num, a) =~= rep_file_fields(num, ev.take(i)) + seq![
            SpecField { num, val: SpecFieldVal::Bytes(spec_enc_file(ev[i])) },
        ]);
    }
}

/// Pushes a nested metrics field when metrics are present.
pub fn push_opt_metrics_field(fields: &mut Vec<Field>, num: u32, m: &Option<Metrics>)
    requires
        1 <= num <= FIELD_NUM_MAX,
    ensures
        fields_view(final(fields)@) == fields_view(old(fields)@) + opt_metrics_field(
            num,
            view_opt_metrics(*m),
        ),
        forall|j: int|
            old(fields)@.len() <= j < final(fields)@.len()
                ==> (#[trigger] final(fields)@[j]).num == num,
{
    match m {
        None => {},
        Some(x) => {
            let payload = encode_metrics(x);
            fields.push(Field { num, val: FieldVal::Bytes(payload) });
        },
    }
    assert(fields_view(fields@) =~= fields_view(old(fields)@) + opt_metrics_field(
        num,
        view_opt_metrics(*m),
    ));
}


/// Folds one field into an execution record. Field numbers: 1 command
/// arguments, 2 environment variables, 3 platform properties, 4 inputs,
/// 5 listed outputs, 6 remotable, 7 cacheable, 8 timeout in milliseconds,
/// 9 mnemonic, 10 actual outputs, 11 runner, 12 cache hit, 13 status,
/// 14 exit code, 15 remote cacheable, 16 target label, 17 digest,
/// 18 metrics.
pub open spec fn step_record(acc: SpecRecord, f: SpecField) -> Option<SpecRecord> {
    if f.num == 1 {
        match f.val {
            SpecFieldVal::Bytes(d) => Some(
                SpecRecord { command_args: acc.command_args.push(d), ..acc },
            ),
            _ => None,
        }
    } else if f.num == 2 {
        match f.val {
            SpecFieldVal::Bytes(d) => match spec_parse_kv(d) {
                Some(kv) => Some(
                    SpecRecord {
                        environment_variables: acc.environment_variables.push(kv),
                        ..acc
                    },
                ),
                None => None,
            },
            _ => None,
        }
    } else if f.num == 3 {
        match f.val {
            SpecFieldVal::Bytes(d) => match spec_parse_kv(d) {
                Some(kv) => Some(SpecRecord { platform: acc.platform.push(kv), ..acc }),
                None => None,
            },
            _ => None,
        }
    } else if f.num == 4 {
        match f.val {
            SpecFieldVal::Bytes(d) => match spec_parse_file(d) {
                Some(fe) => Some(SpecRecord { inputs: acc.inputs.push(fe), ..acc }),
                None => None,
            },
            _ => None,
        }
    } else if f.num == 5 {
        match f.val {
            SpecFieldVal::Bytes(d) => Some(
                SpecRecord { listed_outputs: acc.listed_outputs.push(d), ..acc },
            ),
            _ => None,
        }
    } else if f.num == 6 {
        match f.val {
            SpecFieldVal::Uint(v) => Some(SpecRecord { remotable: v != 0, ..acc }),
            _ => None,
        }
    } else if f.num == 7 {
        match f.val {
            SpecFieldVal::Uint(v) => Some(SpecRecord { cacheable: v != 0, ..acc }),
            _ => None,
        }
    } else if f.num == 8 {
        match f.val {
            SpecFieldVal::Uint(v) => Some(SpecRecord { timeout_millis: v, ..acc }),
            _ => None,
        }
    } else if f.num == 9 {
        match f.val {
            SpecFieldVal::Bytes(d) => Some(SpecRecord { mnemonic: d, ..acc }),
            _ => None,
        }
    } else if f.num == 10 {
        match f.val {
            SpecFieldVal::Bytes(d) => match spec_parse_file(d) {
                Some(fe) => Some(SpecRecord { actual_outputs: acc.actual_outputs.push(fe), ..acc }),
                None => None,
            },
            _ => None,
        }
    } else if f.num == 11 {
        match f.val {
            SpecFieldVal::Bytes(d) => Some(SpecRecord { runner: d, ..acc }),
            _ => None,
        }
    } else if f.num == 12 {
        match f.val {
            SpecFieldVal::Uint(v) => Some(SpecRecord { cache_hit: v != 0, ..acc }),
            _ => None,
        }
    } else if f.num == 13 {
        match f.val {
            SpecFieldVal::Bytes(d) => Some(SpecRecord { status: d, ..acc }),
            _ => None,
        }
    } else if f.num == 14 {
        match f.val {
            SpecFieldVal::Uint(v) => {
                if v <= U32_FIELD_MAX {
                    Some(SpecRecord { exit_code: v as u32, ..acc })
                } else {
                    None
                }
            },
            _ => None,
        }
    } else if f.num == 15 {
        match f.val {
            SpecFieldVal::Uint(v) => Some(SpecRecord { remote_cacheable: v != 0, ..acc }),
            _ => None,
        }
    } else if f.num == 16 {
        match f.val {
            SpecFieldVal::Bytes(d) => Some(SpecRecord { target_label: d, ..acc }),
            _ => None,
        }
    } else if f.num == 17 {
        match f.val {
            SpecFieldVal::Bytes(d) => match spec_parse_digest(d) {
                Some(dg) => Some(SpecRecord { digest: Some(dg), ..acc }),
                None => None,
            },
            _ => None,
        }
    } else if f.num == 18 {
        match f.val {
            SpecFieldVal::Bytes(d) => match spec_parse_metrics(d) {
                Some(mt) => Some(SpecRecord { metrics: Some(mt), ..acc }),
                None => None,
            },
            _ => None,
        }
    } else {
        Some(acc)
    }
}

pub open spec fn fold_record(fs: Seq<SpecField>, acc: SpecRecord) -> Option<SpecRecord>
    decreases fs.len(),
{
    if fs.len() == 0 {
        Some(acc)
    } else {
        match step_record(acc, fs[0]) {
            None => None,
            Some(a) => fold_record(fs.skip(1), a),
        }
    }
}

pub proof fn lemma_fold_record_append(a: Seq<SpecField>, b: Seq<SpecField>, acc: SpecRecord)
    ensures
        fold_record(a + b, acc) == match fold_record(a, acc) {
            None => None::<SpecRecord>,
            Some(m) => fold_record(b, m),
        },
    decreases a.len(),
{
    if a.len() == 0 {
        assert(a + b =~= b);
    } else {
        assert((a + b).skip(1) =~= a.skip(1) + b);
        assert((a + b)[0] == a[0]);
        match step_record(acc, a[0]) {
            None => {},
            Some(m) => {
                lemma_fold_record_append(a.skip(1), b, m);
            },
        }
    }
}

pub open spec fn spec_parse_record(s: Seq<u8>) -> Option<SpecRecord> {
    match spec_parse_fields(s) {
        None => None,
        Some(fs) => fold_record(fs, empty_spec_record()),
    }
}



pub open spec fn spec_enc_record(r: SpecRecord) -> Seq<u8> {
    spec_enc_fields(fields_of_record(r))
}

/// A record the writer can represent: every nested value well formed and
/// every length within what a varint can carry.
pub open spec fn wf_record(r: SpecRecord) -> bool {
    &&& forall|i: int|
        0 <= i < r.command_args.len() ==> (#[trigger] r.command_args[i]).len() <= u64::MAX
    &&& forall|i: int|
        0 <= i < r.environment_variables.len() ==> wf_kv(#[trigger] r.environment_variables[i])
    &&& forall|i: int| 0 <= i < r.platform.len() ==> wf_kv(#[trigger] r.platform[i])
    &&& forall|i: int| 0 <= i < r.inputs.len() ==> wf_file(#[trigger] r.inputs[i])
    &&& forall|i: int|
        0 <= i < r.listed_outputs.len() ==> (#[trigger] r.listed_outputs[i]).len() <= u64::MAX
    &&& forall|i: int| 0 <= i < r.actual_outputs.len() ==> wf_file(#[trigger] r.actual_outputs[i])
    &&& r.mnemonic.len() <= u64::MAX
    &&& r.runner.len() <= u64::MAX
    &&& r.status.len() <= u64::MAX
    &&& r.target_label.len() <= u64::MAX
    &&& match r.digest {
        Some(d) => wf_digest(d),
        None => true,
    }
    &&& match r.metrics {
        Some(m) => wf_metrics(m),
        None => true,
    }
    &&& spec_enc_record(r).len() <= u64::MAX
}

proof fn lemma_wf_rep_bytes_fields(num: u32, elems: Seq<Seq<u8>>)
    requires
        1 <= num <= FIELD_NUM_MAX,
        forall|i: int| 0 <= i < elems.len() ==> (#[trigger] elems[i]).len() <= u64::MAX,
    ensures
        wf_fields(rep_bytes_fields(num, elems)),
    decreases elems.len(),
{
    reveal_with_fuel(rep_bytes_fields, 2);
    if elems.len() > 0 {
        lemma_wf_rep_bytes_fields(num, elems.skip(1));
        lemma_wf_fields_concat(
            seq![SpecField { num, val: SpecFieldVal::Bytes(elems[0]) }],
            rep_bytes_fields(num, elems.skip(1)),
        );
    }
}

proof fn lemma_wf_rep_kv_fields(num: u32, elems: Seq<SpecKeyValue>)
    requires
        1 <= num <= FIELD_NUM_MAX,
        forall|i: int| 0 <= i < elems.len() ==> wf_kv(#[trigger] elems[i]),
    ensures
        wf_fields(rep_kv_fields(num, elems)),
    decreases elems.len(),
{
    reveal_with_fuel(rep_kv_fields, 2);
    if elems.len() > 0 {
        lemma_wf_rep_kv_fields(num, elems.skip(1));
        lemma_wf_fields_concat(
            seq![SpecField { num, val: SpecFieldVal::Bytes(spec_enc_kv(elems[0])) }],
            rep_kv_fields(num, elems.skip(1)),
        );
    }
}

proof fn lemma_wf_rep_file_fields(num: u32, elems: Seq<SpecFileEntry>)
    requires
        1 <= num <= FIELD_NUM_MAX,
        forall|i: int| 0 <= i < elems.len() ==> wf_file(#[trigger] elems[i]),
    ensures
        wf_fields(rep_file_fields(num, elems)),
    decreases elems.len(),
{
    reveal_with_fuel(rep_file_fields, 2);
    if elems.len() > 0 {
        lemma_wf_rep_file_fields(num, elems.skip(1));
        lemma_wf_fields_concat(
            seq![SpecField { num, val: SpecFieldVal::Bytes(spec_enc_file(elems[0])) }],
            rep_file_fields(num, elems.skip(1)),
        );
    }
}

proof fn lemma_fold_record_args(elems: Seq<Seq<u8>>, acc: SpecRecord)
    ensures
        fold_record(rep_bytes_fields(1, elems), acc) == Some(
            SpecRecord { command_args: acc.command_args + elems, ..acc },
        ),
    decreases elems.len(),
{
    reveal_with_fuel(fold_record, 2);
    if elems.len() == 0 {
        assert(acc.command_args + elems =~= acc.command_args);
        assert(SpecRecord { command_args: acc.command_args + elems, ..acc } =~~= acc);
    } else {
        let acc1 = SpecRecord { command_args: acc.command_args.push(elems[0]), ..acc };
        assert(rep_bytes_fields(1, elems).skip(1) =~= rep_bytes_fields(1, elems.skip(1)));
        lemma_fold_record_args(elems.skip(1), acc1);
        assert(SpecRecord { command_args: acc1.command_args + elems.skip(1), ..acc1 } =~~=
            SpecRecord { command_args: acc.command_args + elems, ..acc });
    }
}

proof fn lemma_fold_record_env(elems: Seq<SpecKeyValue>, acc: SpecRecord)
    requires
        forall|i: int| 0 <= i < elems.len() ==> wf_kv(#[trigger] elems[i]),
    ensures
        fold_record(rep_kv_fields(2, elems), acc) == Some(
            SpecRecord {
                environment_variables: acc.environment_variables + elems,
                ..acc
            },
        ),
    decreases elems.len(),
{
    reveal_with_fuel(fold_record, 2);
    if elems.len() == 0 {
        assert(acc.environment_variables + elems =~= acc.environment_variables);
        assert(SpecRecord { environment_variables: acc.environment_variables + elems, ..acc }
            =~~= acc);
    } else {
        lemma_kv_rt(elems[0]);
        let acc1 = SpecRecord {
            environment_variables: acc.environment_variables.push(elems[0]),
            ..acc
        };
        assert(rep_kv_fields(2, elems).skip(1) =~= rep_kv_fields(2, elems.skip(1)));
        lemma_fold_record_env(elems.skip(1), acc1);
        assert(SpecRecord {
            environment_variables: acc1.environment_variables + elems.skip(1),
            ..acc1
        } =~~= SpecRecord { environment_variables: acc.environment_variables + elems, ..acc });
    }
}

proof fn lemma_fold_record_platform(elems: Seq<SpecKeyValue>, acc: SpecRecord)
    requires
        forall|i: int| 0 <= i < elems.len() ==> wf_kv(#[trigger] elems[i]),
    ensures
        fold_record(rep_kv_fields(3, elems), acc) == Some(
            SpecRecord { platform: acc.platform + elems, ..acc },
        ),
    decreases elems.len(),
{
    reveal_with_fuel(fold_record, 2);
    if elems.len() == 0 {
        assert(acc.platform + elems =~= acc.platform);
        assert(SpecRecord { platform: acc.platform + elems, ..acc } =~~= acc);
    } else {
        lemma_kv_rt(elems[0]);
        let acc1 = SpecRecord { platform: acc.platform.push(elems[0]), ..acc };
        assert(rep_kv_fields(3, elems).skip(1) =~= rep_kv_fields(3, elems.skip(1)));
        lemma_fold_record_platform(elems.skip(1), acc1);
        assert(SpecRecord { platform: acc1.platform + elems.skip(1), ..acc1 } =~~= SpecRecord {
            platform: acc.platform + elems,
            ..acc
        });
    }
}

proof fn lemma_fold_record_inputs(elems: Seq<SpecFileEntry>, acc: SpecRecord)
    requires
        forall|i: int| 0 <= i < elems.len() ==> wf_file(#[trigger] elems[i]),
    ensures
        fold_record(rep_file_fields(4, elems), acc) == Some(
            SpecRecord { inputs: acc.inputs + elems, ..acc },
        ),
    decreases elems.len(),
{
    reveal_with_fuel(fold_record, 2);
    if elems.len() == 0 {
        assert(acc.inputs + elems =~= acc.inputs);
        assert(SpecRecord { inputs: acc.inputs + elems, ..acc } =~~= acc);
    } else {
        lemma_file_rt(elems[0]);
        let acc1 = SpecRecord { inputs: acc.inputs.push(elems[0]), ..acc };
        assert(rep_file_fields(4, elems).skip(1) =~= rep_file_fields(4, elems.skip(1)));
        lemma_fold_record_inputs(elems.skip(1), acc1);
        assert(SpecRecord { inputs: acc1.inputs + elems.skip(1), ..acc1 } =~~= SpecRecord {
            inputs: acc.inputs + elems,
            ..acc
        });
    }
}

proof fn lemma_fold_record_listed(elems: Seq<Seq<u8>>, acc: SpecRecord)
    ensures
        fold_record(rep_bytes_fields(5, elems), acc) == Some(
            SpecRecord { listed_outputs: acc.listed_outputs + elems, ..acc },
        ),
    decreases elems.len(),
{
    reveal_with_fuel(fold_record, 2);
    if elems.len() == 0 {
        assert(acc.listed_outputs + elems =~= acc.listed_outputs);
        assert(SpecRecord { listed_outputs: acc.listed_outputs + elems, ..acc } =~~= acc);
    } else {
        let acc1 = SpecRecord { listed_outputs: acc.listed_outputs.push(elems[0]), ..acc };
        assert(rep_bytes_fields(5, elems).skip(1) =~= rep_bytes_fields(5, elems.skip(1)));
        lemma_fold_record_listed(elems.skip(1), acc1);
        assert(SpecRecord { listed_outputs: acc1.listed_outputs + elems.skip(1), ..acc1 } =~~=
            SpecRecord { listed_outputs: acc.listed_outputs + elems, ..acc });
    }
}

proof fn lemma_fold_record_outputs(elems: Seq<SpecFileEntry>, acc: SpecRecord)
    requires
        forall|i: int| 0 <= i < elems.len() ==> wf_file(#[trigger] elems[i]),
    ensures
        fold_record(rep_file_fields(10, elems), acc) == Some(
            SpecRecord { actual_outputs: acc.actual_outputs + elems, ..acc },
        ),
    decreases elems.len(),
{
    reveal_with_fuel(fold_record, 2);
    if elems.len() == 0 {
        assert(acc.actual_outputs + elems =~= acc.actual_outputs);
        assert(SpecRecord { actual_outputs: acc.actual_outputs + elems, ..acc } =~~= acc);
    } else {
        lemma_file_rt(elems[0]);
        let acc1 = SpecRecord { actual_outputs: acc.actual_outputs.push(elems[0]), ..acc };
        assert(rep_file_fields(10, elems).skip(1) =~= rep_file_fields(10, elems.skip(1)));
        lemma_fold_record_outputs(elems.skip(1), acc1);
        assert(SpecRecord { actual_outputs: acc1.actual_outputs + elems.skip(1), ..acc1 } =~~=
            SpecRecord { actual_outputs: acc.actual_outputs + elems, ..acc });
    }
}


/// The record with its first nine fields taken from `r` and the rest
/// still default: the state of the fold half way through the canonical
/// field list.
pub open spec fn rec_first_half(r: SpecRecord) -> SpecRecord {
    SpecRecord {
        command_args: r.command_args,
        environment_variables: r.environment_variables,
        platform: r.platform,
        inputs: r.inputs,
        listed_outputs: r.listed_outputs,
        remotable: r.remotable,
        cacheable: r.cacheable,
        timeout_millis: r.timeout_millis,
        mnemonic: r.mnemonic,
        ..empty_spec_record()
    }
}

pub open spec fn fields_first_half(r: SpecRecord) -> Seq<SpecField> {
    rep_bytes_fields(1, r.command_args) + rep_kv_fields(2, r.environment_variables)
        + rep_kv_fields(3, r.platform) + rep_file_fields(4, r.inputs) + rep_bytes_fields(
        5,
        r.listed_outputs,
    ) + opt_bool_field(6, r.remotable) + opt_bool_field(7, r.cacheable) + opt_u64_field(
        8,
        r.timeout_millis,
    ) + opt_bytes_field(9, r.mnemonic)
}

pub open spec fn fields_last_half(r: SpecRecord) -> Seq<SpecField> {
    rep_file_fields(10, r.actual_outputs) + opt_bytes_field(11, r.runner) + opt_bool_field(
        12,
        r.cache_hit,
    ) + opt_bytes_field(13, r.status) + opt_u64_field(14, r.exit_code as u64) + opt_bool_field(
        15,
        r.remote_cacheable,
    ) + opt_bytes_field(16, r.target_label) + opt_digest_field(17, r.digest) + opt_metrics_field(
        18,
        r.metrics,
    )
}

#[verifier::rlimit(100)]
proof fn lemma_fold_record_first_half(r: SpecRecord)
    requires
        wf_record(r),
    ensures
        fold_record(fields_first_half(r), empty_spec_record()) == Some(rec_first_half(r)),
{
    let d0 = empty_spec_record();
    let s1 = rep_bytes_fields(1, r.command_args);
    let s2 = rep_kv_fields(2, r.environment_variables);
    let s3 = rep_kv_fields(3, r.platform);
    let s4 = rep_file_fields(4, r.inputs);
    let s5 = rep_bytes_fields(5, r.listed_outputs);
    let s6 = opt_bool_field(6, r.remotable);
    let s7 = opt_bool_field(7, r.cacheable);
    let s8 = opt_u64_field(8, r.timeout_millis);
    let s9 = opt_bytes_field(9, r.mnemonic);
    let m1 = SpecRecord { command_args: r.command_args, ..d0 };
    let m2 = SpecRecord { environment_variables: r.environment_variables, ..m1 };
    let m3 = SpecRecord { platform: r.platform, ..m2 };
    let m4 = SpecRecord { inputs: r.inputs, ..m3 };
    let m5 = SpecRecord { listed_outputs: r.listed_outputs, ..m4 };
    let m6 = SpecRecord { remotable: r.remotable, ..m5 };
    let m7 = SpecRecord { cacheable: r.cacheable, ..m6 };
    let m8 = SpecRecord { timeout_millis: r.timeout_millis, ..m7 };
    let m9 = SpecRecord { mnemonic: r.mnemonic, ..m8 };
    assert(fold_record(s1, d0) == Some(m1)) by {
        lemma_fold_record_args(r.command_args, d0);
        assert(SpecRecord { command_args: d0.command_args + r.command_args, ..d0 } =~~= m1);
    }
    assert(fold_record(s2, m1) == Some(m2)) by {
        lemma_fold_record_env(r.environment_variables, m1);
        assert(SpecRecord {
            environment_variables: m1.environment_variables + r.environment_variables,
            ..m1
        } =~~= m2);
    }
    assert(fold_record(s3, m2) == Some(m3)) by {
        lemma_fold_record_platform(r.platform, m2);
        assert(SpecRecord { platform: m2.platform + r.platform, ..m2 } =~~= m3);
    }
    assert(fold_record(s4, m3) == Some(m4)) by {
        lemma_fold_record_inputs(r.inputs, m3);
        assert(SpecRecord { inputs: m3.inputs + r.inputs, ..m3 } =~~= m4);
    }
    assert(fold_record(s5, m4) == Some(m5)) by {
        lemma_fold_record_listed(r.listed_outputs, m4);
        assert(SpecRecord { listed_outputs: m4.listed_outputs + r.listed_outputs, ..m4 } =~~= m5);
    }
    assert(fold_record(s6, m5) == Some(m6)) by {
        reveal_with_fuel(fold_record, 3);
        if r.remotable {
            assert(s6.skip(1) =~= Seq::<SpecField>::empty());
        } else {
            assert(m6 =~~= m5);
        }
    }
    assert(fold_record(s7, m6) == Some(m7)) by {
        reveal_with_fuel(fold_record, 3);
        if r.cacheable {
            assert(s7.skip(1) =~= Seq::<SpecField>::empty());
        } else {
            assert(m7 =~~= m6);
        }
    }
    assert(fold_record(s8, m7) == Some(m8)) by {
        reveal_with_fuel(fold_record, 3);
        if r.timeout_millis != 0 {
            assert(s8.skip(1) =~= Seq::<SpecField>::empty());
        } else {
            assert(m8 =~~= m7);
        }
    }
    assert(fold_record(s9, m8) == Some(m9)) by {
        reveal_with_fuel(fold_record, 3);
        if r.mnemonic.len() != 0 {
            assert(s9.skip(1) =~= Seq::<SpecField>::empty());
        } else {
            assert(m9 =~~= m8);
        }
    }
    let p2 = s1 + s2;
    let p3 = p2 + s3;
    let p4 = p3 + s4;
    let p5 = p4 + s5;
    let p6 = p5 + s6;
    let p7 = p6 + s7;
    let p8 = p7 + s8;
    let p9 = p8 + s9;
    lemma_fold_record_append(s1, s2, d0);
    assert(fold_record(p2, d0) == Some(m2));
    lemma_fold_record_append(p2, s3, d0);
    assert(fold_record(p3, d0) == Some(m3));
    lemma_fold_record_append(p3, s4, d0);
    assert(fold_record(p4, d0) == Some(m4));
    lemma_fold_record_append(p4, s5, d0);
    assert(fold_record(p5, d0) == Some(m5));
    lemma_fold_record_append(p5, s6, d0);
    assert(fold_record(p6, d0) == Some(m6));
    lemma_fold_record_append(p6, s7, d0);
    assert(fold_record(p7, d0) == Some(m7));
    lemma_fold_record_append(p7, s8, d0);
    assert(fold_record(p8, d0) == Some(m8));
    lemma_fold_record_append(p8, s9, d0);
    assert(fold_record(p9, d0) == Some(m9));
    assert(m9 =~~= rec_first_half(r));
}

/// The record with its first fourteen fields taken from `r`.
pub open spec fn rec_through_exit_code(r: SpecRecord) -> SpecRecord {
    SpecRecord {
        actual_outputs: r.actual_outputs,
        runner: r.runner,
        cache_hit: r.cache_hit,
        status: r.status,
        exit_code: r.exit_code,
        ..rec_first_half(r)
    }
}

pub open spec fn fields_third_quarter(r: SpecRecord) -> Seq<SpecField> {
    rep_file_fields(10, r.actual_outputs) + opt_bytes_field(11, r.runner) + opt_bool_field(
        12,
        r.cache_hit,
    ) + opt_bytes_field(13, r.status) + opt_u64_field(14, r.exit_code as u64)
}

pub open spec fn fields_fourth_quarter(r: SpecRecord) -> Seq<SpecField> {
    opt_bool_field(15, r.remote_cacheable) + opt_bytes_field(16, r.target_label)
        + opt_digest_field(17, r.digest) + opt_metrics_field(18, r.metrics)
}

/// The canonical field list of a record: every field in number order.
pub open spec fn fields_of_record(r: SpecRecord) -> Seq<SpecField> {
    fields_first_half(r) + fields_third_quarter(r) + fields_fourth_quarter(r)
}

#[verifier::rlimit(100)]
proof fn lemma_fold_record_third_quarter(r: SpecRecord)
    requires
        wf_record(r),
    ensures
        fold_record(fields_third_quarter(r), rec_first_half(r)) == Some(rec_through_exit_code(r)),
{
    let d0 = rec_first_half(r);
    let s10 = rep_file_fields(10, r.actual_outputs);
    let s11 = opt_bytes_field(11, r.runner);
    let s12 = opt_bool_field(12, r.cache_hit);
    let s13 = opt_bytes_field(13, r.status);
    let s14 = opt_u64_field(14, r.exit_code as u64);
    let m10 = SpecRecord { actual_outputs: r.actual_outputs, ..d0 };
    let m11 = SpecRecord { runner: r.runner, ..m10 };
    let m12 = SpecRecord { cache_hit: r.cache_hit, ..m11 };
    let m13 = SpecRecord { status: r.status, ..m12 };
    let m14 = SpecRecord { exit_code: r.exit_code, ..m13 };
    assert(fold_record(s10, d0) == Some(m10)) by {
        lemma_fold_record_outputs(r.actual_outputs, d0);
        assert(SpecRecord { actual_outputs: d0.actual_outputs + r.actual_outputs, ..d0 } =~~= m10);
    }
    assert(fold_record(s11, m10) == Some(m11)) by {
        reveal_with_fuel(fold_record, 3);
        if r.runner.len() != 0 {
            assert(s11.skip(1) =~= Seq::<SpecField>::empty());
        } else {
            assert(m11 =~~= m10);
        }
    }
    assert(fold_record(s12, m11) == Some(m12)) by {
        reveal_with_fuel(fold_record, 3);
        if r.cache_hit {
            assert(s12.skip(1) =~= Seq::<SpecField>::empty());
        } else {
            assert(m12 =~~= m11);
        }
    }
    assert(fold_record(s13, m12) == Some(m13)) by {
        reveal_with_fuel(fold_record, 3);
        if r.status.len() != 0 {
            assert(s13.skip(1) =~= Seq::<SpecField>::empty());
        } else {
            assert(m13 =~~= m12);
        }
    }
    assert(fold_record(s14, m13) == Some(m14)) by {
        reveal_with_fuel(fold_record, 3);
        if r.exit_code != 0 {
            assert(s14.skip(1) =~= Seq::<SpecField>::empty());
        } else {
            assert(m14 =~~= m13);
        }
    }
    let q11 = s10 + s11;
    let q12 = q11 + s12;
    let q13 = q12 + s13;
    let q14 = q13 + s14;
    lemma_fold_record_append(s10, s11, d0);
    assert(fold_record(q11, d0) == Some(m11));
    lemma_fold_record_append(q11, s12, d0);
    assert(fold_record(q12, d0) == Some(m12));
    lemma_fold_record_append(q12, s13, d0);
    assert(fold_record(q13, d0) == Some(m13));
    lemma_fold_record_append(q13, s14, d0);
    assert(fold_record(q14, d0) == Some(m14));
    assert(m14 =~~= rec_through_exit_code(r));
}

#[verifier::rlimit(100)]
proof fn lemma_fold_record_fourth_quarter(r: SpecRecord)
    requires
        wf_record(r),
    ensures
        fold_record(fields_fourth_quarter(r), rec_through_exit_code(r)) == Some(r),
{
    let d0 = rec_through_exit_code(r);
    let s15 = opt_bool_field(15, r.remote_cacheable);
    let s16 = opt_bytes_field(16, r.target_label);
    let s17 = opt_digest_field(17, r.digest);
    let s18 = opt_metrics_field(18, r.metrics);
    let m15 = SpecRecord { remote_cacheable: r.remote_cacheable, ..d0 };
    let m16 = SpecRecord { target_label: r.target_label, ..m15 };
    let m17 = SpecRecord { digest: r.digest, ..m16 };
    assert(fold_record(s15, d0) == Some(m15)) by {
        reveal_with_fuel(fold_record, 3);
        if r.remote_cacheable {
            assert(s15.skip(1) =~= Seq::<SpecField>::empty());
        } else {
            assert(m15 =~~= d0);
        }
    }
    assert(fold_record(s16, m15) == Some(m16)) by {
        reveal_with_fuel(fold_record, 3);
        if r.target_label.len() != 0 {
            assert(s16.skip(1) =~= Seq::<SpecField>::empty());
        } else {
            assert(m16 =~~= m15);
        }
    }
    assert(fold_record(s17, m16) == Some(m17)) by {
        reveal_with_fuel(fold_record, 3);
        match r.digest {
            Some(d) => {
                lemma_digest_rt(d);
                assert(s17.skip(1) =~= Seq::<SpecField>::empty());
                assert(SpecRecord { digest: Some(d), ..m16 } =~~= m17);
            },
            None => {
                assert(m17 =~~= m16);
            },
        }
    }
    assert(fold_record(s18, m17) == Some(r)) by {
        reveal_with_fuel(fold_record, 3);
        match r.metrics {
            Some(m) => {
                lemma_metrics_rt(m);
                assert(s18.skip(1) =~= Seq::<SpecField>::empty());
                assert(SpecRecord { metrics: Some(m), ..m17 } =~~= r);
            },
            None => {
                assert(m17 =~~= r);
            },
        }
    }
    let q16 = s15 + s16;
    let q17 = q16 + s17;
    let q18 = q17 + s18;
    lemma_fold_record_append(s15, s16, d0);
    assert(fold_record(q16, d0) == Some(m16));
    lemma_fold_record_append(q16, s17, d0);
    assert(fold_record(q17, d0) == Some(m17));
    lemma_fold_record_append(q17, s18, d0);
    assert(fold_record(q18, d0) == Some(r));
}

proof fn lemma_wf_fields_first_half(r: SpecRecord)
    requires
        wf_record(r),
    ensures
        wf_fields(fields_first_half(r)),
{
    let s1 = rep_bytes_fields(1, r.command_args);
    let s2 = rep_kv_fields(2, r.environment_variables);
    let s3 = rep_kv_fields(3, r.platform);
    let s4 = rep_file_fields(4, r.inputs);
    let s5 = rep_bytes_fields(5, r.listed_outputs);
    let s6 = opt_bool_field(6, r.remotable);
    let s7 = opt_bool_field(7, r.cacheable);
    let s8 = opt_u64_field(8, r.timeout_millis);
    let s9 = opt_bytes_field(9, r.mnemonic);
    assert(wf_fields(s1)) by {
        lemma_wf_rep_bytes_fields(1, r.command_args);
    }
    assert(wf_fields(s2)) by {
        lemma_wf_rep_kv_fields(2, r.environment_variables);
    }
    assert(wf_fields(s3)) by {
        lemma_wf_rep_kv_fields(3, r.platform);
    }
    assert(wf_fields(s4)) by {
        lemma_wf_rep_file_fields(4, r.inputs);
    }
    assert(wf_fields(s5)) by {
        lemma_wf_rep_bytes_fields(5, r.listed_outputs);
    }
    let p2 = s1 + s2;
    let p3 = p2 + s3;
    let p4 = p3 + s4;
    let p5 = p4 + s5;
    let p6 = p5 + s6;
    let p7 = p6 + s7;
    let p8 = p7 + s8;
    let p9 = p8 + s9;
    lemma_wf_fields_concat(s1, s2);
    lemma_wf_fields_concat(p2, s3);
    lemma_wf_fields_concat(p3, s4);
    lemma_wf_fields_concat(p4, s5);
    lemma_wf_fields_concat(p5, s6);
    lemma_wf_fields_concat(p6, s7);
    lemma_wf_fields_concat(p7, s8);
    lemma_wf_fields_concat(p8, s9);
}

proof fn lemma_wf_fields_third_quarter(r: SpecRecord)
    requires
        wf_record(r),
    ensures
        wf_fields(fields_third_quarter(r)),
{
    let s10 = rep_file_fields(10, r.actual_outputs);
    let s11 = opt_bytes_field(11, r.runner);
    let s12 = opt_bool_field(12, r.cache_hit);
    let s13 = opt_bytes_field(13, r.status);
    let s14 = opt_u64_field(14, r.exit_code as u64);
    assert(wf_fields(s10)) by {
        lemma_wf_rep_file_fields(10, r.actual_outputs);
    }
    let q11 = s10 + s11;
    let q12 = q11 + s12;
    let q13 = q12 + s13;
    lemma_wf_fields_concat(s10, s11);
    lemma_wf_fields_concat(q11, s12);
    lemma_wf_fields_concat(q12, s13);
    lemma_wf_fields_concat(q13, s14);
}

proof fn lemma_wf_fields_fourth_quarter(r: SpecRecord)
    requires
        wf_record(r),
    ensures
        wf_fields(fields_fourth_quarter(r)),
{
    let s15 = opt_bool_field(15, r.remote_cacheable);
    let s16 = opt_bytes_field(16, r.target_label);
    let s17 = opt_digest_field(17, r.digest);
    let s18 = opt_metrics_field(18, r.metrics);
    let q16 = s15 + s16;
    let q17 = q16 + s17;
    lemma_wf_fields_concat(s15, s16);
    lemma_wf_fields_concat(q16, s17);
    lemma_wf_fields_concat(q17, s18);
}

proof fn lemma_wf_fields_of_record(r: SpecRecord)
    requires
        wf_record(r),
    ensures
        wf_fields(fields_of_record(r)),
{
    lemma_wf_fields_first_half(r);
    lemma_wf_fields_third_quarter(r);
    lemma_wf_fields_fourth_quarter(r);
    lemma_wf_fields_concat(fields_first_half(r), fields_third_quarter(r));
    lemma_wf_fields_concat(
        fields_first_half(r) + fields_third_quarter(r),
        fields_fourth_quarter(r),
    );
}

/// Decoding the canonical encoding of a well-formed record yields the
/// record back: the verbose path loses nothing.
#[verifier::rlimit(100)]
pub proof fn lemma_record_rt(r: SpecRecord)
    requires
        wf_record(r),
    ensures
        wf_fields(fields_of_record(r)),
        spec_parse_record(spec_enc_record(r)) == Some(r),
{
    lemma_wf_fields_of_record(r);
    lemma_parse_fields_enc(fields_of_record(r));
    lemma_fold_record_first_half(r);
    lemma_fold_record_third_quarter(r);
    lemma_fold_record_fourth_quarter(r);
    let a = fields_first_half(r);
    let b = fields_third_quarter(r);
    let c = fields_fourth_quarter(r);
    lemma_fold_record_append(a, b, empty_spec_record());
    lemma_fold_record_append(a + b, c, empty_spec_record());
}


/// Decodes a whole buffer as an execution record.
#[verifier::rlimit(100)]
pub fn decode_record(data: &Vec<u8>) -> (r: Option<ExecutionRecord>)
    ensures
        match r {
            Some(rec) => spec_parse_record(data@) == Some(rec@),
            None => spec_parse_record(data@) is None,
        },
{
    proof {
        assert(data@.subrange(0, data@.len() as int) =~= data@);
    }
    let fields = match parse_fields_exec(data, 0, data.len()) {
        None => {
            return None;
        },
        Some(fs) => fs,
    };
    let ghost fv = fields_view(fields@);
    let mut acc = ExecutionRecord::new_empty();
    let mut i: usize = 0;
    proof {
        assert(fv.take(0) =~= Seq::<SpecField>::empty());
    }
    while i < fields.len()
        invariant
            i <= fields.len(),
            fv == fields_view(fields@),
            spec_parse_fields(data@) == Some(fv),
            fold_record(fv.take(i as int), empty_spec_record()) == Some(acc@),
        decreases fields.len() - i,
    {
        let ghost prev = acc@;
        proof {
            reveal_with_fuel(fold_record, 3);
            assert(fv.take(i + 1) =~= fv.take(i as int) + seq![fv[i as int]]);
            lemma_fold_record_append(fv.take(i as int), seq![fv[i as int]], empty_spec_record());
            assert(seq![fv[i as int]].skip(1) =~= Seq::<SpecField>::empty());
            assert(fold_record(fv.take(i + 1), empty_spec_record()) == step_record(
                prev,
                fv[i as int],
            ));
            assert(fv =~= fv.take(i + 1) + fv.skip(i + 1));
            lemma_fold_record_append(fv.take(i + 1), fv.skip(i + 1), empty_spec_record());
            assert(step_record(prev, fv[i as int]) is None ==> fold_record(
                fv,
                empty_spec_record(),
            ) is None);
        }
        let f = &fields[i];
        assert(f@ == fv[i as int]);
        if f.num == 1 {
            match &f.val {
                FieldVal::Bytes(d) => {
                    acc.command_args.push(copy_range(d, 0, d.len()));
                    proof {
                        assert(acc@ =~~= SpecRecord {
                            command_args: prev.command_args.push(d@),
                            ..prev
                        });
                    }
                },
                _ => {
                    return None;
                },
            }
        } else if f.num == 2 {
            match &f.val {
                FieldVal::Bytes(d) => match decode_kv(d) {
                    Some(kv) => {
                        acc.environment_variables.push(kv);
                        proof {
                            assert(acc@ =~~= SpecRecord {
                                environment_variables: prev.environment_variables.push(kv@),
                                ..prev
                            });
                        }
                    },
                    None => {
                        return None;
                    },
                },
                _ => {
                    return None;
                },
            }
        } else if f.num == 3 {
            match &f.val {
                FieldVal::Bytes(d) => match decode_kv(d) {
                    Some(kv) => {
                        acc.platform.push(kv);
                        proof {
                            assert(acc@ =~~= SpecRecord {
                                platform: prev.platform.push(kv@),
                                ..prev
                            });
                        }
                    },
                    None => {
                        return None;
                    },
                },
                _ => {
                    return None;
                },
            }
        } else if f.num == 4 {
            match &f.val {
                FieldVal::Bytes(d) => match decode_file(d) {
                    Some(fe) => {
                        acc.inputs.push(fe);
                        proof {
                            assert(acc@ =~~= SpecRecord { inputs: prev.inputs.push(fe@), ..prev });
                        }
                    },
                    None => {
                        return None;
                    },
                },
                _ => {
                    return None;
                },
            }
        } else if f.num == 5 {
            match &f.val {
                FieldVal::Bytes(d) => {
                    acc.listed_outputs.push(copy_range(d, 0, d.len()));
                    proof {
                        assert(acc@ =~~= SpecRecord {
                            listed_outputs: prev.listed_outputs.push(d@),
                            ..prev
                        });
                    }
                },
                _ => {
                    return None;
                },
            }
        } else if f.num == 6 {
            match &f.val {
                FieldVal::Uint(v) => {
                    acc.remotable = *v != 0;
                    proof {
                        assert(acc@ =~~= SpecRecord { remotable: fv[i as int].val matches SpecFieldVal::Uint(w) && w != 0, ..prev });
                    }
                },
                _ => {
                    return None;
                },
            }
        } else if f.num == 7 {
            match &f.val {
                FieldVal::Uint(v) => {
                    acc.cacheable = *v != 0;
                },
                _ => {
                    return None;
                },
            }
        } else if f.num == 8 {
            match &f.val {
                FieldVal::Uint(v) => {
                    acc.timeout_millis = *v;
                },
                _ => {
                    return None;
                },
            }
        } else if f.num == 9 {
            match &f.val {
                FieldVal::Bytes(d) => {
                    acc.mnemonic = copy_range(d, 0, d.len());
                    proof {
                        assert(acc@ =~~= SpecRecord { mnemonic: d@, ..prev });
                    }
                },
                _ => {
                    return None;
                },
            }
        } else if f.num == 10 {
            match &f.val {
                FieldVal::Bytes(d) => match decode_file(d) {
                    Some(fe) => {
                        acc.actual_outputs.push(fe);
                        proof {
                            assert(acc@ =~~= SpecRecord {
                                actual_outputs: prev.actual_outputs.push(fe@),
                                ..prev
                            });
                        }
                    },
                    None => {
                        return None;
                    },
                },
                _ => {
                    return None;
                },
            }
        } else if f.num == 11 {
            match &f.val {
                FieldVal::Bytes(d) => {
                    acc.runner = copy_range(d, 0, d.len());
                    proof {
                        assert(acc@ =~~= SpecRecord { runner: d@, ..prev });
                    }
                },
                _ => {
                    return None;
                },
            }
        } else if f.num == 12 {
            match &f.val {
                FieldVal::Uint(v) => {
                    acc.cache_hit = *v != 0;
                },
                _ => {
                    return None;
                },
            }
        } else if f.num == 13 {
            match &f.val {
                FieldVal::Bytes(d) => {
                    acc.status = copy_range(d, 0, d.len());
                    proof {
                        assert(acc@ =~~= SpecRecord { status: d@, ..prev });
                    }
                },
                _ => {
                    return None;
                },
            }
        } else if f.num == 14 {
            match &f.val {
                FieldVal::Uint(v) => {
                    if *v <= U32_FIELD_MAX {
                        acc.exit_code = *v as u32;
                    } else {
                        return None;
                    }
                },
                _ => {
                    return None;
                },
            }
        } else if f.num == 15 {
            match &f.val {
                FieldVal::Uint(v) => {
                    acc.remote_cacheable = *v != 0;
                },
                _ => {
                    return None;
                },
            }
        } else if f.num == 16 {
            match &f.val {
                FieldVal::Bytes(d) => {
                    acc.target_label = copy_range(d, 0, d.len());
                    proof {
                        assert(acc@ =~~= SpecRecord { target_label: d@, ..prev });
                    }
                },
                _ => {
                    return None;
                },
            }
        } else if f.num == 17 {
            match &f.val {
                FieldVal::Bytes(d) => match decode_digest(d) {
                    Some(dg) => {
                        acc.digest = Some(dg);
                        proof {
                            assert(acc@ =~~= SpecRecord { digest: Some(dg@), ..prev });
                        }
                    },
                    None => {
                        return None;
                    },
                },
                _ => {
                    return None;
                },
            }
        } else if f.num == 18 {
            match &f.val {
                FieldVal::Bytes(d) => match decode_metrics(d) {
                    Some(mt) => {
                        acc.metrics = Some(mt);
                        proof {
                            assert(acc@ =~~= SpecRecord { metrics: Some(mt@), ..prev });
                        }
                    },
                    None => {
                        return None;
                    },
                },
                _ => {
                    return None;
                },
            }
        }
        proof {
            assert(Some(acc@) == step_record(prev, fv[i as int]));
        }
        i = i + 1;
    }
    proof {
        assert(fv.take(fv.len() as int) =~= fv);
    }
    Some(acc)
}

/// Builds the first nine canonical fields of `rec`.
fn build_fields_first_half(rec: &ExecutionRecord) -> (fields: Vec<Field>)
    ensures
        fields_view(fields@) == fields_first_half(rec@),
        forall|j: int|
            0 <= j < fields@.len() ==> 1 <= (#[trigger] fields@[j]).num <= FIELD_NUM_MAX,
{
    let mut fields: Vec<Field> = Vec::new();
    push_rep_bytes_fields(&mut fields, 1, &rec.command_args);
    push_rep_kv_fields(&mut fields, 2, &rec.environment_variables);
    push_rep_kv_fields(&mut fields, 3, &rec.platform);
    push_rep_file_fields(&mut fields, 4, &rec.inputs);
    push_rep_bytes_fields(&mut fields, 5, &rec.listed_outputs);
    push_opt_bool_field(&mut fields, 6, rec.remotable);
    push_opt_bool_field(&mut fields, 7, rec.cacheable);
    push_opt_u64_field(&mut fields, 8, rec.timeout_millis);
    push_opt_bytes_field(&mut fields, 9, copy_range(&rec.mnemonic, 0, rec.mnemonic.len()));
    proof {
        assert(rec.mnemonic@.subrange(0, rec.mnemonic@.len() as int) =~= rec.mnemonic@);
        assert(fields_view(fields@) =~= fields_first_half(rec@));
        assert forall|j: int| 0 <= j < fields@.len() implies 1 <= (#[trigger] fields@[j]).num
            <= FIELD_NUM_MAX by {
            assert(fields_view(fields@)[j] == fields@[j]@);
            lemma_rep_field_nums_bytes(1, rec@.command_args);
            lemma_rep_field_nums_kv(2, rec@.environment_variables);
            lemma_rep_field_nums_kv(3, rec@.platform);
            lemma_rep_field_nums_file(4, rec@.inputs);
            lemma_rep_field_nums_bytes(5, rec@.listed_outputs);
        }
    }
    fields
}

/// Builds canonical fields ten to fourteen of `rec`.
fn build_fields_third_quarter(rec: &ExecutionRecord) -> (fields: Vec<Field>)
    ensures
        fields_view(fields@) == fields_third_quarter(rec@),
        forall|j: int|
            0 <= j < fields@.len() ==> 1 <= (#[trigger] fields@[j]).num <= FIELD_NUM_MAX,
{
    let mut fields: Vec<Field> = Vec::new();
    push_rep_file_fields(&mut fields, 10, &rec.actual_outputs);
    push_opt_bytes_field(&mut fields, 11, copy_range(&rec.runner, 0, rec.runner.len()));
    push_opt_bool_field(&mut fields, 12, rec.cache_hit);
    push_opt_bytes_field(&mut fields, 13, copy_range(&rec.status, 0, rec.status.len()));
    push_opt_u64_field(&mut fields, 14, rec.exit_code as u64);
    proof {
        assert(rec.runner@.subrange(0, rec.runner@.len() as int) =~= rec.runner@);
        assert(rec.status@.subrange(0, rec.status@.len() as int) =~= rec.status@);
        assert(fields_view(fields@) =~= fields_third_quarter(rec@));
        assert forall|j: int| 0 <= j < fields@.len() implies 1 <= (#[trigger] fields@[j]).num
            <= FIELD_NUM_MAX by {
            assert(fields_view(fields@)[j] == fields@[j]@);
            lemma_rep_field_nums_file(10, rec@.actual_outputs);
        }
    }
    fields
}

/// Builds the last four canonical fields of `rec`.
fn build_fields_fourth_quarter(rec: &ExecutionRecord) -> (fields: Vec<Field>)
    ensures
        fields_view(fields@) == fields_fourth_quarter(rec@),
        forall|j: int|
            0 <= j < fields@.len() ==> 1 <= (#[trigger] fields@[j]).num <= FIELD_NUM_MAX,
{
    let mut fields: Vec<Field> = Vec::new();
    push_opt_bool_field(&mut fields, 15, rec.remote_cacheable);
    push_opt_bytes_field(
        &mut fields,
        16,
        copy_range(&rec.target_label, 0, rec.target_label.len()),
    );
    push_opt_digest_field(&mut fields, 17, &rec.digest);
    push_opt_metrics_field(&mut fields, 18, &rec.metrics);
    proof {
        assert(rec.target_label@.subrange(0, rec.target_label@.len() as int)
            =~= rec.target_label@);
        assert(fields_view(fields@) =~= fields_fourth_quarter(rec@));
        assert forall|j: int| 0 <= j < fields@.len() implies 1 <= (#[trigger] fields@[j]).num
            <= FIELD_NUM_MAX by {
            assert(fields_view(fields@)[j] == fields@[j]@);
        }
    }
    fields
}

/// Writes the canonical payload of `rec` to a fresh vector.
pub fn encode_record(rec: &ExecutionRecord) -> (out: Vec<u8>)
    ensures
        out@ == spec_enc_record(rec@),
{
    let f1 = build_fields_first_half(rec);
    let f2 = build_fields_third_quarter(rec);
    let f3 = build_fields_fourth_quarter(rec);
    let mut out: Vec<u8> = Vec::new();
    write_fields(&mut out, &f1);
    write_fields(&mut out, &f2);
    write_fields(&mut out, &f3);
    proof {
        lemma_enc_fields_concat(fields_first_half(rec@), fields_third_quarter(rec@));
        lemma_enc_fields_concat(
            fields_first_half(rec@) + fields_third_quarter(rec@),
            fields_fourth_quarter(rec@),
        );
        assert(out@ =~= spec_enc_record(rec@));
    }
    out
}

proof fn lemma_rep_field_nums_bytes(num: u32, elems: Seq<Seq<u8>>)
    ensures
        forall|i: int|
            0 <= i < rep_bytes_fields(num, elems).len() ==> (#[trigger] rep_bytes_fields(
                num,
                elems,
            )[i]).num == num,
    decreases elems.len(),
{
    reveal_with_fuel(rep_bytes_fields, 2);
    if elems.len() > 0 {
        lemma_rep_field_nums_bytes(num, elems.skip(1));
    }
}

proof fn lemma_rep_field_nums_kv(num: u32, elems: Seq<SpecKeyValue>)
    ensures
        forall|i: int|
            0 <= i < rep_kv_fields(num, elems).len() ==> (#[trigger] rep_kv_fields(
                num,
                elems,
            )[i]).num == num,
    decreases elems.len(),
{
    reveal_with_fuel(rep_kv_fields, 2);
    if elems.len() > 0 {
        lemma_rep_field_nums_kv(num, elems.skip(1));
    }
}

proof fn lemma_rep_field_nums_file(num: u32, elems: Seq<SpecFileEntry>)
    ensures
        forall|i: int|
            0 <= i < rep_file_fields(num, elems).len() ==> (#[trigger] rep_file_fields(
                num,
                elems,
            )[i]).num == num,
    decreases elems.len(),
{
    reveal_with_fuel(rep_file_fields, 2);
    if elems.len() > 0 {
        lemma_rep_field_nums_file(num, elems.skip(1));
    }
}

} // verus!
