//! Message readers and writers for the leaf messages of both trace
//! encodings: time spans, digests, name/value pairs and file entries.
//!
//! Every message is decoded in two steps: the payload is split into tagged
//! fields, then the fields are folded left to right over a default value.
//! A reader skips fields with unknown numbers, rejects a known field of the
//! wrong wire kind, and lets a repeated known field overwrite (scalars) or
//! extend (lists) what came before. The writer emits the canonical form:
//! known fields in number order, defaults omitted.

use vstd::prelude::*;
use crate::model::{
    DurationVal, SpecDurationVal, Digest, SpecDigest, KeyValue, SpecKeyValue, FileEntry,
    SpecFileEntry, swf_duration, NANOS_PER_SEC,
};
use crate::wire::{
    Field, FieldVal, SpecField, SpecFieldVal, fields_view, wf_field, wf_fields, spec_enc_field,
    spec_enc_fields, spec_parse_fields, lemma_parse_fields_enc, lemma_enc_fields_concat,
    lemma_wf_fields_concat, parse_fields_exec, write_fields, copy_range, FIELD_NUM_MAX,
};
use crate::varint::lemma_enc_varint_len;

verus! {

/// Largest value admitted for a 32-bit field.
pub const U32_FIELD_MAX: u64 = 0xFFFF_FFFF;

pub open spec fn default_duration() -> SpecDurationVal {
    SpecDurationVal { seconds: 0, nanos: 0 }
}

pub open spec fn default_digest() -> SpecDigest {
    SpecDigest { hash: Seq::empty(), size_bytes: 0, hash_function_name: Seq::empty() }
}

pub open spec fn default_kv() -> SpecKeyValue {
    SpecKeyValue { name: Seq::empty(), value: Seq::empty() }
}

pub open spec fn default_file() -> SpecFileEntry {
    SpecFileEntry {
        path: Seq::empty(),
        digest: None,
        symlink_target_path: Seq::empty(),
        is_tool: false,
    }
}

// ---------------------------------------------------------------------------
// Optional-field helpers shared by every message writer.
// ---------------------------------------------------------------------------

/// A varint field, omitted when zero.
pub open spec fn opt_u64_field(num: u32, v: u64) -> Seq<SpecField> {
    if v == 0 {
        Seq::empty()
    } else {
        seq![SpecField { num, val: SpecFieldVal::Uint(v) }]
    }
}

/// A flag field, omitted when false.
pub open spec fn opt_bool_field(num: u32, b: bool) -> Seq<SpecField> {
    if b {
        seq![SpecField { num, val: SpecFieldVal::Uint(1) }]
    } else {
        Seq::empty()
    }
}

/// A byte-string field, omitted when empty.
pub open spec fn opt_bytes_field(num: u32, d: Seq<u8>) -> Seq<SpecField> {
    if d.len() == 0 {
        Seq::empty()
    } else {
        seq![SpecField { num, val: SpecFieldVal::Bytes(d) }]
    }
}

/// One byte-string field for each element, in order.
pub open spec fn rep_bytes_fields(num: u32, elems: Seq<Seq<u8>>) -> Seq<SpecField>
    decreases elems.len(),
{
    if elems.len() == 0 {
        Seq::empty()
    } else {
        seq![SpecField { num, val: SpecFieldVal::Bytes(elems[0]) }] + rep_bytes_fields(
            num,
            elems.skip(1),
        )
    }
}

/// Pushes a varint field unless the value is zero.
pub fn push_opt_u64_field(fields: &mut Vec<Field>, num: u32, v: u64)
    requires
        1 <= num <= FIELD_NUM_MAX,
    ensures
        fields_view(final(fields)@) == fields_view(old(fields)@) + opt_u64_field(num, v),
        forall|j: int|
            old(fields)@.len() <= j < final(fields)@.len()
                ==> (#[trigger] final(fields)@[j]).num == num,
{
    if v != 0 {
        fields.push(Field { num, val: FieldVal::Uint(v) });
    }
    assert(fields_view(fields@) =~= fields_view(old(fields)@) + opt_u64_field(num, v));
}

/// Pushes a flag field unless the flag is false.
pub fn push_opt_bool_field(fields: &mut Vec<Field>, num: u32, b: bool)
    requires
        1 <= num <= FIELD_NUM_MAX,
    ensures
        fields_view(final(fields)@) == fields_view(old(fields)@) + opt_bool_field(num, b),
        forall|j: int|
            old(fields)@.len() <= j < final(fields)@.len()
                ==> (#[trigger] final(fields)@[j]).num == num,
{
    if b {
        fields.push(Field { num, val: FieldVal::Uint(1) });
    }
    assert(fields_view(fields@) =~= fields_view(old(fields)@) + opt_bool_field(num, b));
}

/// Pushes a byte-string field unless the string is empty.
pub fn push_opt_bytes_field(fields: &mut Vec<Field>, num: u32, d: Vec<u8>)
    requires
        1 <= num <= FIELD_NUM_MAX,
    ensures
        fields_view(final(fields)@) == fields_view(old(fields)@) + opt_bytes_field(num, d@),
        forall|j: int|
            old(fields)@.len() <= j < final(fields)@.len()
                ==> (#[trigger] final(fields)@[j]).num == num,
{
    if d.len() != 0 {
        fields.push(Field { num, val: FieldVal::Bytes(d) });
    }
    assert(fields_view(fields@) =~= fields_view(old(fields)@) + opt_bytes_field(num, d@));
}

// ---------------------------------------------------------------------------
// Time spans.
// ---------------------------------------------------------------------------

/// Folds one field into a time span: 1 = seconds, 2 = nanos. A nanos
/// value of a full second or more is not a genuine fraction of a second
/// and makes the span — and with it the whole frame — malformed.
pub open spec fn step_duration(acc: SpecDurationVal, f: SpecField) -> Option<SpecDurationVal> {
    if f.num == 1 {
        match f.val {
            SpecFieldVal::Uint(v) => Some(SpecDurationVal { seconds: v, ..acc }),
            _ => None,
        }
    } else if f.num == 2 {
        match f.val {
            SpecFieldVal::Uint(v) => {
                if v < NANOS_PER_SEC as u64 {
                    Some(SpecDurationVal { nanos: v as u32, ..acc })
                } else {
                    None
                }
            },
            _ => None,
        }
    } else {
        Some(acc)
    }
}

pub open spec fn fold_duration(fs: Seq<SpecField>, acc: SpecDurationVal) -> Option<SpecDurationVal>
    decreases fs.len(),
{
    if fs.len() == 0 {
        Some(acc)
    } else {
        match step_duration(acc, fs[0]) {
            None => None,
            Some(a) => fold_duration(fs.skip(1), a),
        }
    }
}

pub proof fn lemma_fold_duration_append(a: Seq<SpecField>, b: Seq<SpecField>, acc: SpecDurationVal)
    ensures
        fold_duration(a + b, acc) == match fold_duration(a, acc) {
            None => None::<SpecDurationVal>,
            Some(m) => fold_duration(b, m),
        },
    decreases a.len(),
{
    if a.len() == 0 {
        assert(a + b =~= b);
    } else {
        assert((a + b).skip(1) =~= a.skip(1) + b);
        assert((a + b)[0] == a[0]);
        match step_duration(acc, a[0]) {
            None => {},
            Some(m) => {
                lemma_fold_duration_append(a.skip(1), b, m);
            },
        }
    }
}

/// The payload of `d`: a sequence of tagged fields.
pub open spec fn spec_parse_duration(s: Seq<u8>) -> Option<SpecDurationVal> {
    match spec_parse_fields(s) {
        None => None,
        Some(fs) => fold_duration(fs, default_duration()),
    }
}

pub open spec fn fields_of_duration(d: SpecDurationVal) -> Seq<SpecField> {
    opt_u64_field(1, d.seconds) + opt_u64_field(2, d.nanos as u64)
}

pub open spec fn spec_enc_duration(d: SpecDurationVal) -> Seq<u8> {
    spec_enc_fields(fields_of_duration(d))
}

pub proof fn lemma_duration_rt(d: SpecDurationVal)
    requires
        swf_duration(d),
    ensures
        wf_fields(fields_of_duration(d)),
        spec_parse_duration(spec_enc_duration(d)) == Some(d),
{
    let fs = fields_of_duration(d);
    let s1 = opt_u64_field(1, d.seconds);
    let s2 = opt_u64_field(2, d.nanos as u64);
    lemma_parse_fields_enc(fs);
    lemma_fold_duration_append(s1, s2, default_duration());
    let mid = SpecDurationVal { seconds: d.seconds, nanos: 0 };
    assert(fold_duration(s1, default_duration()) == Some(mid)) by {
        reveal_with_fuel(fold_duration, 3);
        if d.seconds != 0 {
            assert(s1.skip(1) =~= Seq::<SpecField>::empty());
        }
        assert(mid =~= if d.seconds != 0 {
            SpecDurationVal { seconds: d.seconds, ..default_duration() }
        } else {
            default_duration()
        });
    }
    assert(fold_duration(s2, mid) == Some(d)) by {
        reveal_with_fuel(fold_duration, 3);
        if d.nanos != 0 {
            assert(s2.skip(1) =~= Seq::<SpecField>::empty());
        }
        assert(d =~= if d.nanos != 0 {
            SpecDurationVal { nanos: d.nanos, ..mid }
        } else {
            mid
        });
    }
}

/// Decodes a whole buffer as a time span.
pub fn decode_duration(data: &Vec<u8>) -> (r: Option<DurationVal>)
    ensures
        match r {
            Some(d) => spec_parse_duration(data@) == Some(d@) && swf_duration(d@),
            None => spec_parse_duration(data@) is None,
        },
{
    proof {
        assert(data@.subrange(0, data@.len() as int) =~= data@);
    }
    let fields = match parse_fields_exec(data, 0, data.len()) {
        None => {
            return None;
        },
        Some(fs) => fs,
    };
    let ghost fv = fields_view(fields@);
    let mut acc = DurationVal { seconds: 0, nanos: 0 };
    let mut i: usize = 0;
    proof {
        assert(fv.take(0) =~= Seq::<SpecField>::empty());
    }
    while i < fields.len()
        invariant
            i <= fields.len(),
            fv == fields_view(fields@),
            spec_parse_fields(data@) == Some(fv),
            fold_duration(fv.take(i as int), default_duration()) == Some(acc@),
            swf_duration(acc@),
        decreases fields.len() - i,
    {
        proof {
            reveal_with_fuel(fold_duration, 3);
            assert(fv.take(i + 1) =~= fv.take(i as int) + seq![fv[i as int]]);
            lemma_fold_duration_append(fv.take(i as int), seq![fv[i as int]], default_duration());
            assert(seq![fv[i as int]].skip(1) =~= Seq::<SpecField>::empty());
            assert(fold_duration(fv.take(i + 1), default_duration()) == step_duration(
                acc@,
                fv[i as int],
            ));
            assert(fv =~= fv.take(i + 1) + fv.skip(i + 1));
            lemma_fold_duration_append(fv.take(i + 1), fv.skip(i + 1), default_duration());
            assert(step_duration(acc@, fv[i as int]) is None ==> fold_duration(
                fv,
                default_duration(),
            ) is None);
        }
        let f = &fields[i];
        assert(f@ == fv[i as int]);
        if f.num == 1 {
            match &f.val {
                FieldVal::Uint(v) => {
                    acc.seconds = *v;
                },
                _ => {
                    return None;
                },
            }
        } else if f.num == 2 {
            match &f.val {
                FieldVal::Uint(v) => {
                    if *v < NANOS_PER_SEC as u64 {
                        acc.nanos = *v as u32;
                    } else {
                        return None;
                    }
                },
                _ => {
                    return None;
                },
            }
        }
        i = i + 1;
    }
    proof {
        assert(fv.take(fv.len() as int) =~= fv);
    }
    Some(acc)
}

/// Writes the canonical payload of `d` to a fresh vector.
pub fn encode_duration(d: &DurationVal) -> (out: Vec<u8>)
    ensures
        out@ == spec_enc_duration(d@),
{
    let mut fields: Vec<Field> = Vec::new();
    push_opt_u64_field(&mut fields, 1, d.seconds);
    push_opt_u64_field(&mut fields, 2, d.nanos as u64);
    proof {
        assert(fields_view(fields@) =~= fields_of_duration(d@));
        assert forall|j: int| 0 <= j < fields@.len() implies 1 <= (#[trigger] fields@[j]).num
            <= FIELD_NUM_MAX by {
            assert(fields_view(fields@)[j] == fields@[j]@);
        }
    }
    let mut out: Vec<u8> = Vec::new();
    write_fields(&mut out, &fields);
    assert(out@ =~= spec_enc_duration(d@));
    out
}


// ---------------------------------------------------------------------------
// Digests.
// ---------------------------------------------------------------------------

/// Folds one field into a digest: 1 = hash, 2 = size, 3 = hash function name.
pub open spec fn step_digest(acc: SpecDigest, f: SpecField) -> Option<SpecDigest> {
    if f.num == 1 {
        match f.val {
            SpecFieldVal::Bytes(d) => Some(SpecDigest { hash: d, ..acc }),
            _ => None,
        }
    } else if f.num == 2 {
        match f.val {
            SpecFieldVal::Uint(v) => Some(SpecDigest { size_bytes: v, ..acc }),
            _ => None,
        }
    } else if f.num == 3 {
        match f.val {
            SpecFieldVal::Bytes(d) => Some(SpecDigest { hash_function_name: d, ..acc }),
            _ => None,
        }
    } else {
        Some(acc)
    }
}

pub open spec fn fold_digest(fs: Seq<SpecField>, acc: SpecDigest) -> Option<SpecDigest>
    decreases fs.len(),
{
    if fs.len() == 0 {
        Some(acc)
    } else {
        match step_digest(acc, fs[0]) {
            None => None,
            Some(a) => fold_digest(fs.skip(1), a),
        }
    }
}

pub proof fn lemma_fold_digest_append(a: Seq<SpecField>, b: Seq<SpecField>, acc: SpecDigest)
    ensures
        fold_digest(a + b, acc) == match fold_digest(a, acc) {
            None => None::<SpecDigest>,
            Some(m) => fold_digest(b, m),
        },
    decreases a.len(),
{
    if a.len() == 0 {
        assert(a + b =~= b);
    } else {
        assert((a + b).skip(1) =~= a.skip(1) + b);
        assert((a + b)[0] == a[0]);
        match step_digest(acc, a[0]) {
            None => {},
            Some(m) => {
                lemma_fold_digest_append(a.skip(1), b, m);
            },
        }
    }
}

pub open spec fn spec_parse_digest(s: Seq<u8>) -> Option<SpecDigest> {
    match spec_parse_fields(s) {
        None => None,
        Some(fs) => fold_digest(fs, default_digest()),
    }
}

pub open spec fn fields_of_digest(d: SpecDigest) -> Seq<SpecField> {
    opt_bytes_field(1, d.hash) + opt_u64_field(2, d.size_bytes) + opt_bytes_field(
        3,
        d.hash_function_name,
    )
}

pub open spec fn spec_enc_digest(d: SpecDigest) -> Seq<u8> {
    spec_enc_fields(fields_of_digest(d))
}

/// A digest the writer can represent: byte strings and the whole payload
/// within the length a varint can carry.
pub open spec fn wf_digest(d: SpecDigest) -> bool {
    &&& d.hash.len() <= u64::MAX
    &&& d.hash_function_name.len() <= u64::MAX
    &&& spec_enc_digest(d).len() <= u64::MAX
}

pub proof fn lemma_digest_rt(d: SpecDigest)
    requires
        wf_digest(d),
    ensures
        wf_fields(fields_of_digest(d)),
        spec_parse_digest(spec_enc_digest(d)) == Some(d),
{
    let s1 = opt_bytes_field(1, d.hash);
    let s2 = opt_u64_field(2, d.size_bytes);
    let s3 = opt_bytes_field(3, d.hash_function_name);
    let fs = fields_of_digest(d);
    lemma_parse_fields_enc(fs);
    let m1 = SpecDigest { hash: d.hash, ..default_digest() };
    let m2 = SpecDigest { size_bytes: d.size_bytes, ..m1 };
    assert(fold_digest(s1, default_digest()) == Some(m1)) by {
        reveal_with_fuel(fold_digest, 3);
        if d.hash.len() != 0 {
            assert(s1.skip(1) =~= Seq::<SpecField>::empty());
        } else {
            assert(m1 =~= default_digest());
        }
    }
    assert(fold_digest(s2, m1) == Some(m2)) by {
        reveal_with_fuel(fold_digest, 3);
        if d.size_bytes != 0 {
            assert(s2.skip(1) =~= Seq::<SpecField>::empty());
        } else {
            assert(m2 =~= m1);
        }
    }
    assert(fold_digest(s3, m2) == Some(d)) by {
        reveal_with_fuel(fold_digest, 3);
        if d.hash_function_name.len() != 0 {
            assert(s3.skip(1) =~= Seq::<SpecField>::empty());
            assert(SpecDigest { hash_function_name: d.hash_function_name, ..m2 } =~= d);
        } else {
            assert(m2 =~= d);
        }
    }
    lemma_fold_digest_append(s1 + s2, s3, default_digest());
    lemma_fold_digest_append(s1, s2, default_digest());
}

/// Decodes a whole buffer as a digest.
pub fn decode_digest(data: &Vec<u8>) -> (r: Option<Digest>)
    ensures
        match r {
            Some(d) => spec_parse_digest(data@) == Some(d@),
            None => spec_parse_digest(data@) is None,
        },
{
    proof {
        assert(data@.subrange(0, data@.len() as int) =~= data@);
    }
    let fields = match parse_fields_exec(data, 0, data.len()) {
        None => {
            return None;
        },
        Some(fs) => fs,
    };
    let ghost fv = fields_view(fields@);
    let mut acc = Digest { hash: Vec::new(), size_bytes: 0, hash_function_name: Vec::new() };
    let mut i: usize = 0;
    proof {
        assert(fv.take(0) =~= Seq::<SpecField>::empty());
        assert(acc@ =~= default_digest());
    }
    while i < fields.len()
        invariant
            i <= fields.len(),
            fv == fields_view(fields@),
            spec_parse_fields(data@) == Some(fv),
            fold_digest(fv.take(i as int), default_digest()) == Some(acc@),
        decreases fields.len() - i,
    {
        proof {
            reveal_with_fuel(fold_digest, 3);
            assert(fv.take(i + 1) =~= fv.take(i as int) + seq![fv[i as int]]);
            lemma_fold_digest_append(fv.take(i as int), seq![fv[i as int]], default_digest());
            assert(seq![fv[i as int]].skip(1) =~= Seq::<SpecField>::empty());
            assert(fold_digest(fv.take(i + 1), default_digest()) == step_digest(
                acc@,
                fv[i as int],
            ));
            assert(fv =~= fv.take(i + 1) + fv.skip(i + 1));
            lemma_fold_digest_append(fv.take(i + 1), fv.skip(i + 1), default_digest());
            assert(step_digest(acc@, fv[i as int]) is None ==> fold_digest(
                fv,
                default_digest(),
            ) is None);
        }
        let f = &fields[i];
        assert(f@ == fv[i as int]);
        if f.num == 1 {
            match &f.val {
                FieldVal::Bytes(d) => {
                    acc.hash = copy_range(d, 0, d.len());
                    assert(acc.hash@ =~= d@);
                },
                _ => {
                    return None;
                },
            }
        } else if f.num == 2 {
            match &f.val {
                FieldVal::Uint(v) => {
                    acc.size_bytes = *v;
                },
                _ => {
                    return None;
                },
            }
        } else if f.num == 3 {
            match &f.val {
                FieldVal::Bytes(d) => {
                    acc.hash_function_name = copy_range(d, 0, d.len());
                    assert(acc.hash_function_name@ =~= d@);
                },
                _ => {
                    return None;
                },
            }
        }
        i = i + 1;
    }
    proof {
        assert(fv.take(fv.len() as int) =~= fv);
    }
    Some(acc)
}

/// Writes the canonical payload of `d` to a fresh vector.
pub fn encode_digest(d: &Digest) -> (out: Vec<u8>)
    ensures
        out@ == spec_enc_digest(d@),
{
    let mut fields: Vec<Field> = Vec::new();
    push_opt_bytes_field(&mut fields, 1, copy_range(&d.hash, 0, d.hash.len()));
    push_opt_u64_field(&mut fields, 2, d.size_bytes);
    push_opt_bytes_field(
        &mut fields,
        3,
        copy_range(&d.hash_function_name, 0, d.hash_function_name.len()),
    );
    proof {
        assert(d.hash@.subrange(0, d.hash@.len() as int) =~= d.hash@);
        assert(d.hash_function_name@.subrange(0, d.hash_function_name@.len() as int)
            =~= d.hash_function_name@);
        assert(fields_view(fields@) =~= fields_of_digest(d@));
        assert forall|j: int| 0 <= j < fields@.len() implies 1 <= (#[trigger] fields@[j]).num
            <= FIELD_NUM_MAX by {
            assert(fields_view(fields@)[j] == fields@[j]@);
        }
    }
    let mut out: Vec<u8> = Vec::new();
    write_fields(&mut out, &fields);
    assert(out@ =~= spec_enc_digest(d@));
    out
}


// ---------------------------------------------------------------------------
// Name/value pairs.
// ---------------------------------------------------------------------------

/// Folds one field into a name/value pair: 1 = name, 2 = value.
pub open spec fn step_kv(acc: SpecKeyValue, f: SpecField) -> Option<SpecKeyValue> {
    if f.num == 1 {
        match f.val {
            SpecFieldVal::Bytes(d) => Some(SpecKeyValue { name: d, ..acc }),
            _ => None,
        }
    } else if f.num == 2 {
        match f.val {
            SpecFieldVal::Bytes(d) => Some(SpecKeyValue { value: d, ..acc }),
            _ => None,
        }
    } else {
        Some(acc)
    }
}

pub open spec fn fold_kv(fs: Seq<SpecField>, acc: SpecKeyValue) -> Option<SpecKeyValue>
    decreases fs.len(),
{
    if fs.len() == 0 {
        Some(acc)
    } else {
        match step_kv(acc, fs[0]) {
            None => None,
            Some(a) => fold_kv(fs.skip(1), a),
        }
    }
}

pub proof fn lemma_fold_kv_append(a: Seq<SpecField>, b: Seq<SpecField>, acc: SpecKeyValue)
    ensures
        fold_kv(a + b, acc) == match fold_kv(a, acc) {
            None => None::<SpecKeyValue>,
            Some(m) => fold_kv(b, m),
        },
    decreases a.len(),
{
    if a.len() == 0 {
        assert(a + b =~= b);
    } else {
        assert((a + b).skip(1) =~= a.skip(1) + b);
        assert((a + b)[0] == a[0]);
        match step_kv(acc, a[0]) {
            None => {},
            Some(m) => {
                lemma_fold_kv_append(a.skip(1), b, m);
            },
        }
    }
}

pub open spec fn spec_parse_kv(s: Seq<u8>) -> Option<SpecKeyValue> {
    match spec_parse_fields(s) {
        None => None,
        Some(fs) => fold_kv(fs, default_kv()),
    }
}

pub open spec fn fields_of_kv(kv: SpecKeyValue) -> Seq<SpecField> {
    opt_bytes_field(1, kv.name) + opt_bytes_field(2, kv.value)
}

pub open spec fn spec_enc_kv(kv: SpecKeyValue) -> Seq<u8> {
    spec_enc_fields(fields_of_kv(kv))
}

/// A pair the writer can represent.
pub open spec fn wf_kv(kv: SpecKeyValue) -> bool {
    &&& kv.name.len() <= u64::MAX
    &&& kv.value.len() <= u64::MAX
    &&& spec_enc_kv(kv).len() <= u64::MAX
}

pub proof fn lemma_kv_rt(kv: SpecKeyValue)
    requires
        wf_kv(kv),
    ensures
        wf_fields(fields_of_kv(kv)),
        spec_parse_kv(spec_enc_kv(kv)) == Some(kv),
{
    let s1 = opt_bytes_field(1, kv.name);
    let s2 = opt_bytes_field(2, kv.value);
    let fs = fields_of_kv(kv);
    lemma_parse_fields_enc(fs);
    let m1 = SpecKeyValue { name: kv.name, ..default_kv() };
    assert(fold_kv(s1, default_kv()) == Some(m1)) by {
        reveal_with_fuel(fold_kv, 3);
        if kv.name.len() != 0 {
            assert(s1.skip(1) =~= Seq::<SpecField>::empty());
        } else {
            assert(m1 =~= default_kv());
        }
    }
    assert(fold_kv(s2, m1) == Some(kv)) by {
        reveal_with_fuel(fold_kv, 3);
        if kv.value.len() != 0 {
            assert(s2.skip(1) =~= Seq::<SpecField>::empty());
            assert(SpecKeyValue { value: kv.value, ..m1 } =~= kv);
        } else {
            assert(m1 =~= kv);
        }
    }
    lemma_fold_kv_append(s1, s2, default_kv());
}

/// Decodes a whole buffer as a name/value pair.
pub fn decode_kv(data: &Vec<u8>) -> (r: Option<KeyValue>)
    ensures
        match r {
            Some(kv) => spec_parse_kv(data@) == Some(kv@),
            None => spec_parse_kv(data@) is None,
        },
{
    proof {
        assert(data@.subrange(0, data@.len() as int) =~= data@);
    }
    let fields = match parse_fields_exec(data, 0, data.len()) {
        None => {
            return None;
        },
        Some(fs) => fs,
    };
    let ghost fv = fields_view(fields@);
    let mut acc = KeyValue { name: Vec::new(), value: Vec::new() };
    let mut i: usize = 0;
    proof {
        assert(fv.take(0) =~= Seq::<SpecField>::empty());
        assert(acc@ =~= default_kv());
    }
    while i < fields.len()
        invariant
            i <= fields.len(),
            fv == fields_view(fields@),
            spec_parse_fields(data@) == Some(fv),
            fold_kv(fv.take(i as int), default_kv()) == Some(acc@),
        decreases fields.len() - i,
    {
        proof {
            reveal_with_fuel(fold_kv, 3);
            assert(fv.take(i + 1) =~= fv.take(i as int) + seq![fv[i as int]]);
            lemma_fold_kv_append(fv.take(i as int), seq![fv[i as int]], default_kv());
            assert(seq![fv[i as int]].skip(1) =~= Seq::<SpecField>::empty());
            assert(fold_kv(fv.take(i + 1), default_kv()) == step_kv(acc@, fv[i as int]));
            assert(fv =~= fv.take(i + 1) + fv.skip(i + 1));
            lemma_fold_kv_append(fv.take(i + 1), fv.skip(i + 1), default_kv());
            assert(step_kv(acc@, fv[i as int]) is None ==> fold_kv(fv, default_kv()) is None);
        }
        let f = &fields[i];
        assert(f@ == fv[i as int]);
        if f.num == 1 {
            match &f.val {
                FieldVal::Bytes(d) => {
                    acc.name = copy_range(d, 0, d.len());
                    assert(acc.name@ =~= d@);
                },
                _ => {
                    return None;
                },
            }
        } else if f.num == 2 {
            match &f.val {
                FieldVal::Bytes(d) => {
                    acc.value = copy_range(d, 0, d.len());
                    assert(acc.value@ =~= d@);
                },
                _ => {
                    return None;
                },
            }
        }
        i = i + 1;
    }
    proof {
        assert(fv.take(fv.len() as int) =~= fv);
    }
    Some(acc)
}

/// Writes the canonical payload of `kv` to a fresh vector.
pub fn encode_kv(kv: &KeyValue) -> (out: Vec<u8>)
    ensures
        out@ == spec_enc_kv(kv@),
{
    let mut fields: Vec<Field> = Vec::new();
    push_opt_bytes_field(&mut fields, 1, copy_range(&kv.name, 0, kv.name.len()));
    push_opt_bytes_field(&mut fields, 2, copy_range(&kv.value, 0, kv.value.len()));
    proof {
        assert(kv.name@.subrange(0, kv.name@.len() as int) =~= kv.name@);
        assert(kv.value@.subrange(0, kv.value@.len() as int) =~= kv.value@);
        assert(fields_view(fields@) =~= fields_of_kv(kv@));
        assert forall|j: int| 0 <= j < fields@.len() implies 1 <= (#[trigger] fields@[j]).num
            <= FIELD_NUM_MAX by {
            assert(fields_view(fields@)[j] == fields@[j]@);
        }
    }
    let mut out: Vec<u8> = Vec::new();
    write_fields(&mut out, &fields);
    assert(out@ =~= spec_enc_kv(kv@));
    out
}

// ---------------------------------------------------------------------------
// File entries.
// ---------------------------------------------------------------------------

pub open spec fn view_opt_digest(d: Option<Digest>) -> Option<SpecDigest> {
    match d {
        Some(x) => Some(x@),
        None => None,
    }
}

/// A nested digest field, present exactly when the digest is present.
pub open spec fn opt_digest_field(num: u32, d: Option<SpecDigest>) -> Seq<SpecField> {
    match d {
        None => Seq::empty(),
        Some(x) => seq![SpecField { num, val: SpecFieldVal::Bytes(spec_enc_digest(x)) }],
    }
}

/// Pushes a nested digest field when the digest is present.
pub fn push_opt_digest_field(fields: &mut Vec<Field>, num: u32, d: &Option<Digest>)
    requires
        1 <= num <= FIELD_NUM_MAX,
    ensures
        fields_view(final(fields)@) == fields_view(old(fields)@) + opt_digest_field(
            num,
            view_opt_digest(*d),
        ),
        forall|j: int|
            old(fields)@.len() <= j < final(fields)@.len()
                ==> (#[trigger] final(fields)@[j]).num == num,
{
    match d {
        None => {},
        Some(x) => {
            let payload = encode_digest(x);
            fields.push(Field { num, val: FieldVal::Bytes(payload) });
        },
    }
    assert(fields_view(fields@) =~= fields_view(old(fields)@) + opt_digest_field(
        num,
        view_opt_digest(*d),
    ));
}

/// Folds one field into a file entry: 1 = path, 2 = digest, 3 = symlink
/// target, 4 = tool flag.
pub open spec fn step_file(acc: SpecFileEntry, f: SpecField) -> Option<SpecFileEntry> {
    if f.num == 1 {
        match f.val {
            SpecFieldVal::Bytes(d) => Some(SpecFileEntry { path: d, ..acc }),
            _ => None,
        }
    } else if f.num == 2 {
        match f.val {
            SpecFieldVal::Bytes(d) => match spec_parse_digest(d) {
                Some(dg) => Some(SpecFileEntry { digest: Some(dg), ..acc }),
                None => None,
            },
            _ => None,
        }
    } else if f.num == 3 {
        match f.val {
            SpecFieldVal::Bytes(d) => Some(SpecFileEntry { symlink_target_path: d, ..acc }),
            _ => None,
        }
    } else if f.num == 4 {
        match f.val {
            SpecFieldVal::Uint(v) => Some(SpecFileEntry { is_tool: v != 0, ..acc }),
            _ => None,
        }
    } else {
        Some(acc)
    }
}

pub open spec fn fold_file(fs: Seq<SpecField>, acc: SpecFileEntry) -> Option<SpecFileEntry>
    decreases fs.len(),
{
    if fs.len() == 0 {
        Some(acc)
    } else {
        match step_file(acc, fs[0]) {
            None => None,
            Some(a) => fold_file(fs.skip(1), a),
        }
    }
}

pub proof fn lemma_fold_file_append(a: Seq<SpecField>, b: Seq<SpecField>, acc: SpecFileEntry)
    ensures
        fold_file(a + b, acc) == match fold_file(a, acc) {
            None => None::<SpecFileEntry>,
            Some(m) => fold_file(b, m),
        },
    decreases a.len(),
{
    if a.len() == 0 {
        assert(a + b =~= b);
    } else {
        assert((a + b).skip(1) =~= a.skip(1) + b);
        assert((a + b)[0] == a[0]);
        match step_file(acc, a[0]) {
            None => {},
            Some(m) => {
                lemma_fold_file_append(a.skip(1), b, m);
            },
        }
    }
}

pub open spec fn spec_parse_file(s: Seq<u8>) -> Option<SpecFileEntry> {
    match spec_parse_fields(s) {
        None => None,
        Some(fs) => fold_file(fs, default_file()),
    }
}

pub open spec fn fields_of_file(f: SpecFileEntry) -> Seq<SpecField> {
    opt_bytes_field(1, f.path) + opt_digest_field(2, f.digest) + opt_bytes_field(
        3,
        f.symlink_target_path,
    ) + opt_bool_field(4, f.is_tool)
}

pub open spec fn spec_enc_file(f: SpecFileEntry) -> Seq<u8> {
    spec_enc_fields(fields_of_file(f))
}

/// A file entry the writer can represent.
pub open spec fn wf_file(f: SpecFileEntry) -> bool {
    &&& f.path.len() <= u64::MAX
    &&& f.symlink_target_path.len() <= u64::MAX
    &&& match f.digest {
        Some(d) => wf_digest(d),
        None => true,
    }
    &&& spec_enc_file(f).len() <= u64::MAX
}

pub proof fn lemma_file_rt(f: SpecFileEntry)
    requires
        wf_file(f),
    ensures
        wf_fields(fields_of_file(f)),
        spec_parse_file(spec_enc_file(f)) == Some(f),
{
    let s1 = opt_bytes_field(1, f.path);
    let s2 = opt_digest_field(2, f.digest);
    let s3 = opt_bytes_field(3, f.symlink_target_path);
    let s4 = opt_bool_field(4, f.is_tool);
    let fs = fields_of_file(f);
    match f.digest {
        Some(d) => {
            lemma_digest_rt(d);
        },
        None => {},
    }
    lemma_parse_fields_enc(fs);
    let m1 = SpecFileEntry { path: f.path, ..default_file() };
    let m2 = SpecFileEntry { digest: f.digest, ..m1 };
    let m3 = SpecFileEntry { symlink_target_path: f.symlink_target_path, ..m2 };
    assert(fold_file(s1, default_file()) == Some(m1)) by {
        reveal_with_fuel(fold_file, 3);
        if f.path.len() != 0 {
            assert(s1.skip(1) =~= Seq::<SpecField>::empty());
        } else {
            assert(m1 =~= default_file());
        }
    }
    assert(fold_file(s2, m1) == Some(m2)) by {
        reveal_with_fuel(fold_file, 3);
        match f.digest {
            Some(d) => {
                assert(s2.skip(1) =~= Seq::<SpecField>::empty());
            },
            None => {
                assert(m2 =~= m1);
            },
        }
    }
    assert(fold_file(s3, m2) == Some(m3)) by {
        reveal_with_fuel(fold_file, 3);
        if f.symlink_target_path.len() != 0 {
            assert(s3.skip(1) =~= Seq::<SpecField>::empty());
        } else {
            assert(m3 =~= m2);
        }
    }
    assert(fold_file(s4, m3) == Some(f)) by {
        reveal_with_fuel(fold_file, 3);
        if f.is_tool {
            assert(s4.skip(1) =~= Seq::<SpecField>::empty());
            assert(SpecFileEntry { is_tool: true, ..m3 } =~= f);
        } else {
            assert(m3 =~= f);
        }
    }
    lemma_fold_file_append(s1 + s2 + s3, s4, default_file());
    lemma_fold_file_append(s1 + s2, s3, default_file());
    lemma_fold_file_append(s1, s2, default_file());
}

/// Decodes a whole buffer as a file entry.
pub fn decode_file(data: &Vec<u8>) -> (r: Option<FileEntry>)
    ensures
        match r {
            Some(f) => spec_parse_file(data@) == Some(f@),
            None => spec_parse_file(data@) is None,
        },
{
    proof {
        assert(data@.subrange(0, data@.len() as int) =~= data@);
    }
    let fields = match parse_fields_exec(data, 0, data.len()) {
        None => {
            return None;
        },
        Some(fs) => fs,
    };
    let ghost fv = fields_view(fields@);
    let mut acc = FileEntry {
        path: Vec::new(),
        digest: None,
        symlink_target_path: Vec::new(),
        is_tool: false,
    };
    let mut i: usize = 0;
    proof {
        assert(fv.take(0) =~= Seq::<SpecField>::empty());
        assert(acc@ =~= default_file());
    }
    while i < fields.len()
        invariant
            i <= fields.len(),
            fv == fields_view(fields@),
            spec_parse_fields(data@) == Some(fv),
            fold_file(fv.take(i as int), default_file()) == Some(acc@),
        decreases fields.len() - i,
    {
        proof {
            reveal_with_fuel(fold_file, 3);
            assert(fv.take(i + 1) =~= fv.take(i as int) + seq![fv[i as int]]);
            lemma_fold_file_append(fv.take(i as int), seq![fv[i as int]], default_file());
            assert(seq![fv[i as int]].skip(1) =~= Seq::<SpecField>::empty());
            assert(fold_file(fv.take(i + 1), default_file()) == step_file(acc@, fv[i as int]));
            assert(fv =~= fv.take(i + 1) + fv.skip(i + 1));
            lemma_fold_file_append(fv.take(i + 1), fv.skip(i + 1), default_file());
            assert(step_file(acc@, fv[i as int]) is None ==> fold_file(
                fv,
                default_file(),
            ) is None);
        }
        let f = &fields[i];
        assert(f@ == fv[i as int]);
        if f.num == 1 {
            match &f.val {
                FieldVal::Bytes(d) => {
                    acc.path = copy_range(d, 0, d.len());
                    assert(acc.path@ =~= d@);
                },
                _ => {
                    return None;
                },
            }
        } else if f.num == 2 {
            match &f.val {
                FieldVal::Bytes(d) => {
                    match decode_digest(d) {
                        Some(dg) => {
                            acc.digest = Some(dg);
                        },
                        None => {
                            return None;
                        },
                    }
                },
                _ => {
                    return None;
                },
            }
        } else if f.num == 3 {
            match &f.val {
                FieldVal::Bytes(d) => {
                    acc.symlink_target_path = copy_range(d, 0, d.len());
                    assert(acc.symlink_target_path@ =~= d@);
                },
                _ => {
                    return None;
                },
            }
        } else if f.num == 4 {
            match &f.val {
                FieldVal::Uint(v) => {
                    acc.is_tool = *v != 0;
                },
                _ => {
                    return None;
                },
            }
        }
        i = i + 1;
    }
    proof {
        assert(fv.take(fv.len() as int) =~= fv);
    }
    Some(acc)
}

/// Writes the canonical payload of `f` to a fresh vector.
pub fn encode_file(f: &FileEntry) -> (out: Vec<u8>)
    ensures
        out@ == spec_enc_file(f@),
{
    let mut fields: Vec<Field> = Vec::new();
    push_opt_bytes_field(&mut fields, 1, copy_range(&f.path, 0, f.path.len()));
    push_opt_digest_field(&mut fields, 2, &f.digest);
    push_opt_bytes_field(
        &mut fields,
        3,
        copy_range(&f.symlink_target_path, 0, f.symlink_target_path.len()),
    );
    push_opt_bool_field(&mut fields, 4, f.is_tool);
    proof {
        assert(f.path@.subrange(0, f.path@.len() as int) =~= f.path@);
        assert(f.symlink_target_path@.subrange(0, f.symlink_target_path@.len() as int)
            =~= f.symlink_target_path@);
        assert(fields_view(fields@) =~= fields_of_file(f@));
        assert forall|j: int| 0 <= j < fields@.len() implies 1 <= (#[trigger] fields@[j]).num
            <= FIELD_NUM_MAX by {
            assert(fields_view(fields@)[j] == fields@[j]@);
        }
    }
    let mut out: Vec<u8> = Vec::new();
    write_fields(&mut out, &fields);
    assert(out@ =~= spec_enc_file(f@));
    out
}


/// A time span's payload is a handful of bytes.
pub proof fn lemma_enc_duration_len(d: SpecDurationVal)
    ensures
        spec_enc_duration(d).len() <= 44,
{
    let s1 = opt_u64_field(1, d.seconds);
    let s2 = opt_u64_field(2, d.nanos as u64);
    lemma_enc_fields_concat(s1, s2);
    assert(spec_enc_fields(s1).len() <= 20) by {
        reveal_with_fuel(spec_enc_fields, 3);
        if d.seconds != 0 {
            assert(s1.skip(1) =~= Seq::<SpecField>::empty());
            lemma_enc_varint_len(8);
            lemma_enc_varint_len(d.seconds);
        }
    }
    assert(spec_enc_fields(s2).len() <= 20) by {
        reveal_with_fuel(spec_enc_fields, 3);
        if d.nanos != 0 {
            assert(s2.skip(1) =~= Seq::<SpecField>::empty());
            lemma_enc_varint_len(16);
            lemma_enc_varint_len(d.nanos as u64);
        }
    }
}

} // verus!
