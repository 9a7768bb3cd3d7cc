//! Tagged fields: the unit both trace encodings are built from.
//!
//! A message payload is a sequence of fields. Each field is a varint tag —
//! field number times eight plus a wire kind — followed by a varint value
//! (kind 0), eight bytes (kind 1), a varint byte length and that many
//! bytes (kind 2), or four bytes (kind 5). The messages of this format
//! use only the varint and length-delimited kinds; the fixed-width kinds
//! are carried so that a field with an unrecognised number is skipped
//! whatever its kind. Any other wire kind is malformed.

use vstd::prelude::*;
use crate::varint::{
    spec_enc_varint, spec_dec_varint, lemma_enc_varint_len, lemma_dec_enc_varint,
    lemma_dec_varint_consumed, write_varint, parse_varint, VARINT_MAX_BYTES,
};

verus! {

/// Wire kind of a varint-valued field.
pub const WIRE_UINT: u64 = 0;

/// Wire kind of an eight-byte field.
pub const WIRE_FIXED64: u64 = 1;

/// Wire kind of a length-delimited field.
pub const WIRE_BYTES: u64 = 2;

/// Wire kind of a four-byte field.
pub const WIRE_FIXED32: u64 = 5;

/// Largest admissible field number.
pub const FIELD_NUM_MAX: u32 = 0x1FFF_FFFF;

/// The value carried by one field.
#[derive(Clone, Debug, PartialEq, Eq)]
pub enum FieldVal {
    Uint(u64),
    Fixed64(u64),
    Bytes(Vec<u8>),
    Fixed32(u32),
}

/// One decoded field: a field number and its value.
#[derive(Clone, Debug, PartialEq, Eq)]
pub struct Field {
    pub num: u32,
    pub val: FieldVal,
}

pub enum SpecFieldVal {
    Uint(u64),
    Fixed64(u64),
    Bytes(Seq<u8>),
    Fixed32(u32),
}

#[verifier::ext_equal]
pub struct SpecField {
    pub num: u32,
    pub val: SpecFieldVal,
}

impl View for FieldVal {
    type V = SpecFieldVal;

    open spec fn view(&self) -> SpecFieldVal {
        match self {
            FieldVal::Uint(v) => SpecFieldVal::Uint(*v),
            FieldVal::Fixed64(v) => SpecFieldVal::Fixed64(*v),
            FieldVal::Bytes(b) => SpecFieldVal::Bytes(b@),
            FieldVal::Fixed32(v) => SpecFieldVal::Fixed32(*v),
        }
    }
}

impl View for Field {
    type V = SpecField;

    open spec fn view(&self) -> SpecField {
        SpecField { num: self.num, val: self.val@ }
    }
}

/// The ghost fields that a vector of fields stands for.
pub open spec fn fields_view(fs: Seq<Field>) -> Seq<SpecField> {
    fs.map_values(|f: Field| f@)
}

/// A field this format's messages may carry: an admissible number, a
/// varint or length-delimited kind, and a payload whose length a varint
/// can carry.
pub open spec fn wf_field(f: SpecField) -> bool {
    &&& 1 <= f.num <= FIELD_NUM_MAX
    &&& match f.val {
        SpecFieldVal::Uint(_) => true,
        SpecFieldVal::Bytes(d) => d.len() <= u64::MAX,
        SpecFieldVal::Fixed64(_) => false,
        SpecFieldVal::Fixed32(_) => false,
    }
}

pub open spec fn wf_fields(fs: Seq<SpecField>) -> bool {
    forall|i: int| 0 <= i < fs.len() ==> wf_field(#[trigger] fs[i])
}

/// The eight bytes of a 64-bit value, least significant first.
pub open spec fn le_bytes8(v: u64) -> Seq<u8> {
    seq![
        (v % 0x100) as u8,
        ((v / 0x100) % 0x100) as u8,
        ((v / 0x1_0000) % 0x100) as u8,
        ((v / 0x100_0000) % 0x100) as u8,
        ((v / 0x1_0000_0000) % 0x100) as u8,
        ((v / 0x100_0000_0000) % 0x100) as u8,
        ((v / 0x1_0000_0000_0000) % 0x100) as u8,
        ((v / 0x100_0000_0000_0000) % 0x100) as u8,
    ]
}

/// The four bytes of a 32-bit value, least significant first.
pub open spec fn le_bytes4(v: u32) -> Seq<u8> {
    seq![
        (v % 0x100) as u8,
        ((v / 0x100) % 0x100) as u8,
        ((v / 0x1_0000) % 0x100) as u8,
        ((v / 0x100_0000) % 0x100) as u8,
    ]
}

/// The value of eight little-endian bytes.
pub open spec fn le_value8(s: Seq<u8>, at: int) -> int {
    s[at] + s[at + 1] * 0x100 + s[at + 2] * 0x1_0000 + s[at + 3] * 0x100_0000 + s[at + 4]
        * 0x1_0000_0000 + s[at + 5] * 0x100_0000_0000 + s[at + 6] * 0x1_0000_0000_0000 + s[at
        + 7] * 0x100_0000_0000_0000
}

/// The value of four little-endian bytes.
pub open spec fn le_value4(s: Seq<u8>, at: int) -> int {
    s[at] + s[at + 1] * 0x100 + s[at + 2] * 0x1_0000 + s[at + 3] * 0x100_0000
}

/// The encoding of one field.
pub open spec fn spec_enc_field(f: SpecField) -> Seq<u8> {
    match f.val {
        SpecFieldVal::Uint(v) => spec_enc_varint(((f.num as u64) * 8 + WIRE_UINT) as u64)
            + spec_enc_varint(v),
        SpecFieldVal::Fixed64(v) => spec_enc_varint(((f.num as u64) * 8 + WIRE_FIXED64) as u64)
            + le_bytes8(v),
        SpecFieldVal::Bytes(d) => spec_enc_varint(((f.num as u64) * 8 + WIRE_BYTES) as u64)
            + spec_enc_varint(d.len() as u64) + d,
        SpecFieldVal::Fixed32(v) => spec_enc_varint(((f.num as u64) * 8 + WIRE_FIXED32) as u64)
            + le_bytes4(v),
    }
}

/// The encoding of a sequence of fields, in order.
pub open spec fn spec_enc_fields(fs: Seq<SpecField>) -> Seq<u8>
    decreases fs.len(),
{
    if fs.len() == 0 {
        Seq::empty()
    } else {
        spec_enc_field(fs[0]) + spec_enc_fields(fs.skip(1))
    }
}

/// Field encoding distributes over concatenation.
pub proof fn lemma_enc_fields_concat(a: Seq<SpecField>, b: Seq<SpecField>)
    ensures
        spec_enc_fields(a + b) == spec_enc_fields(a) + spec_enc_fields(b),
    decreases a.len(),
{
    if a.len() == 0 {
        assert(a + b =~= b);
        assert(spec_enc_fields(a) + spec_enc_fields(b) =~= spec_enc_fields(b));
    } else {
        assert((a + b).skip(1) =~= a.skip(1) + b);
        lemma_enc_fields_concat(a.skip(1), b);
        assert(spec_enc_fields(a + b) =~= spec_enc_fields(a) + spec_enc_fields(b));
    }
}

/// Decodes one field from the front of `s`; returns it and the number of
/// bytes consumed.
pub open spec fn spec_parse_field(s: Seq<u8>) -> Option<(SpecField, int)> {
    match spec_dec_varint(s, VARINT_MAX_BYTES as nat) {
        None => None,
        Some((tag, n1)) => {
            let wt = tag % 8;
            let num = tag / 8;
            if num < 1 || num > FIELD_NUM_MAX as u64 {
                None
            } else if wt == WIRE_UINT {
                match spec_dec_varint(s.skip(n1), VARINT_MAX_BYTES as nat) {
                    None => None,
                    Some((v, n2)) => Some(
                        (SpecField { num: num as u32, val: SpecFieldVal::Uint(v) }, n1 + n2),
                    ),
                }
            } else if wt == WIRE_BYTES {
                match spec_dec_varint(s.skip(n1), VARINT_MAX_BYTES as nat) {
                    None => None,
                    Some((len, n2)) => {
                        if len as int <= s.len() - n1 - n2 {
                            Some(
                                (
                                    SpecField {
                                        num: num as u32,
                                        val: SpecFieldVal::Bytes(
                                            s.subrange(n1 + n2, n1 + n2 + len),
                                        ),
                                    },
                                    n1 + n2 + len,
                                ),
                            )
                        } else {
                            None
                        }
                    },
                }
            } else if wt == WIRE_FIXED64 {
                if n1 + 8 <= s.len() {
                    Some(
                        (
                            SpecField {
                                num: num as u32,
                                val: SpecFieldVal::Fixed64(le_value8(s, n1) as u64),
                            },
                            n1 + 8,
                        ),
                    )
                } else {
                    None
                }
            } else if wt == WIRE_FIXED32 {
                if n1 + 4 <= s.len() {
                    Some(
                        (
                            SpecField {
                                num: num as u32,
                                val: SpecFieldVal::Fixed32(le_value4(s, n1) as u32),
                            },
                            n1 + 4,
                        ),
                    )
                } else {
                    None
                }
            } else {
                None
            }
        },
    }
}

/// A successful field decode consumes between one byte and the whole input.
pub proof fn lemma_parse_field_consumed(s: Seq<u8>)
    ensures
        spec_parse_field(s) matches Some((f, n)) ==> 1 <= n <= s.len(),
{
    lemma_dec_varint_consumed(s, VARINT_MAX_BYTES as nat);
    match spec_dec_varint(s, VARINT_MAX_BYTES as nat) {
        Some((tag, n1)) => {
            lemma_dec_varint_consumed(s.skip(n1), VARINT_MAX_BYTES as nat);
        },
        None => {},
    }
}

/// Decodes a whole buffer as a field sequence; the buffer must be consumed
/// exactly.
pub open spec fn spec_parse_fields(s: Seq<u8>) -> Option<Seq<SpecField>>
    decreases s.len(),
{
    if s.len() == 0 {
        Some(Seq::empty())
    } else {
        match spec_parse_field(s) {
            None => None,
            Some((f, n)) => {
                if 1 <= n <= s.len() {
                    match spec_parse_fields(s.skip(n)) {
                        None => None,
                        Some(fs) => Some(seq![f] + fs),
                    }
                } else {
                    None
                }
            },
        }
    }
}

/// Decoding the encoding of one well-formed field, followed by anything,
/// yields the field back and consumes exactly its encoding.
#[verifier::rlimit(100)]
pub proof fn lemma_parse_field_enc(f: SpecField, rest: Seq<u8>)
    requires
        wf_field(f),
    ensures
        spec_parse_field(spec_enc_field(f) + rest) == Some((f, spec_enc_field(f).len() as int)),
{
    let e = spec_enc_field(f);
    let s = e + rest;
    match f.val {
        SpecFieldVal::Fixed64(_) => {
            assert(false);
        },
        SpecFieldVal::Fixed32(_) => {
            assert(false);
        },
        SpecFieldVal::Uint(v) => {
            let tag = ((f.num as u64) * 8 + WIRE_UINT) as u64;
            let et = spec_enc_varint(tag);
            let ev = spec_enc_varint(v);
            assert(s =~= et + (ev + rest));
            lemma_enc_varint_len(tag);
            lemma_dec_enc_varint(tag, ev + rest, VARINT_MAX_BYTES as nat);
            assert(tag % 8 == 0 && tag / 8 == f.num as u64) by {
                assert(tag == 8 * (f.num as u64));
            }
            assert(s.skip(et.len() as int) =~= ev + rest);
            lemma_enc_varint_len(v);
            lemma_dec_enc_varint(v, rest, VARINT_MAX_BYTES as nat);
            assert(e.len() == et.len() + ev.len());
        },
        SpecFieldVal::Bytes(d) => {
            let tag = ((f.num as u64) * 8 + WIRE_BYTES) as u64;
            let et = spec_enc_varint(tag);
            let el = spec_enc_varint(d.len() as u64);
            assert(s =~= et + (el + (d + rest)));
            lemma_enc_varint_len(tag);
            lemma_dec_enc_varint(tag, el + (d + rest), VARINT_MAX_BYTES as nat);
            assert(tag % 8 == 2 && tag / 8 == f.num as u64) by {
                assert(tag == 8 * (f.num as u64) + 2);
            }
            assert(s.skip(et.len() as int) =~= el + (d + rest));
            lemma_enc_varint_len(d.len() as u64);
            lemma_dec_enc_varint(d.len() as u64, d + rest, VARINT_MAX_BYTES as nat);
            let n1 = et.len() as int;
            let n2 = el.len() as int;
            assert(s.subrange(n1 + n2, n1 + n2 + d.len()) =~= d);
            assert(e.len() == n1 + n2 + d.len());
        },
    }
}

/// Decoding the encoding of a well-formed field sequence yields it back.
pub proof fn lemma_parse_fields_enc(fs: Seq<SpecField>)
    requires
        wf_fields(fs),
    ensures
        spec_parse_fields(spec_enc_fields(fs)) == Some(fs),
    decreases fs.len(),
{
    if fs.len() == 0 {
    } else {
        let f = fs[0];
        let e0 = spec_enc_field(f);
        let erest = spec_enc_fields(fs.skip(1));
        let s = spec_enc_fields(fs);
        assert(s =~= e0 + erest);
        lemma_parse_field_enc(f, erest);
        lemma_parse_field_consumed(s);
        assert(s.skip(e0.len() as int) =~= erest);
        assert(wf_fields(fs.skip(1)));
        lemma_parse_fields_enc(fs.skip(1));
        assert(seq![f] + fs.skip(1) =~= fs);
        if e0.len() == s.len() {
        }
    }
}

/// Copies `buf[start .. end]` into a fresh vector.
pub fn copy_range(buf: &Vec<u8>, start: usize, end: usize) -> (r: Vec<u8>)
    requires
        start <= end <= buf.len(),
    ensures
        r@ == buf@.subrange(start as int, end as int),
{
    let mut out: Vec<u8> = Vec::new();
    let mut i = start;
    while i < end
        invariant
            start <= i <= end <= buf.len(),
            out@ == buf@.subrange(start as int, i as int),
        decreases end - i,
    {
        out.push(buf[i]);
        assert(out@ =~= buf@.subrange(start as int, i + 1));
        i = i + 1;
    }
    out
}

/// Decodes one field from `buf` between `pos` and `end`; returns it and the
/// position just past it.
pub fn parse_field_exec(buf: &Vec<u8>, pos: usize, end: usize) -> (r: Option<(Field, usize)>)
    requires
        pos <= end <= buf.len(),
    ensures
        match r {
            Some((f, newpos)) => {
                &&& spec_parse_field(buf@.subrange(pos as int, end as int)) == Some(
                    (f@, newpos - pos),
                )
                &&& pos < newpos <= end
            },
            None => spec_parse_field(buf@.subrange(pos as int, end as int)) is None,
        },
{
    let ghost s = buf@.subrange(pos as int, end as int);
    let (tag, p1) = match parse_varint(buf, pos, end) {
        None => {
            return None;
        },
        Some(x) => x,
    };
    let wt = tag % 8;
    let num64 = tag / 8;
    if num64 < 1 || num64 > FIELD_NUM_MAX as u64 {
        return None;
    }
    let num = num64 as u32;
    assert(s.skip(p1 - pos) =~= buf@.subrange(p1 as int, end as int));
    if wt == WIRE_UINT {
        match parse_varint(buf, p1, end) {
            None => None,
            Some((v, p2)) => Some((Field { num, val: FieldVal::Uint(v) }, p2)),
        }
    } else if wt == WIRE_BYTES {
        match parse_varint(buf, p1, end) {
            None => None,
            Some((len, p2)) => {
                if len <= (end - p2) as u64 {
                    let len_us = len as usize;
                    let data = copy_range(buf, p2, p2 + len_us);
                    proof {
                        let n1 = p1 - pos;
                        let n2 = p2 - p1;
                        assert(s.subrange(n1 + n2, n1 + n2 + len) =~= buf@.subrange(
                            p2 as int,
                            p2 + len,
                        ));
                    }
                    Some((Field { num, val: FieldVal::Bytes(data) }, p2 + len_us))
                } else {
                    None
                }
            },
        }
    } else if wt == WIRE_FIXED64 {
        if end - p1 >= 8 {
            let v: u64 = (buf[p1] as u64) + (buf[p1 + 1] as u64) * 0x100 + (buf[p1 + 2] as u64)
                * 0x1_0000 + (buf[p1 + 3] as u64) * 0x100_0000 + (buf[p1 + 4] as u64)
                * 0x1_0000_0000 + (buf[p1 + 5] as u64) * 0x100_0000_0000 + (buf[p1 + 6] as u64)
                * 0x1_0000_0000_0000 + (buf[p1 + 7] as u64) * 0x100_0000_0000_0000;
            proof {
                let n1 = p1 - pos;
                assert forall|t: int| 0 <= t < 8 implies #[trigger] s[n1 + t] == buf@[p1
                    + t] by {}
                assert(v as int == le_value8(s, n1));
            }
            Some((Field { num, val: FieldVal::Fixed64(v) }, p1 + 8))
        } else {
            None
        }
    } else if wt == WIRE_FIXED32 {
        if end - p1 >= 4 {
            let v: u32 = (buf[p1] as u32) + (buf[p1 + 1] as u32) * 0x100 + (buf[p1 + 2] as u32)
                * 0x1_0000 + (buf[p1 + 3] as u32) * 0x100_0000;
            proof {
                let n1 = p1 - pos;
                assert forall|t: int| 0 <= t < 4 implies #[trigger] s[n1 + t] == buf@[p1
                    + t] by {}
                assert(v as int == le_value4(s, n1));
            }
            Some((Field { num, val: FieldVal::Fixed32(v) }, p1 + 4))
        } else {
            None
        }
    } else {
        None
    }
}

/// Decodes the whole window `buf[start .. end]` as a field sequence.
pub fn parse_fields_exec(buf: &Vec<u8>, start: usize, end: usize) -> (r: Option<Vec<Field>>)
    requires
        start <= end <= buf.len(),
    ensures
        match r {
            Some(fs) => spec_parse_fields(buf@.subrange(start as int, end as int)) == Some(
                fields_view(fs@),
            ),
            None => spec_parse_fields(buf@.subrange(start as int, end as int)) is None,
        },
{
    let ghost full = buf@.subrange(start as int, end as int);
    let mut acc: Vec<Field> = Vec::new();
    let mut pos = start;
    while pos < end
        invariant
            start <= pos <= end <= buf.len(),
            full == buf@.subrange(start as int, end as int),
            spec_parse_fields(buf@.subrange(pos as int, end as int)) matches Some(tail) ==>
                spec_parse_fields(full) == Some(fields_view(acc@) + tail),
            spec_parse_fields(buf@.subrange(pos as int, end as int)) is None ==> spec_parse_fields(
                full,
            ) is None,
        decreases end - pos,
    {
        let ghost window = buf@.subrange(pos as int, end as int);
        match parse_field_exec(buf, pos, end) {
            None => {
                assert(spec_parse_fields(window) is None);
                return None;
            },
            Some((f, newpos)) => {
                proof {
                    lemma_parse_field_consumed(window);
                    assert(window.skip(newpos - pos) =~= buf@.subrange(newpos as int, end as int));
                }
                let ghost old_acc = acc@;
                acc.push(f);
                proof {
                    assert(fields_view(acc@) =~= fields_view(old_acc) + seq![f@]);
                    match spec_parse_fields(buf@.subrange(newpos as int, end as int)) {
                        Some(tail) => {
                            assert(spec_parse_fields(window) == Some(seq![f@] + tail));
                            assert(fields_view(old_acc) + (seq![f@] + tail) =~= fields_view(acc@)
                                + tail);
                        },
                        None => {},
                    }
                }
                pos = newpos;
            },
        }
    }
    proof {
        assert(buf@.subrange(pos as int, end as int) =~= Seq::<u8>::empty());
        assert(spec_parse_fields(buf@.subrange(pos as int, end as int)) == Some(
            Seq::<SpecField>::empty(),
        ));
        assert(fields_view(acc@) + Seq::<SpecField>::empty() =~= fields_view(acc@));
    }
    Some(acc)
}

/// Appends the encoding of one field to `out`.
pub fn write_field(out: &mut Vec<u8>, f: &Field)
    requires
        1 <= f.num <= FIELD_NUM_MAX,
    ensures
        final(out)@ == old(out)@ + spec_enc_field(f@),
{
    match &f.val {
        FieldVal::Uint(v) => {
            write_varint(out, (f.num as u64) * 8 + WIRE_UINT);
            write_varint(out, *v);
            assert(out@ =~= old(out)@ + spec_enc_field(f@));
        },
        FieldVal::Fixed64(v) => {
            write_varint(out, (f.num as u64) * 8 + WIRE_FIXED64);
            let v = *v;
            out.push((v % 0x100) as u8);
            out.push(((v / 0x100) % 0x100) as u8);
            out.push(((v / 0x1_0000) % 0x100) as u8);
            out.push(((v / 0x100_0000) % 0x100) as u8);
            out.push(((v / 0x1_0000_0000) % 0x100) as u8);
            out.push(((v / 0x100_0000_0000) % 0x100) as u8);
            out.push(((v / 0x1_0000_0000_0000) % 0x100) as u8);
            out.push(((v / 0x100_0000_0000_0000) % 0x100) as u8);
            assert(out@ =~= old(out)@ + spec_enc_field(f@));
        },
        FieldVal::Fixed32(v) => {
            write_varint(out, (f.num as u64) * 8 + WIRE_FIXED32);
            let v = *v;
            out.push((v % 0x100) as u8);
            out.push(((v / 0x100) % 0x100) as u8);
            out.push(((v / 0x1_0000) % 0x100) as u8);
            out.push(((v / 0x100_0000) % 0x100) as u8);
            assert(out@ =~= old(out)@ + spec_enc_field(f@));
        },
        FieldVal::Bytes(d) => {
            write_varint(out, (f.num as u64) * 8 + WIRE_BYTES);
            write_varint(out, d.len() as u64);
            let mut i: usize = 0;
            let ghost mid = out@;
            while i < d.len()
                invariant
                    i <= d.len(),
                    out@ == mid + d@.subrange(0, i as int),
                decreases d.len() - i,
            {
                out.push(d[i]);
                assert(out@ =~= mid + d@.subrange(0, i + 1));
                i = i + 1;
            }
            assert(d@.subrange(0, d.len() as int) =~= d@);
            assert(out@ =~= old(out)@ + spec_enc_field(f@));
        },
    }
}

/// Appends the encoding of a field sequence to `out`.
pub fn write_fields(out: &mut Vec<u8>, fs: &Vec<Field>)
    requires
        forall|i: int| 0 <= i < fs@.len() ==> 1 <= (#[trigger] fs@[i]).num <= FIELD_NUM_MAX,
    ensures
        final(out)@ == old(out)@ + spec_enc_fields(fields_view(fs@)),
{
    let mut i: usize = 0;
    while i < fs.len()
        invariant
            i <= fs.len(),
            forall|j: int| 0 <= j < fs@.len() ==> 1 <= (#[trigger] fs@[j]).num <= FIELD_NUM_MAX,
            out@ == old(out)@ + spec_enc_fields(fields_view(fs@.subrange(0, i as int))),
        decreases fs.len() - i,
    {
        write_field(out, &fs[i]);
        proof {
            let a = fields_view(fs@.subrange(0, i as int));
            let b = fields_view(fs@.subrange(0, i + 1));
            assert(b =~= a + seq![fs@[i as int]@]);
            lemma_enc_fields_concat(a, seq![fs@[i as int]@]);
            assert(seq![fs@[i as int]@].skip(1) =~= Seq::<SpecField>::empty());
            assert(spec_enc_fields(seq![fs@[i as int]@]) =~= spec_enc_field(fs@[i as int]@)
                + spec_enc_fields(Seq::<SpecField>::empty()));
            assert(spec_enc_fields(seq![fs@[i as int]@]) =~= spec_enc_field(fs@[i as int]@));
            assert(out@ =~= old(out)@ + spec_enc_fields(b));
        }
        i = i + 1;
    }
    proof {
        assert(fs@.subrange(0, fs@.len() as int) =~= fs@);
    }
}


/// Well-formedness of fields is preserved by concatenation.
pub proof fn lemma_wf_fields_concat(a: Seq<SpecField>, b: Seq<SpecField>)
    requires
        wf_fields(a),
        wf_fields(b),
    ensures
        wf_fields(a + b),
{
    assert forall|i: int| 0 <= i < (a + b).len() implies wf_field(#[trigger] (a + b)[i]) by {
        if i < a.len() {
            assert((a + b)[i] == a[i]);
        } else {
            assert((a + b)[i] == b[i - a.len()]);
        }
    }
}

} // verus!
