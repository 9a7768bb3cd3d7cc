//! Message readers for the compact trace encoding: interned file and
//! directory entries, spawn stubs whose outputs are dictionary references,
//! and the tagged envelope that carries them.

use vstd::prelude::*;
use crate::model::{
    Digest, SpecDigest, KeyValue, SpecKeyValue, Metrics, SpecMetrics,
};
use crate::wire::{
    Field, FieldVal, SpecField, SpecFieldVal, fields_view, spec_parse_fields, parse_fields_exec,
    copy_range,
};
use crate::codec::{
    U32_FIELD_MAX, spec_parse_digest, decode_digest, spec_parse_kv, decode_kv,
};
use crate::record_codec::{spec_parse_metrics, decode_metrics};

verus! {

/// A reference from a spawn stub to an interned output, by dictionary id.
/// Id zero stands for a value the producer chose not to intern.
#[derive(Clone, Copy, Debug, PartialEq, Eq)]
pub struct OutputRef {
    pub output_id: u32,
}

#[verifier::ext_equal]
pub struct SpecOutputRef {
    pub output_id: u32,
}

impl View for OutputRef {
    type V = SpecOutputRef;

    open spec fn view(&self) -> SpecOutputRef {
        SpecOutputRef { output_id: self.output_id }
    }
}

/// An interned file: path and optional digest.
#[derive(Clone, Debug, PartialEq, Eq)]
pub struct CompactFile {
    pub path: Vec<u8>,
    pub digest: Option<Digest>,
}

#[verifier::ext_equal]
pub struct SpecCompactFile {
    pub path: Seq<u8>,
    pub digest: Option<SpecDigest>,
}

impl View for CompactFile {
    type V = SpecCompactFile;

    open spec fn view(&self) -> SpecCompactFile {
        SpecCompactFile {
            path: self.path@,
            digest: match self.digest {
                Some(d) => Some(d@),
                None => None,
            },
        }
    }
}

/// An interned directory: its path alone; directory content is not
/// individually hashed in this representation.
#[derive(Clone, Debug, PartialEq, Eq)]
pub struct CompactDirectory {
    pub path: Vec<u8>,
}

#[verifier::ext_equal]
pub struct SpecCompactDirectory {
    pub path: Seq<u8>,
}

impl View for CompactDirectory {
    type V = SpecCompactDirectory;

    open spec fn view(&self) -> SpecCompactDirectory {
        SpecCompactDirectory { path: self.path@ }
    }
}

/// A spawn stub of the compact encoding: like an execution record, but its
/// outputs are dictionary references and it carries no reconstructed input
/// or listed-output lists.
#[derive(Clone, Debug, PartialEq, Eq)]
pub struct Spawn {
    pub args: Vec<Vec<u8>>,
    pub env_vars: Vec<KeyValue>,
    pub platform: Vec<KeyValue>,
    pub outputs: Vec<OutputRef>,
    pub remotable: bool,
    pub cacheable: bool,
    pub timeout_millis: u64,
    pub mnemonic: Vec<u8>,
    pub runner: Vec<u8>,
    pub cache_hit: bool,
    pub status: Vec<u8>,
    pub exit_code: u32,
    pub remote_cacheable: bool,
    pub target_label: Vec<u8>,
    pub digest: Option<Digest>,
    pub metrics: Option<Metrics>,
}

#[verifier::ext_equal]
pub struct SpecSpawn {
    pub args: Seq<Seq<u8>>,
    pub env_vars: Seq<SpecKeyValue>,
    pub platform: Seq<SpecKeyValue>,
    pub outputs: Seq<SpecOutputRef>,
    pub remotable: bool,
    pub cacheable: bool,
    pub timeout_millis: u64,
    pub mnemonic: Seq<u8>,
    pub runner: Seq<u8>,
    pub cache_hit: bool,
    pub status: Seq<u8>,
    pub exit_code: u32,
    pub remote_cacheable: bool,
    pub target_label: Seq<u8>,
    pub digest: Option<SpecDigest>,
    pub metrics: Option<SpecMetrics>,
}

impl View for Spawn {
    type V = SpecSpawn;

    open spec fn view(&self) -> SpecSpawn {
        SpecSpawn {
            args: self.args@.map_values(|b: Vec<u8>| b@),
            env_vars: self.env_vars@.map_values(|kv: KeyValue| kv@),
            platform: self.platform@.map_values(|kv: KeyValue| kv@),
            outputs: self.outputs@.map_values(|o: OutputRef| o@),
            remotable: self.remotable,
            cacheable: self.cacheable,
            timeout_millis: self.timeout_millis,
            mnemonic: self.mnemonic@,
            runner: self.runner@,
            cache_hit: self.cache_hit,
            status: self.status@,
            exit_code: self.exit_code,
            remote_cacheable: self.remote_cacheable,
            target_label: self.target_label@,
            digest: match self.digest {
                Some(d) => Some(d@),
                None => None,
            },
            metrics: match self.metrics {
                Some(m) => Some(m@),
                None => None,
            },
        }
    }
}

pub open spec fn empty_spec_spawn() -> SpecSpawn {
    SpecSpawn {
        args: Seq::empty(),
        env_vars: Seq::empty(),
        platform: Seq::empty(),
        outputs: Seq::empty(),
        remotable: false,
        cacheable: false,
        timeout_millis: 0,
        mnemonic: Seq::empty(),
        runner: Seq::empty(),
        cache_hit: false,
        status: Seq::empty(),
        exit_code: 0,
        remote_cacheable: false,
        target_label: Seq::empty(),
        digest: None,
        metrics: None,
    }
}

// ---------------------------------------------------------------------------
// Output references.
// ---------------------------------------------------------------------------

/// Folds one field into an output reference: 1 = output id.
pub open spec fn step_output_ref(acc: SpecOutputRef, f: SpecField) -> Option<SpecOutputRef> {
    if f.num == 1 {
        match f.val {
            SpecFieldVal::Uint(v) => {
                if v <= U32_FIELD_MAX {
                    Some(SpecOutputRef { output_id: v as u32 })
                } else {
                    None
                }
            },
            _ => None,
        }
    } else {
        Some(acc)
    }
}

pub open spec fn fold_output_ref(fs: Seq<SpecField>, acc: SpecOutputRef) -> Option<SpecOutputRef>
    decreases fs.len(),
{
    if fs.len() == 0 {
        Some(acc)
    } else {
        match step_output_ref(acc, fs[0]) {
            None => None,
            Some(a) => fold_output_ref(fs.skip(1), a),
        }
    }
}

pub proof fn lemma_fold_output_ref_append(a: Seq<SpecField>, b: Seq<SpecField>, acc: SpecOutputRef)
    ensures
        fold_output_ref(a + b, acc) == match fold_output_ref(a, acc) {
            None => None::<SpecOutputRef>,
            Some(m) => fold_output_ref(b, m),
        },
    decreases a.len(),
{
    if a.len() == 0 {
        assert(a + b =~= b);
    } else {
        assert((a + b).skip(1) =~= a.skip(1) + b);
        assert((a + b)[0] == a[0]);
        match step_output_ref(acc, a[0]) {
            None => {},
            Some(m) => {
                lemma_fold_output_ref_append(a.skip(1), b, m);
            },
        }
    }
}

pub open spec fn spec_parse_output_ref(s: Seq<u8>) -> Option<SpecOutputRef> {
    match spec_parse_fields(s) {
        None => None,
        Some(fs) => fold_output_ref(fs, SpecOutputRef { output_id: 0 }),
    }
}

/// Decodes a whole buffer as an output reference.
pub fn decode_output_ref(data: &Vec<u8>) -> (r: Option<OutputRef>)
    ensures
        match r {
            Some(o) => spec_parse_output_ref(data@) == Some(o@),
            None => spec_parse_output_ref(data@) is None,
        },
{
    proof {
        assert(data@.subrange(0, data@.len() as int) =~= data@);
    }
    let fields = match parse_fields_exec(data, 0, data.len()) {
        None => {
            return None;
        },
        Some(fs) => fs,
    };
    let ghost fv = fields_view(fields@);
    let mut acc = OutputRef { output_id: 0 };
    let mut i: usize = 0;
    proof {
        assert(fv.take(0) =~= Seq::<SpecField>::empty());
    }
    while i < fields.len()
        invariant
            i <= fields.len(),
            fv == fields_view(fields@),
            spec_parse_fields(data@) == Some(fv),
            fold_output_ref(fv.take(i as int), SpecOutputRef { output_id: 0 }) == Some(acc@),
        decreases fields.len() - i,
    {
        let ghost d0 = SpecOutputRef { output_id: 0 };
        proof {
            reveal_with_fuel(fold_output_ref, 3);
            assert(fv.take(i + 1) =~= fv.take(i as int) + seq![fv[i as int]]);
            lemma_fold_output_ref_append(fv.take(i as int), seq![fv[i as int]], d0);
            assert(seq![fv[i as int]].skip(1) =~= Seq::<SpecField>::empty());
            assert(fold_output_ref(fv.take(i + 1), d0) == step_output_ref(acc@, fv[i as int]));
            assert(fv =~= fv.take(i + 1) + fv.skip(i + 1));
            lemma_fold_output_ref_append(fv.take(i + 1), fv.skip(i + 1), d0);
            assert(step_output_ref(acc@, fv[i as int]) is None ==> fold_output_ref(fv, d0) is None);
        }
        let f = &fields[i];
        assert(f@ == fv[i as int]);
        if f.num == 1 {
            match &f.val {
                FieldVal::Uint(v) => {
                    if *v <= U32_FIELD_MAX {
                        acc.output_id = *v as u32;
                    } else {
                        return None;
                    }
                },
                _ => {
                    return None;
                },
            }
        }
        i = i + 1;
    }
    proof {
        assert(fv.take(fv.len() as int) =~= fv);
    }
    Some(acc)
}

// ---------------------------------------------------------------------------
// Interned files and directories.
// ---------------------------------------------------------------------------

/// Folds one field into an interned file: 1 = path, 2 = digest.
pub open spec fn step_cfile(acc: SpecCompactFile, f: SpecField) -> Option<SpecCompactFile> {
    if f.num == 1 {
        match f.val {
            SpecFieldVal::Bytes(d) => Some(SpecCompactFile { path: d, ..acc }),
            _ => None,
        }
    } else if f.num == 2 {
        match f.val {
            SpecFieldVal::Bytes(d) => match spec_parse_digest(d) {
                Some(dg) => Some(SpecCompactFile { digest: Some(dg), ..acc }),
                None => None,
            },
            _ => None,
        }
    } else {
        Some(acc)
    }
}

pub open spec fn fold_cfile(fs: Seq<SpecField>, acc: SpecCompactFile) -> Option<SpecCompactFile>
    decreases fs.len(),
{
    if fs.len() == 0 {
        Some(acc)
    } else {
        match step_cfile(acc, fs[0]) {
            None => None,
            Some(a) => fold_cfile(fs.skip(1), a),
        }
    }
}

pub proof fn lemma_fold_cfile_append(a: Seq<SpecField>, b: Seq<SpecField>, acc: SpecCompactFile)
    ensures
        fold_cfile(a + b, acc) == match fold_cfile(a, acc) {
            None => None::<SpecCompactFile>,
            Some(m) => fold_cfile(b, m),
        },
    decreases a.len(),
{
    if a.len() == 0 {
        assert(a + b =~= b);
    } else {
        assert((a + b).skip(1) =~= a.skip(1) + b);
        assert((a + b)[0] == a[0]);
        match step_cfile(acc, a[0]) {
            None => {},
            Some(m) => {
                lemma_fold_cfile_append(a.skip(1), b, m);
            },
        }
    }
}

pub open spec fn default_cfile() -> SpecCompactFile {
    SpecCompactFile { path: Seq::empty(), digest: None }
}

pub open spec fn spec_parse_cfile(s: Seq<u8>) -> Option<SpecCompactFile> {
    match spec_parse_fields(s) {
        None => None,
        Some(fs) => fold_cfile(fs, default_cfile()),
    }
}

/// Decodes a whole buffer as an interned file.
pub fn decode_cfile(data: &Vec<u8>) -> (r: Option<CompactFile>)
    ensures
        match r {
            Some(cf) => spec_parse_cfile(data@) == Some(cf@),
            None => spec_parse_cfile(data@) is None,
        },
{
    proof {
        assert(data@.subrange(0, data@.len() as int) =~= data@);
    }
    let fields = match parse_fields_exec(data, 0, data.len()) {
        None => {
            return None;
        },
        Some(fs) => fs,
    };
    let ghost fv = fields_view(fields@);
    let mut acc = CompactFile { path: Vec::new(), digest: None };
    let mut i: usize = 0;
    proof {
        assert(fv.take(0) =~= Seq::<SpecField>::empty());
        assert(acc@ =~= default_cfile());
    }
    while i < fields.len()
        invariant
            i <= fields.len(),
            fv == fields_view(fields@),
            spec_parse_fields(data@) == Some(fv),
            fold_cfile(fv.take(i as int), default_cfile()) == Some(acc@),
        decreases fields.len() - i,
    {
        proof {
            reveal_with_fuel(fold_cfile, 3);
            assert(fv.take(i + 1) =~= fv.take(i as int) + seq![fv[i as int]]);
            lemma_fold_cfile_append(fv.take(i as int), seq![fv[i as int]], default_cfile());
            assert(seq![fv[i as int]].skip(1) =~= Seq::<SpecField>::empty());
            assert(fold_cfile(fv.take(i + 1), default_cfile()) == step_cfile(acc@, fv[i as int]));
            assert(fv =~= fv.take(i + 1) + fv.skip(i + 1));
            lemma_fold_cfile_append(fv.take(i + 1), fv.skip(i + 1), default_cfile());
            assert(step_cfile(acc@, fv[i as int]) is None ==> fold_cfile(
                fv,
                default_cfile(),
            ) is None);
        }
        let f = &fields[i];
        assert(f@ == fv[i as int]);
        if f.num == 1 {
            match &f.val {
                FieldVal::Bytes(d) => {
                    acc.path = copy_range(d, 0, d.len());
                    assert(acc.path@ =~= d@);
                },
                _ => {
                    return None;
                },
            }
        } else if f.num == 2 {
            match &f.val {
                FieldVal::Bytes(d) => match decode_digest(d) {
                    Some(dg) => {
                        acc.digest = Some(dg);
                    },
                    None => {
                        return None;
                    },
                },
                _ => {
                    return None;
                },
            }
        }
        i = i + 1;
    }
    proof {
        assert(fv.take(fv.len() as int) =~= fv);
    }
    Some(acc)
}

/// Folds one field into an interned directory: 1 = path.
pub open spec fn step_cdir(acc: SpecCompactDirectory, f: SpecField) -> Option<
    SpecCompactDirectory,
> {
    if f.num == 1 {
        match f.val {
            SpecFieldVal::Bytes(d) => Some(SpecCompactDirectory { path: d }),
            _ => None,
        }
    } else {
        Some(acc)
    }
}

pub open spec fn fold_cdir(fs: Seq<SpecField>, acc: SpecCompactDirectory) -> Option<
    SpecCompactDirectory,
>
    decreases fs.len(),
{
    if fs.len() == 0 {
        Some(acc)
    } else {
        match step_cdir(acc, fs[0]) {
            None => None,
            Some(a) => fold_cdir(fs.skip(1), a),
        }
    }
}

pub proof fn lemma_fold_cdir_append(a: Seq<SpecField>, b: Seq<SpecField>, acc: SpecCompactDirectory)
    ensures
        fold_cdir(a + b, acc) == match fold_cdir(a, acc) {
            None => None::<SpecCompactDirectory>,
            Some(m) => fold_cdir(b, m),
        },
    decreases a.len(),
{
    if a.len() == 0 {
        assert(a + b =~= b);
    } else {
        assert((a + b).skip(1) =~= a.skip(1) + b);
        assert((a + b)[0] == a[0]);
        match step_cdir(acc, a[0]) {
            None => {},
            Some(m) => {
                lemma_fold_cdir_append(a.skip(1), b, m);
            },
        }
    }
}

pub open spec fn spec_parse_cdir(s: Seq<u8>) -> Option<SpecCompactDirectory> {
    match spec_parse_fields(s) {
        None => None,
        Some(fs) => fold_cdir(fs, SpecCompactDirectory { path: Seq::empty() }),
    }
}

/// Decodes a whole buffer as an interned directory.
pub fn decode_cdir(data: &Vec<u8>) -> (r: Option<CompactDirectory>)
    ensures
        match r {
            Some(cd) => spec_parse_cdir(data@) == Some(cd@),
            None => spec_parse_cdir(data@) is None,
        },
{
    proof {
        assert(data@.subrange(0, data@.len() as int) =~= data@);
    }
    let fields = match parse_fields_exec(data, 0, data.len()) {
        None => {
            return None;
        },
        Some(fs) => fs,
    };
    let ghost fv = fields_view(fields@);
    let ghost d0 = SpecCompactDirectory { path: Seq::<u8>::empty() };
    let mut acc = CompactDirectory { path: Vec::new() };
    let mut i: usize = 0;
    proof {
        assert(fv.take(0) =~= Seq::<SpecField>::empty());
        assert(acc@ =~= d0);
    }
    while i < fields.len()
        invariant
            i <= fields.len(),
            fv == fields_view(fields@),
            spec_parse_fields(data@) == Some(fv),
            fold_cdir(fv.take(i as int), SpecCompactDirectory { path: Seq::<u8>::empty() })
                == Some(acc@),
        decreases fields.len() - i,
    {
        let ghost d0 = SpecCompactDirectory { path: Seq::<u8>::empty() };
        proof {
            reveal_with_fuel(fold_cdir, 3);
            assert(fv.take(i + 1) =~= fv.take(i as int) + seq![fv[i as int]]);
            lemma_fold_cdir_append(fv.take(i as int), seq![fv[i as int]], d0);
            assert(seq![fv[i as int]].skip(1) =~= Seq::<SpecField>::empty());
            assert(fold_cdir(fv.take(i + 1), d0) == step_cdir(acc@, fv[i as int]));
            assert(fv =~= fv.take(i + 1) + fv.skip(i + 1));
            lemma_fold_cdir_append(fv.take(i + 1), fv.skip(i + 1), d0);
            assert(step_cdir(acc@, fv[i as int]) is None ==> fold_cdir(fv, d0) is None);
        }
        let f = &fields[i];
        assert(f@ == fv[i as int]);
        if f.num == 1 {
            match &f.val {
                FieldVal::Bytes(d) => {
                    acc.path = copy_range(d, 0, d.len());
                    assert(acc.path@ =~= d@);
                },
                _ => {
                    return None;
                },
            }
        }
        i = i + 1;
    }
    proof {
        assert(fv.take(fv.len() as int) =~= fv);
    }
    Some(acc)
}


// ---------------------------------------------------------------------------
// Spawn stubs.
// ---------------------------------------------------------------------------

/// Folds one field into a spawn stub. Field numbers: 1 arguments,
/// 2 environment variables, 3 platform properties, 4 output references,
/// 6 remotable, 7 cacheable, 8 timeout in milliseconds, 9 mnemonic,
/// 11 runner, 12 cache hit, 13 status, 14 exit code, 15 remote cacheable,
/// 16 target label, 17 digest, 18 metrics.
pub open spec fn step_spawn(acc: SpecSpawn, f: SpecField) -> Option<SpecSpawn> {
    if f.num == 1 {
        match f.val {
            SpecFieldVal::Bytes(d) => Some(SpecSpawn { args: acc.args.push(d), ..acc }),
            _ => None,
        }
    } else if f.num == 2 {
        match f.val {
            SpecFieldVal::Bytes(d) => match spec_parse_kv(d) {
                Some(kv) => Some(SpecSpawn { env_vars: acc.env_vars.push(kv), ..acc }),
                None => None,
            },
            _ => None,
        }
    } else if f.num == 3 {
        match f.val {
            SpecFieldVal::Bytes(d) => match spec_parse_kv(d) {
                Some(kv) => Some(SpecSpawn { platform: acc.platform.push(kv), ..acc }),
                None => None,
            },
            _ => None,
        }
    } else if f.num == 4 {
        match f.val {
            SpecFieldVal::Bytes(d) => match spec_parse_output_ref(d) {
                Some(o) => Some(SpecSpawn { outputs: acc.outputs.push(o), ..acc }),
                None => None,
            },
            _ => None,
        }
    } else if f.num == 6 {
        match f.val {
            SpecFieldVal::Uint(v) => Some(SpecSpawn { remotable: v != 0, ..acc }),
            _ => None,
        }
    } else if f.num == 7 {
        match f.val {
            SpecFieldVal::Uint(v) => Some(SpecSpawn { cacheable: v != 0, ..acc }),
            _ => None,
        }
    } else if f.num == 8 {
        match f.val {
            SpecFieldVal::Uint(v) => Some(SpecSpawn { timeout_millis: v, ..acc }),
            _ => None,
        }
    } else if f.num == 9 {
        match f.val {
            SpecFieldVal::Bytes(d) => Some(SpecSpawn { mnemonic: d, ..acc }),
            _ => None,
        }
    } else if f.num == 11 {
        match f.val {
            SpecFieldVal::Bytes(d) => Some(SpecSpawn { runner: d, ..acc }),
            _ => None,
        }
    } else if f.num == 12 {
        match f.val {
            SpecFieldVal::Uint(v) => Some(SpecSpawn { cache_hit: v != 0, ..acc }),
            _ => None,
        }
    } else if f.num == 13 {
        match f.val {
            SpecFieldVal::Bytes(d) => Some(SpecSpawn { status: d, ..acc }),
            _ => None,
        }
    } else if f.num == 14 {
        match f.val {
            SpecFieldVal::Uint(v) => {
                if v <= U32_FIELD_MAX {
                    Some(SpecSpawn { exit_code: v as u32, ..acc })
                } else {
                    None
                }
            },
            _ => None,
        }
    } else if f.num == 15 {
        match f.val {
            SpecFieldVal::Uint(v) => Some(SpecSpawn { remote_cacheable: v != 0, ..acc }),
            _ => None,
        }
    } else if f.num == 16 {
        match f.val {
            SpecFieldVal::Bytes(d) => Some(SpecSpawn { target_label: d, ..acc }),
            _ => None,
        }
    } else if f.num == 17 {
        match f.val {
            SpecFieldVal::Bytes(d) => match spec_parse_digest(d) {
                Some(dg) => Some(SpecSpawn { digest: Some(dg), ..acc }),
                None => None,
            },
            _ => None,
        }
    } else if f.num == 18 {
        match f.val {
            SpecFieldVal::Bytes(d) => match spec_parse_metrics(d) {
                Some(mt) => Some(SpecSpawn { metrics: Some(mt), ..acc }),
                None => None,
            },
            _ => None,
        }
    } else {
        Some(acc)
    }
}

pub open spec fn fold_spawn(fs: Seq<SpecField>, acc: SpecSpawn) -> Option<SpecSpawn>
    decreases fs.len(),
{
    if fs.len() == 0 {
        Some(acc)
    } else {
        match step_spawn(acc, fs[0]) {
            None => None,
            Some(a) => fold_spawn(fs.skip(1), a),
        }
    }
}

pub proof fn lemma_fold_spawn_append(a: Seq<SpecField>, b: Seq<SpecField>, acc: SpecSpawn)
    ensures
        fold_spawn(a + b, acc) == match fold_spawn(a, acc) {
            None => None::<SpecSpawn>,
            Some(m) => fold_spawn(b, m),
        },
    decreases a.len(),
{
    if a.len() == 0 {
        assert(a + b =~= b);
    } else {
        assert((a + b).skip(1) =~= a.skip(1) + b);
        assert((a + b)[0] == a[0]);
        match step_spawn(acc, a[0]) {
            None => {},
            Some(m) => {
                lemma_fold_spawn_append(a.skip(1), b, m);
            },
        }
    }
}

pub open spec fn spec_parse_spawn(s: Seq<u8>) -> Option<SpecSpawn> {
    match spec_parse_fields(s) {
        None => None,
        Some(fs) => fold_spawn(fs, empty_spec_spawn()),
    }
}

/// Decodes a whole buffer as a spawn stub.
#[verifier::rlimit(100)]
pub fn decode_spawn(data: &Vec<u8>) -> (r: Option<Spawn>)
    ensures
        match r {
            Some(sp) => spec_parse_spawn(data@) == Some(sp@),
            None => spec_parse_spawn(data@) is None,
        },
{
    proof {
        assert(data@.subrange(0, data@.len() as int) =~= data@);
    }
    let fields = match parse_fields_exec(data, 0, data.len()) {
        None => {
            return None;
        },
        Some(fs) => fs,
    };
    let ghost fv = fields_view(fields@);
    let mut acc = Spawn {
        args: Vec::new(),
        env_vars: Vec::new(),
        platform: Vec::new(),
        outputs: Vec::new(),
        remotable: false,
        cacheable: false,
        timeout_millis: 0,
        mnemonic: Vec::new(),
        runner: Vec::new(),
        cache_hit: false,
        status: Vec::new(),
        exit_code: 0,
        remote_cacheable: false,
        target_label: Vec::new(),
        digest: None,
        metrics: None,
    };
    let mut i: usize = 0;
    proof {
        assert(fv.take(0) =~= Seq::<SpecField>::empty());
        assert(acc@ =~~= empty_spec_spawn());
    }
    while i < fields.len()
        invariant
            i <= fields.len(),
            fv == fields_view(fields@),
            spec_parse_fields(data@) == Some(fv),
            fold_spawn(fv.take(i as int), empty_spec_spawn()) == Some(acc@),
        decreases fields.len() - i,
    {
        let ghost prev = acc@;
        proof {
            reveal_with_fuel(fold_spawn, 3);
            assert(fv.take(i + 1) =~= fv.take(i as int) + seq![fv[i as int]]);
            lemma_fold_spawn_append(fv.take(i as int), seq![fv[i as int]], empty_spec_spawn());
            assert(seq![fv[i as int]].skip(1) =~= Seq::<SpecField>::empty());
            assert(fold_spawn(fv.take(i + 1), empty_spec_spawn()) == step_spawn(
                prev,
                fv[i as int],
            ));
            assert(fv =~= fv.take(i + 1) + fv.skip(i + 1));
            lemma_fold_spawn_append(fv.take(i + 1), fv.skip(i + 1), empty_spec_spawn());
            assert(step_spawn(prev, fv[i as int]) is None ==> fold_spawn(
                fv,
                empty_spec_spawn(),
            ) is None);
        }
        let f = &fields[i];
        assert(f@ == fv[i as int]);
        if f.num == 1 {
            match &f.val {
                FieldVal::Bytes(d) => {
                    acc.args.push(copy_range(d, 0, d.len()));
                    proof {
                        assert(acc@ =~~= SpecSpawn { args: prev.args.push(d@), ..prev });
                    }
                },
                _ => {
                    return None;
                },
            }
        } else if f.num == 2 {
            match &f.val {
                FieldVal::Bytes(d) => match decode_kv(d) {
                    Some(kv) => {
                        acc.env_vars.push(kv);
                        proof {
                            assert(acc@ =~~= SpecSpawn {
                                env_vars: prev.env_vars.push(kv@),
                                ..prev
                            });
                        }
                    },
                    None => {
                        return None;
                    },
                },
                _ => {
                    return None;
                },
            }
        } else if f.num == 3 {
            match &f.val {
                FieldVal::Bytes(d) => match decode_kv(d) {
                    Some(kv) => {
                        acc.platform.push(kv);
                        proof {
                            assert(acc@ =~~= SpecSpawn {
                                platform: prev.platform.push(kv@),
                                ..prev
                            });
                        }
                    },
                    None => {
                        return None;
                    },
                },
                _ => {
                    return None;
                },
            }
        } else if f.num == 4 {
            match &f.val {
                FieldVal::Bytes(d) => match decode_output_ref(d) {
                    Some(o) => {
                        acc.outputs.push(o);
                        proof {
                            assert(acc@ =~~= SpecSpawn {
                                outputs: prev.outputs.push(o@),
                                ..prev
                            });
                        }
                    },
                    None => {
                        return None;
                    },
                },
                _ => {
                    return None;
                },
            }
        } else if f.num == 6 {
            match &f.val {
                FieldVal::Uint(v) => {
                    acc.remotable = *v != 0;
                },
                _ => {
                    return None;
                },
            }
        } else if f.num == 7 {
            match &f.val {
                FieldVal::Uint(v) => {
                    acc.cacheable = *v != 0;
                },
                _ => {
                    return None;
                },
            }
        } else if f.num == 8 {
            match &f.val {
                FieldVal::Uint(v) => {
                    acc.timeout_millis = *v;
                },
                _ => {
                    return None;
                },
            }
        } else if f.num == 9 {
            match &f.val {
                FieldVal::Bytes(d) => {
                    acc.mnemonic = copy_range(d, 0, d.len());
                    proof {
                        assert(acc@ =~~= SpecSpawn { mnemonic: d@, ..prev });
                    }
                },
                _ => {
                    return None;
                },
            }
        } else if f.num == 11 {
            match &f.val {
                FieldVal::Bytes(d) => {
                    acc.runner = copy_range(d, 0, d.len());
                    proof {
                        assert(acc@ =~~= SpecSpawn { runner: d@, ..prev });
                    }
                },
                _ => {
                    return None;
                },
            }
        } else if f.num == 12 {
            match &f.val {
                FieldVal::Uint(v) => {
                    acc.cache_hit = *v != 0;
                },
                _ => {
                    return None;
                },
            }
        } else if f.num == 13 {
            match &f.val {
                FieldVal::Bytes(d) => {
                    acc.status = copy_range(d, 0, d.len());
                    proof {
                        assert(acc@ =~~= SpecSpawn { status: d@, ..prev });
                    }
                },
                _ => {
                    return None;
                },
            }
        } else if f.num == 14 {
            match &f.val {
                FieldVal::Uint(v) => {
                    if *v <= U32_FIELD_MAX {
                        acc.exit_code = *v as u32;
                    } else {
                        return None;
                    }
                },
                _ => {
                    return None;
                },
            }
        } else if f.num == 15 {
            match &f.val {
                FieldVal::Uint(v) => {
                    acc.remote_cacheable = *v != 0;
                },
                _ => {
                    return None;
                },
            }
        } else if f.num == 16 {
            match &f.val {
                FieldVal::Bytes(d) => {
                    acc.target_label = copy_range(d, 0, d.len());
                    proof {
                        assert(acc@ =~~= SpecSpawn { target_label: d@, ..prev });
                    }
                },
                _ => {
                    return None;
                },
            }
        } else if f.num == 17 {
            match &f.val {
                FieldVal::Bytes(d) => match decode_digest(d) {
                    Some(dg) => {
                        acc.digest = Some(dg);
                        proof {
                            assert(acc@ =~~= SpecSpawn { digest: Some(dg@), ..prev });
                        }
                    },
                    None => {
                        return None;
                    },
                },
                _ => {
                    return None;
                },
            }
        } else if f.num == 18 {
            match &f.val {
                FieldVal::Bytes(d) => match decode_metrics(d) {
                    Some(mt) => {
                        acc.metrics = Some(mt);
                        proof {
                            assert(acc@ =~~= SpecSpawn { metrics: Some(mt@), ..prev });
                        }
                    },
                    None => {
                        return None;
                    },
                },
                _ => {
                    return None;
                },
            }
        }
        proof {
            assert(Some(acc@) == step_spawn(prev, fv[i as int]));
        }
        i = i + 1;
    }
    proof {
        assert(fv.take(fv.len() as int) =~= fv);
    }
    Some(acc)
}

// ---------------------------------------------------------------------------
// Tagged envelopes.
// ---------------------------------------------------------------------------

/// What one envelope carries: a spawn stub, an interned file or directory,
/// or something this analysis does not use.
#[derive(Clone, Debug, PartialEq, Eq)]
pub enum EntryPayload {
    Spawn(Spawn),
    File(CompactFile),
    Directory(CompactDirectory),
    Other,
}

pub enum SpecEntryPayload {
    Spawn(SpecSpawn),
    File(SpecCompactFile),
    Directory(SpecCompactDirectory),
    Other,
}

impl View for EntryPayload {
    type V = SpecEntryPayload;

    open spec fn view(&self) -> SpecEntryPayload {
        match self {
            EntryPayload::Spawn(s) => SpecEntryPayload::Spawn(s@),
            EntryPayload::File(f) => SpecEntryPayload::File(f@),
            EntryPayload::Directory(d) => SpecEntryPayload::Directory(d@),
            EntryPayload::Other => SpecEntryPayload::Other,
        }
    }
}

/// One envelope of the compact encoding: a dictionary id and a payload.
#[derive(Clone, Debug, PartialEq, Eq)]
pub struct LogEntry {
    pub id: u32,
    pub payload: EntryPayload,
}

#[verifier::ext_equal]
pub struct SpecLogEntry {
    pub id: u32,
    pub payload: SpecEntryPayload,
}

impl View for LogEntry {
    type V = SpecLogEntry;

    open spec fn view(&self) -> SpecLogEntry {
        SpecLogEntry { id: self.id, payload: self.payload@ }
    }
}

pub open spec fn default_entry() -> SpecLogEntry {
    SpecLogEntry { id: 0, payload: SpecEntryPayload::Other }
}

/// Folds one field into an envelope: 1 = id, 2 = spawn, 3 = file,
/// 4 = directory; of several payload fields the last wins.
pub open spec fn step_entry(acc: SpecLogEntry, f: SpecField) -> Option<SpecLogEntry> {
    if f.num == 1 {
        match f.val {
            SpecFieldVal::Uint(v) => {
                if v <= U32_FIELD_MAX {
                    Some(SpecLogEntry { id: v as u32, ..acc })
                } else {
                    None
                }
            },
            _ => None,
        }
    } else if f.num == 2 {
        match f.val {
            SpecFieldVal::Bytes(d) => match spec_parse_spawn(d) {
                Some(sp) => Some(SpecLogEntry { payload: SpecEntryPayload::Spawn(sp), ..acc }),
                None => None,
            },
            _ => None,
        }
    } else if f.num == 3 {
        match f.val {
            SpecFieldVal::Bytes(d) => match spec_parse_cfile(d) {
                Some(cf) => Some(SpecLogEntry { payload: SpecEntryPayload::File(cf), ..acc }),
                None => None,
            },
            _ => None,
        }
    } else if f.num == 4 {
        match f.val {
            SpecFieldVal::Bytes(d) => match spec_parse_cdir(d) {
                Some(cd) => Some(SpecLogEntry { payload: SpecEntryPayload::Directory(cd), ..acc }),
                None => None,
            },
            _ => None,
        }
    } else {
        Some(acc)
    }
}

pub open spec fn fold_entry(fs: Seq<SpecField>, acc: SpecLogEntry) -> Option<SpecLogEntry>
    decreases fs.len(),
{
    if fs.len() == 0 {
        Some(acc)
    } else {
        match step_entry(acc, fs[0]) {
            None => None,
            Some(a) => fold_entry(fs.skip(1), a),
        }
    }
}

pub proof fn lemma_fold_entry_append(a: Seq<SpecField>, b: Seq<SpecField>, acc: SpecLogEntry)
    ensures
        fold_entry(a + b, acc) == match fold_entry(a, acc) {
            None => None::<SpecLogEntry>,
            Some(m) => fold_entry(b, m),
        },
    decreases a.len(),
{
    if a.len() == 0 {
        assert(a + b =~= b);
    } else {
        assert((a + b).skip(1) =~= a.skip(1) + b);
        assert((a + b)[0] == a[0]);
        match step_entry(acc, a[0]) {
            None => {},
            Some(m) => {
                lemma_fold_entry_append(a.skip(1), b, m);
            },
        }
    }
}

pub open spec fn spec_parse_entry(s: Seq<u8>) -> Option<SpecLogEntry> {
    match spec_parse_fields(s) {
        None => None,
        Some(fs) => fold_entry(fs, default_entry()),
    }
}

/// Decodes a whole buffer as one envelope.
pub fn decode_entry(data: &Vec<u8>) -> (r: Option<LogEntry>)
    ensures
        match r {
            Some(e) => spec_parse_entry(data@) == Some(e@),
            None => spec_parse_entry(data@) is None,
        },
{
    proof {
        assert(data@.subrange(0, data@.len() as int) =~= data@);
    }
    let fields = match parse_fields_exec(data, 0, data.len()) {
        None => {
            return None;
        },
        Some(fs) => fs,
    };
    let ghost fv = fields_view(fields@);
    let mut acc = LogEntry { id: 0, payload: EntryPayload::Other };
    let mut i: usize = 0;
    proof {
        assert(fv.take(0) =~= Seq::<SpecField>::empty());
        assert(acc@ =~~= default_entry());
    }
    while i < fields.len()
        invariant
            i <= fields.len(),
            fv == fields_view(fields@),
            spec_parse_fields(data@) == Some(fv),
            fold_entry(fv.take(i as int), default_entry()) == Some(acc@),
        decreases fields.len() - i,
    {
        let ghost prev = acc@;
        proof {
            reveal_with_fuel(fold_entry, 3);
            assert(fv.take(i + 1) =~= fv.take(i as int) + seq![fv[i as int]]);
            lemma_fold_entry_append(fv.take(i as int), seq![fv[i as int]], default_entry());
            assert(seq![fv[i as int]].skip(1) =~= Seq::<SpecField>::empty());
            assert(fold_entry(fv.take(i + 1), default_entry()) == step_entry(prev, fv[i as int]));
            assert(fv =~= fv.take(i + 1) + fv.skip(i + 1));
            lemma_fold_entry_append(fv.take(i + 1), fv.skip(i + 1), default_entry());
            assert(step_entry(prev, fv[i as int]) is None ==> fold_entry(
                fv,
                default_entry(),
            ) is None);
        }
        let f = &fields[i];
        assert(f@ == fv[i as int]);
        if f.num == 1 {
            match &f.val {
                FieldVal::Uint(v) => {
                    if *v <= U32_FIELD_MAX {
                        acc.id = *v as u32;
                    } else {
                        return None;
                    }
                },
                _ => {
                    return None;
                },
            }
        } else if f.num == 2 {
            match &f.val {
                FieldVal::Bytes(d) => match decode_spawn(d) {
                    Some(sp) => {
                        acc.payload = EntryPayload::Spawn(sp);
                        proof {
                            assert(acc@ =~~= SpecLogEntry {
                                payload: SpecEntryPayload::Spawn(sp@),
                                ..prev
                            });
                        }
                    },
                    None => {
                        return None;
                    },
                },
                _ => {
                    return None;
                },
            }
        } else if f.num == 3 {
            match &f.val {
                FieldVal::Bytes(d) => match decode_cfile(d) {
                    Some(cf) => {
                        acc.payload = EntryPayload::File(cf);
                        proof {
                            assert(acc@ =~~= SpecLogEntry {
                                payload: SpecEntryPayload::File(cf@),
                                ..prev
                            });
                        }
                    },
                    None => {
                        return None;
                    },
                },
                _ => {
                    return None;
                },
            }
        } else if f.num == 4 {
            match &f.val {
                FieldVal::Bytes(d) => match decode_cdir(d) {
                    Some(cd) => {
                        acc.payload = EntryPayload::Directory(cd);
                        proof {
                            assert(acc@ =~~= SpecLogEntry {
                                payload: SpecEntryPayload::Directory(cd@),
                                ..prev
                            });
                        }
                    },
                    None => {
                        return None;
                    },
                },
                _ => {
                    return None;
                },
            }
        }
        proof {
            assert(Some(acc@) == step_entry(prev, fv[i as int]));
        }
        i = i + 1;
    }
    proof {
        assert(fv.take(fv.len() as int) =~= fv);
    }
    Some(acc)
}

} // verus!
