//! The compact trace encoding: a stream of length-delimited envelopes
//! carrying interned file and directory entries and spawn stubs. The
//! reconstructor runs one forward pass: it populates a dictionary keyed by
//! small positive ids — id zero is a sentinel for "not interned" and is
//! never stored — and resolves each spawn's output references against it,
//! silently dropping references the dictionary does not hold.

use vstd::prelude::*;
use std::collections::HashMap;
use crate::model::{
    ExecutionRecord, SpecRecord, SpecFileEntry, FileEntry, Digest, DecodeError, DecodeCause,
    records_view,
};
use crate::varint::{
    spec_dec_varint, lemma_dec_varint_consumed, parse_varint, VARINT_MAX_BYTES,
};
use crate::wire::copy_range;
use crate::compact_codec::{
    Spawn, SpecSpawn, CompactFile, SpecCompactFile, CompactDirectory, SpecCompactDirectory,
    LogEntry, SpecLogEntry, EntryPayload, SpecEntryPayload, spec_parse_entry, decode_entry,
};

verus! {

broadcast use vstd::std_specs::hash::group_hash_axioms;

/// A dictionary entry: an interned file or directory.
#[derive(Clone, Debug, PartialEq, Eq)]
pub enum DictEntry {
    File(CompactFile),
    Directory(CompactDirectory),
}

pub enum SpecDictEntry {
    File(SpecCompactFile),
    Directory(SpecCompactDirectory),
}

impl View for DictEntry {
    type V = SpecDictEntry;

    open spec fn view(&self) -> SpecDictEntry {
        match self {
            DictEntry::File(f) => SpecDictEntry::File(f@),
            DictEntry::Directory(d) => SpecDictEntry::Directory(d@),
        }
    }
}

/// The ghost dictionary that a hash table of entries stands for.
pub open spec fn dict_view(d: Map<u32, DictEntry>) -> Map<u32, SpecDictEntry> {
    d.map_values(|e: DictEntry| e@)
}

/// The file entry that an interned file surfaces as: digest preserved.
pub open spec fn file_entry_of_cfile(f: SpecCompactFile) -> SpecFileEntry {
    SpecFileEntry {
        path: f.path,
        digest: f.digest,
        symlink_target_path: Seq::empty(),
        is_tool: false,
    }
}

/// The file entry that an interned directory surfaces as: digest absent.
pub open spec fn file_entry_of_cdir(d: SpecCompactDirectory) -> SpecFileEntry {
    SpecFileEntry {
        path: d.path,
        digest: None,
        symlink_target_path: Seq::empty(),
        is_tool: false,
    }
}

/// What one output reference contributes: the dictionary entry it names,
/// or nothing when the dictionary does not hold the id.
pub open spec fn resolve_one(r: crate::compact_codec::SpecOutputRef, dict: Map<u32, SpecDictEntry>)
    -> Seq<SpecFileEntry> {
    if dict.contains_key(r.output_id) {
        match dict[r.output_id] {
            SpecDictEntry::File(f) => seq![file_entry_of_cfile(f)],
            SpecDictEntry::Directory(d) => seq![file_entry_of_cdir(d)],
        }
    } else {
        Seq::empty()
    }
}

/// Resolves a list of output references, in order, dropping unknown ids.
pub open spec fn spec_resolve_outputs(
    refs: Seq<crate::compact_codec::SpecOutputRef>,
    dict: Map<u32, SpecDictEntry>,
) -> Seq<SpecFileEntry>
    decreases refs.len(),
{
    if refs.len() == 0 {
        Seq::empty()
    } else {
        resolve_one(refs[0], dict) + spec_resolve_outputs(refs.skip(1), dict)
    }
}

/// The record a spawn stub reconstructs to under a dictionary: outputs
/// resolved, inputs and listed outputs left empty, all other fields
/// carried over.
pub open spec fn spec_reconstruct(s: SpecSpawn, dict: Map<u32, SpecDictEntry>) -> SpecRecord {
    SpecRecord {
        command_args: s.args,
        environment_variables: s.env_vars,
        platform: s.platform,
        inputs: Seq::empty(),
        listed_outputs: Seq::empty(),
        remotable: s.remotable,
        cacheable: s.cacheable,
        timeout_millis: s.timeout_millis,
        mnemonic: s.mnemonic,
        actual_outputs: spec_resolve_outputs(s.outputs, dict),
        runner: s.runner,
        cache_hit: s.cache_hit,
        status: s.status,
        exit_code: s.exit_code,
        remote_cacheable: s.remote_cacheable,
        target_label: s.target_label,
        digest: s.digest,
        metrics: s.metrics,
    }
}

/// Copies a digest.
fn clone_digest(d: &Digest) -> (r: Digest)
    ensures
        r@ == d@,
{
    let r = Digest {
        hash: copy_range(&d.hash, 0, d.hash.len()),
        size_bytes: d.size_bytes,
        hash_function_name: copy_range(&d.hash_function_name, 0, d.hash_function_name.len()),
    };
    proof {
        assert(d.hash@.subrange(0, d.hash@.len() as int) =~= d.hash@);
        assert(d.hash_function_name@.subrange(0, d.hash_function_name@.len() as int)
            =~= d.hash_function_name@);
        assert(r@ =~= d@);
    }
    r
}

/// Extending the reference prefix by one appends its resolution.
proof fn lemma_resolve_take_one(
    refs: Seq<crate::compact_codec::SpecOutputRef>,
    dict: Map<u32, SpecDictEntry>,
    i: int,
)
    requires
        0 <= i < refs.len(),
    ensures
        spec_resolve_outputs(refs.take(i + 1), dict) == spec_resolve_outputs(refs.take(i), dict)
            + resolve_one(refs[i], dict),
    decreases i,
{
    reveal_with_fuel(spec_resolve_outputs, 4);
    let a = refs.take(i + 1);
    if i == 0 {
        assert(a.skip(1) =~= Seq::<crate::compact_codec::SpecOutputRef>::empty());
        assert(refs.take(0) =~= Seq::<crate::compact_codec::SpecOutputRef>::empty());
        assert(spec_resolve_outputs(a, dict) =~= spec_resolve_outputs(refs.take(0), dict)
            + resolve_one(refs[0], dict));
    } else {
        assert(a.skip(1) =~= refs.skip(1).take(i));
        assert(refs.take(i).skip(1) =~= refs.skip(1).take(i - 1));
        lemma_resolve_take_one(refs.skip(1), dict, i - 1);
        assert(spec_resolve_outputs(a, dict) =~= spec_resolve_outputs(refs.take(i), dict)
            + resolve_one(refs[i], dict));
    }
}

/// Converts a compact spawn stub into a full execution record, resolving
/// each output reference against the stored entries: a found file keeps its
/// digest, a found directory surfaces with its path and no digest, and an
/// unknown id is silently dropped.
pub fn reconstruct_spawn_exec(spawn: Spawn, stored_entries: &HashMap<u32, DictEntry>) -> (r:
    ExecutionRecord)
    ensures
        r@ == spec_reconstruct(spawn@, dict_view(stored_entries@)),
{
    let ghost dv = dict_view(stored_entries@);
    let ghost refs = spawn@.outputs;
    let mut actual_outputs: Vec<FileEntry> = Vec::new();
    let mut i: usize = 0;
    proof {
        assert(refs.take(0) =~= Seq::<crate::compact_codec::SpecOutputRef>::empty());
        assert(actual_outputs@.map_values(|f: FileEntry| f@) =~= spec_resolve_outputs(
            refs.take(0),
            dv,
        ));
    }
    while i < spawn.outputs.len()
        invariant
            i <= spawn.outputs.len(),
            refs == spawn@.outputs,
            dv == dict_view(stored_entries@),
            actual_outputs@.map_values(|f: FileEntry| f@) == spec_resolve_outputs(
                refs.take(i as int),
                dv,
            ),
        decreases spawn.outputs.len() - i,
    {
        let ghost before = actual_outputs@;
        let oid = spawn.outputs[i].output_id;
        assert(refs[i as int].output_id == oid);
        match stored_entries.get(&oid) {
            Some(entry) => {
                match entry {
                    DictEntry::File(f) => {
                        let fe = FileEntry {
                            path: copy_range(&f.path, 0, f.path.len()),
                            digest: match &f.digest {
                                Some(dg) => Some(clone_digest(dg)),
                                None => None,
                            },
                            symlink_target_path: Vec::new(),
                            is_tool: false,
                        };
                        proof {
                            assert(f.path@.subrange(0, f.path@.len() as int) =~= f.path@);
                            assert(dv.contains_key(oid) && dv[oid] == SpecDictEntry::File(f@));
                            assert(fe@ =~= file_entry_of_cfile(f@));
                        }
                        actual_outputs.push(fe);
                        proof {
                            assert(resolve_one(refs[i as int], dv) =~= seq![fe@]);
                        }
                    },
                    DictEntry::Directory(d) => {
                        let fe = FileEntry {
                            path: copy_range(&d.path, 0, d.path.len()),
                            digest: None,
                            symlink_target_path: Vec::new(),
                            is_tool: false,
                        };
                        proof {
                            assert(d.path@.subrange(0, d.path@.len() as int) =~= d.path@);
                            assert(dv.contains_key(oid) && dv[oid] == SpecDictEntry::Directory(
                                d@,
                            ));
                            assert(fe@ =~= file_entry_of_cdir(d@));
                        }
                        actual_outputs.push(fe);
                        proof {
                            assert(resolve_one(refs[i as int], dv) =~= seq![fe@]);
                        }
                    },
                }
            },
            None => {
                proof {
                    assert(!dv.contains_key(oid));
                    assert(resolve_one(refs[i as int], dv)
                        =~= Seq::<SpecFileEntry>::empty());
                }
            },
        }
        proof {
            lemma_resolve_take_one(refs, dv, i as int);
            assert(actual_outputs@.map_values(|f: FileEntry| f@) =~= spec_resolve_outputs(
                refs.take(i + 1),
                dv,
            ));
        }
        i = i + 1;
    }
    proof {
        assert(refs.take(refs.len() as int) =~= refs);
    }
    let r = ExecutionRecord {
        command_args: spawn.args,
        environment_variables: spawn.env_vars,
        platform: spawn.platform,
        inputs: Vec::new(),
        listed_outputs: Vec::new(),
        remotable: spawn.remotable,
        cacheable: spawn.cacheable,
        timeout_millis: spawn.timeout_millis,
        mnemonic: spawn.mnemonic,
        actual_outputs,
        runner: spawn.runner,
        cache_hit: spawn.cache_hit,
        status: spawn.status,
        exit_code: spawn.exit_code,
        remote_cacheable: spawn.remote_cacheable,
        target_label: spawn.target_label,
        digest: spawn.digest,
        metrics: spawn.metrics,
    };
    proof {
        assert(r@ =~~= spec_reconstruct(spawn@, dv));
    }
    r
}


// ---------------------------------------------------------------------------
// The envelope stream.
// ---------------------------------------------------------------------------

/// Decodes a whole buffer as a sequence of length-delimited envelopes.
pub open spec fn spec_parse_entries(s: Seq<u8>) -> Option<Seq<SpecLogEntry>>
    decreases s.len(),
{
    if s.len() == 0 {
        Some(Seq::empty())
    } else {
        match spec_dec_varint(s, VARINT_MAX_BYTES as nat) {
            None => None,
            Some((len, n)) => {
                if 1 <= n && n + len <= s.len() {
                    match spec_parse_entry(s.subrange(n, n + len)) {
                        None => None,
                        Some(e) => match spec_parse_entries(s.skip(n + len)) {
                            None => None,
                            Some(rest) => Some(seq![e] + rest),
                        },
                    }
                } else {
                    None
                }
            },
        }
    }
}

/// How one envelope changes the dictionary: a file or directory with a
/// nonzero id is stored (a repeated id is overwritten), id zero and every
/// other payload leave it unchanged.
pub open spec fn dict_step(dict: Map<u32, SpecDictEntry>, e: SpecLogEntry) -> Map<
    u32,
    SpecDictEntry,
> {
    match e.payload {
        SpecEntryPayload::File(f) => if e.id != 0 {
            dict.insert(e.id, SpecDictEntry::File(f))
        } else {
            dict
        },
        SpecEntryPayload::Directory(d) => if e.id != 0 {
            dict.insert(e.id, SpecDictEntry::Directory(d))
        } else {
            dict
        },
        _ => dict,
    }
}

/// The dictionary after a sequence of envelopes has been processed.
pub open spec fn spec_dict_after(entries: Seq<SpecLogEntry>, dict: Map<u32, SpecDictEntry>) -> Map<
    u32,
    SpecDictEntry,
>
    decreases entries.len(),
{
    if entries.len() == 0 {
        dict
    } else {
        spec_dict_after(entries.skip(1), dict_step(dict, entries[0]))
    }
}

/// The records that a sequence of envelopes reconstructs to, one forward
/// pass: each spawn is resolved against the dictionary built from the
/// envelopes before it, and record order follows spawn order.
pub open spec fn spec_compact_records(
    entries: Seq<SpecLogEntry>,
    dict: Map<u32, SpecDictEntry>,
) -> Seq<SpecRecord>
    decreases entries.len(),
{
    if entries.len() == 0 {
        Seq::empty()
    } else {
        match entries[0].payload {
            SpecEntryPayload::Spawn(sp) => seq![spec_reconstruct(sp, dict)]
                + spec_compact_records(entries.skip(1), dict),
            _ => spec_compact_records(entries.skip(1), dict_step(dict, entries[0])),
        }
    }
}

/// Decodes a whole buffer as a compact trace: envelopes, then
/// reconstruction from an empty dictionary.
pub open spec fn spec_parse_compact(s: Seq<u8>) -> Option<Seq<SpecRecord>> {
    match spec_parse_entries(s) {
        None => None,
        Some(es) => Some(spec_compact_records(es, Map::empty())),
    }
}

/// Decodes a compact trace and reconstructs its records, or reports the
/// offset where decoding stopped. Succeeds exactly when the buffer is a
/// well-formed envelope stream.
#[verifier::rlimit(100)]
pub fn parse_compact_log(content: &Vec<u8>) -> (r: Result<Vec<ExecutionRecord>, DecodeError>)
    ensures
        match r {
            Ok(v) => spec_parse_compact(content@) == Some(records_view(v@)),
            Err(_) => spec_parse_compact(content@) is None,
        },
{
    let end = content.len();
    let ghost full = content@;
    let mut acc: Vec<ExecutionRecord> = Vec::new();
    let mut dict: HashMap<u32, DictEntry> = HashMap::new();
    let mut pos: usize = 0;
    proof {
        assert(full.subrange(0, end as int) =~= full);
        assert(dict_view(dict@) =~= Map::<u32, SpecDictEntry>::empty());
    }
    while pos < end
        invariant
            pos <= end == content.len(),
            full == content@,
            spec_parse_entries(content@.subrange(pos as int, end as int)) matches Some(tail)
                ==> (spec_parse_entries(full) is Some && spec_compact_records(
                spec_parse_entries(full).unwrap(),
                Map::empty(),
            ) == records_view(acc@) + spec_compact_records(tail, dict_view(dict@))),
            spec_parse_entries(content@.subrange(pos as int, end as int)) is None
                ==> spec_parse_entries(full) is None,
        decreases end - pos,
    {
        let ghost window = content@.subrange(pos as int, end as int);
        assert(window.len() > 0);
        let (len, p) = match parse_varint(content, pos, end) {
            None => {
                assert(spec_parse_entries(window) is None);
                return Err(DecodeError { offset: pos, cause: DecodeCause::TruncatedFrame });
            },
            Some(x) => x,
        };
        if len > (end - p) as u64 {
            proof {
                lemma_dec_varint_consumed(window, VARINT_MAX_BYTES as nat);
                assert(spec_parse_entries(window) is None);
            }
            return Err(DecodeError { offset: pos, cause: DecodeCause::TruncatedFrame });
        }
        let len_us = len as usize;
        let payload = copy_range(content, p, p + len_us);
        proof {
            let n = p - pos;
            assert(window.subrange(n as int, n + len) =~= content@.subrange(p as int, p + len));
            assert(payload@ == window.subrange(n as int, n + len));
        }
        let entry = match decode_entry(&payload) {
            None => {
                assert(spec_parse_entries(window) is None);
                return Err(DecodeError { offset: pos, cause: DecodeCause::MalformedMessage });
            },
            Some(x) => x,
        };
        let ghost n = p - pos;
        let ghost rest_window = content@.subrange(p + len, end as int);
        proof {
            assert(window.skip(n + len) =~= rest_window);
        }
        let ghost old_acc = acc@;
        let ghost old_dict = dict_view(dict@);
        let id = entry.id;
        match entry.payload {
            EntryPayload::Spawn(sp) => {
                let rec = reconstruct_spawn_exec(sp, &dict);
                acc.push(rec);
                proof {
                    assert(records_view(acc@) =~= records_view(old_acc) + seq![rec@]);
                    match spec_parse_entries(rest_window) {
                        Some(tail) => {
                            assert(spec_parse_entries(window) == Some(seq![entry@] + tail));
                            assert((seq![entry@] + tail).skip(1) =~= tail);
                            assert(spec_compact_records(seq![entry@] + tail, old_dict)
                                == seq![rec@] + spec_compact_records(tail, old_dict));
                            assert(records_view(old_acc) + (seq![rec@] + spec_compact_records(
                                tail,
                                old_dict,
                            )) =~= records_view(acc@) + spec_compact_records(tail, old_dict));
                        },
                        None => {},
                    }
                }
            },
            EntryPayload::File(f) => {
                if id != 0 {
                    dict.insert(id, DictEntry::File(f));
                    proof {
                        assert(dict_view(dict@) =~= old_dict.insert(
                            id,
                            SpecDictEntry::File(entry@.payload.arrow_File_0()),
                        ));
                    }
                }
                proof {
                    assert(dict_view(dict@) =~= dict_step(old_dict, entry@));
                    match spec_parse_entries(rest_window) {
                        Some(tail) => {
                            assert(spec_parse_entries(window) == Some(seq![entry@] + tail));
                            assert((seq![entry@] + tail).skip(1) =~= tail);
                            assert(spec_compact_records(seq![entry@] + tail, old_dict)
                                == spec_compact_records(tail, dict_step(old_dict, entry@)));
                        },
                        None => {},
                    }
                }
            },
            EntryPayload::Directory(d) => {
                if id != 0 {
                    dict.insert(id, DictEntry::Directory(d));
                    proof {
                        assert(dict_view(dict@) =~= old_dict.insert(
                            id,
                            SpecDictEntry::Directory(entry@.payload.arrow_Directory_0()),
                        ));
                    }
                }
                proof {
                    assert(dict_view(dict@) =~= dict_step(old_dict, entry@));
                    match spec_parse_entries(rest_window) {
                        Some(tail) => {
                            assert(spec_parse_entries(window) == Some(seq![entry@] + tail));
                            assert((seq![entry@] + tail).skip(1) =~= tail);
                            assert(spec_compact_records(seq![entry@] + tail, old_dict)
                                == spec_compact_records(tail, dict_step(old_dict, entry@)));
                        },
                        None => {},
                    }
                }
            },
            EntryPayload::Other => {
                proof {
                    assert(dict_view(dict@) =~= dict_step(old_dict, entry@));
                    match spec_parse_entries(rest_window) {
                        Some(tail) => {
                            assert(spec_parse_entries(window) == Some(seq![entry@] + tail));
                            assert((seq![entry@] + tail).skip(1) =~= tail);
                            assert(spec_compact_records(seq![entry@] + tail, old_dict)
                                == spec_compact_records(tail, dict_step(old_dict, entry@)));
                        },
                        None => {},
                    }
                }
            },
        }
        pos = p + len_us;
    }
    proof {
        assert(content@.subrange(pos as int, end as int) =~= Seq::<u8>::empty());
        assert(records_view(acc@) + Seq::<SpecRecord>::empty() =~= records_view(acc@));
    }
    Ok(acc)
}

// ---------------------------------------------------------------------------
// Dictionary id zero is never stored.
// ---------------------------------------------------------------------------

/// The references of a list whose id is not the zero sentinel.
pub open spec fn nonzero_refs(refs: Seq<crate::compact_codec::SpecOutputRef>) -> Seq<
    crate::compact_codec::SpecOutputRef,
>
    decreases refs.len(),
{
    if refs.len() == 0 {
        Seq::empty()
    } else {
        (if refs[0].output_id != 0 {
            seq![refs[0]]
        } else {
            Seq::empty()
        }) + nonzero_refs(refs.skip(1))
    }
}

/// Whatever envelopes arrive, a dictionary that does not hold id zero
/// never comes to hold it: an entry with id zero is discarded, never
/// inserted.
pub proof fn lemma_dict_never_holds_zero(
    entries: Seq<SpecLogEntry>,
    dict: Map<u32, SpecDictEntry>,
)
    requires
        !dict.contains_key(0),
    ensures
        !spec_dict_after(entries, dict).contains_key(0),
    decreases entries.len(),
{
    if entries.len() > 0 {
        assert(!dict_step(dict, entries[0]).contains_key(0));
        lemma_dict_never_holds_zero(entries.skip(1), dict_step(dict, entries[0]));
    }
}

/// Under a dictionary that does not hold id zero, references to id zero
/// resolve to nothing: dropping them changes no reconstruction.
pub proof fn lemma_zero_refs_resolve_nothing(
    refs: Seq<crate::compact_codec::SpecOutputRef>,
    dict: Map<u32, SpecDictEntry>,
)
    requires
        !dict.contains_key(0),
    ensures
        spec_resolve_outputs(refs, dict) == spec_resolve_outputs(nonzero_refs(refs), dict),
    decreases refs.len(),
{
    reveal_with_fuel(spec_resolve_outputs, 4);
    reveal_with_fuel(nonzero_refs, 4);
    if refs.len() > 0 {
        lemma_zero_refs_resolve_nothing(refs.skip(1), dict);
        if refs[0].output_id != 0 {
            assert(nonzero_refs(refs) =~= seq![refs[0]] + nonzero_refs(refs.skip(1)));
            assert((seq![refs[0]] + nonzero_refs(refs.skip(1))).skip(1) =~= nonzero_refs(
                refs.skip(1),
            ));
            assert(spec_resolve_outputs(refs, dict) =~= spec_resolve_outputs(
                nonzero_refs(refs),
                dict,
            ));
        } else {
            assert(resolve_one(refs[0], dict) =~= Seq::<SpecFileEntry>::empty());
            assert(nonzero_refs(refs) =~= nonzero_refs(refs.skip(1)));
            assert(spec_resolve_outputs(refs, dict) =~= spec_resolve_outputs(
                nonzero_refs(refs),
                dict,
            ));
        }
    }
}

} // verus!
