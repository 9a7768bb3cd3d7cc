//! Canonical in-memory representation of one executed build action and its
//! timing/resource metrics, together with the ghost-level mirror types that
//! contracts are stated over.
//!
//! All text fields are byte strings (`Vec<u8>`): the decoders place no
//! character-set requirement on them, and the analyses compare them byte
//! for byte. All counts and sizes are unsigned; a time span is a
//! non-negative pair of seconds and nanoseconds.

use vstd::prelude::*;

verus! {

/// A non-negative time span. `nanos` is a fraction of a second; a value is
/// well formed only when `nanos < 1_000_000_000`.
#[derive(Clone, Copy, Debug, PartialEq, Eq)]
pub struct DurationVal {
    pub seconds: u64,
    pub nanos: u32,
}

#[verifier::ext_equal]
pub struct SpecDurationVal {
    pub seconds: u64,
    pub nanos: u32,
}

impl View for DurationVal {
    type V = SpecDurationVal;

    open spec fn view(&self) -> SpecDurationVal {
        SpecDurationVal { seconds: self.seconds, nanos: self.nanos }
    }
}

/// Number of nanoseconds in one second.
pub const NANOS_PER_SEC: u32 = 1_000_000_000;

/// A duration value is structurally valid when its fractional part is a
/// genuine fraction of a second.
pub open spec fn swf_duration(d: SpecDurationVal) -> bool {
    d.nanos < NANOS_PER_SEC
}

/// The length of a time span in nanoseconds.
pub open spec fn duration_nanos(d: SpecDurationVal) -> int {
    d.seconds * (NANOS_PER_SEC as int) + d.nanos
}

/// A content fingerprint identifying a file's bytes: hash, size of the
/// content in bytes, and the name of the hash function.
#[derive(Clone, Debug, PartialEq, Eq)]
pub struct Digest {
    pub hash: Vec<u8>,
    pub size_bytes: u64,
    pub hash_function_name: Vec<u8>,
}

#[verifier::ext_equal]
pub struct SpecDigest {
    pub hash: Seq<u8>,
    pub size_bytes: u64,
    pub hash_function_name: Seq<u8>,
}

impl View for Digest {
    type V = SpecDigest;

    open spec fn view(&self) -> SpecDigest {
        SpecDigest {
            hash: self.hash@,
            size_bytes: self.size_bytes,
            hash_function_name: self.hash_function_name@,
        }
    }
}

/// One produced output: a path, an optional content digest, an optional
/// symlink target, and whether the file is a tool. A directory surfaced
/// through reconstruction degrades to a `FileEntry` with no digest.
#[derive(Clone, Debug, PartialEq, Eq)]
pub struct FileEntry {
    pub path: Vec<u8>,
    pub digest: Option<Digest>,
    pub symlink_target_path: Vec<u8>,
    pub is_tool: bool,
}

#[verifier::ext_equal]
pub struct SpecFileEntry {
    pub path: Seq<u8>,
    pub digest: Option<SpecDigest>,
    pub symlink_target_path: Seq<u8>,
    pub is_tool: bool,
}

impl View for FileEntry {
    type V = SpecFileEntry;

    open spec fn view(&self) -> SpecFileEntry {
        SpecFileEntry {
            path: self.path@,
            digest: match self.digest {
                Some(d) => Some(d@),
                None => None,
            },
            symlink_target_path: self.symlink_target_path@,
            is_tool: self.is_tool,
        }
    }
}

/// A name/value pair: an environment variable or a platform property.
#[derive(Clone, Debug, PartialEq, Eq)]
pub struct KeyValue {
    pub name: Vec<u8>,
    pub value: Vec<u8>,
}

#[verifier::ext_equal]
pub struct SpecKeyValue {
    pub name: Seq<u8>,
    pub value: Seq<u8>,
}

impl View for KeyValue {
    type V = SpecKeyValue;

    open spec fn view(&self) -> SpecKeyValue {
        SpecKeyValue { name: self.name@, value: self.value@ }
    }
}

/// Timing and resource envelope of one record. Each time span is
/// independently optional: absence means "not measured", not zero.
#[derive(Clone, Debug, PartialEq, Eq)]
pub struct Metrics {
    pub total_time: Option<DurationVal>,
    pub queue_time: Option<DurationVal>,
    pub setup_time: Option<DurationVal>,
    pub upload_time: Option<DurationVal>,
    pub execution_wall_time: Option<DurationVal>,
    pub fetch_time: Option<DurationVal>,
    pub retry_time: Option<DurationVal>,
    pub input_bytes: u64,
    pub input_files: u64,
    pub memory_estimate_bytes: u64,
    pub memory_bytes_limit: u64,
}

#[verifier::ext_equal]
pub struct SpecMetrics {
    pub total_time: Option<SpecDurationVal>,
    pub queue_time: Option<SpecDurationVal>,
    pub setup_time: Option<SpecDurationVal>,
    pub upload_time: Option<SpecDurationVal>,
    pub execution_wall_time: Option<SpecDurationVal>,
    pub fetch_time: Option<SpecDurationVal>,
    pub retry_time: Option<SpecDurationVal>,
    pub input_bytes: u64,
    pub input_files: u64,
    pub memory_estimate_bytes: u64,
    pub memory_bytes_limit: u64,
}

pub open spec fn view_opt_duration(d: Option<DurationVal>) -> Option<SpecDurationVal> {
    match d {
        Some(v) => Some(v@),
        None => None,
    }
}

impl View for Metrics {
    type V = SpecMetrics;

    open spec fn view(&self) -> SpecMetrics {
        SpecMetrics {
            total_time: view_opt_duration(self.total_time),
            queue_time: view_opt_duration(self.queue_time),
            setup_time: view_opt_duration(self.setup_time),
            upload_time: view_opt_duration(self.upload_time),
            execution_wall_time: view_opt_duration(self.execution_wall_time),
            fetch_time: view_opt_duration(self.fetch_time),
            retry_time: view_opt_duration(self.retry_time),
            input_bytes: self.input_bytes,
            input_files: self.input_files,
            memory_estimate_bytes: self.memory_estimate_bytes,
            memory_bytes_limit: self.memory_bytes_limit,
        }
    }
}

/// One completed or cache-served action of a build-execution trace.
#[derive(Clone, Debug, PartialEq, Eq)]
pub struct ExecutionRecord {
    pub command_args: Vec<Vec<u8>>,
    pub environment_variables: Vec<KeyValue>,
    pub platform: Vec<KeyValue>,
    pub inputs: Vec<FileEntry>,
    pub listed_outputs: Vec<Vec<u8>>,
    pub remotable: bool,
    pub cacheable: bool,
    pub timeout_millis: u64,
    pub mnemonic: Vec<u8>,
    pub actual_outputs: Vec<FileEntry>,
    pub runner: Vec<u8>,
    pub cache_hit: bool,
    pub status: Vec<u8>,
    pub exit_code: u32,
    pub remote_cacheable: bool,
    pub target_label: Vec<u8>,
    pub digest: Option<Digest>,
    pub metrics: Option<Metrics>,
}

#[verifier::ext_equal]
pub struct SpecRecord {
    pub command_args: Seq<Seq<u8>>,
    pub environment_variables: Seq<SpecKeyValue>,
    pub platform: Seq<SpecKeyValue>,
    pub inputs: Seq<SpecFileEntry>,
    pub listed_outputs: Seq<Seq<u8>>,
    pub remotable: bool,
    pub cacheable: bool,
    pub timeout_millis: u64,
    pub mnemonic: Seq<u8>,
    pub actual_outputs: Seq<SpecFileEntry>,
    pub runner: Seq<u8>,
    pub cache_hit: bool,
    pub status: Seq<u8>,
    pub exit_code: u32,
    pub remote_cacheable: bool,
    pub target_label: Seq<u8>,
    pub digest: Option<SpecDigest>,
    pub metrics: Option<SpecMetrics>,
}

impl View for ExecutionRecord {
    type V = SpecRecord;

    open spec fn view(&self) -> SpecRecord {
        SpecRecord {
            command_args: self.command_args@.map_values(|b: Vec<u8>| b@),
            environment_variables: self.environment_variables@.map_values(|kv: KeyValue| kv@),
            platform: self.platform@.map_values(|kv: KeyValue| kv@),
            inputs: self.inputs@.map_values(|f: FileEntry| f@),
            listed_outputs: self.listed_outputs@.map_values(|b: Vec<u8>| b@),
            remotable: self.remotable,
            cacheable: self.cacheable,
            timeout_millis: self.timeout_millis,
            mnemonic: self.mnemonic@,
            actual_outputs: self.actual_outputs@.map_values(|f: FileEntry| f@),
            runner: self.runner@,
            cache_hit: self.cache_hit,
            status: self.status@,
            exit_code: self.exit_code,
            remote_cacheable: self.remote_cacheable,
            target_label: self.target_label@,
            digest: match self.digest {
                Some(d) => Some(d@),
                None => None,
            },
            metrics: match self.metrics {
                Some(m) => Some(m@),
                None => None,
            },
        }
    }
}

/// The record with every field empty, absent, zero or false. Decoding starts
/// from this value, and a frame carrying no field yields it.
pub open spec fn empty_spec_record() -> SpecRecord {
    SpecRecord {
        command_args: Seq::empty(),
        environment_variables: Seq::empty(),
        platform: Seq::empty(),
        inputs: Seq::empty(),
        listed_outputs: Seq::empty(),
        remotable: false,
        cacheable: false,
        timeout_millis: 0,
        mnemonic: Seq::empty(),
        actual_outputs: Seq::empty(),
        runner: Seq::empty(),
        cache_hit: false,
        status: Seq::empty(),
        exit_code: 0,
        remote_cacheable: false,
        target_label: Seq::empty(),
        digest: None,
        metrics: None,
    }
}

impl ExecutionRecord {
    /// The record with every field empty, absent, zero or false.
    pub fn new_empty() -> (r: ExecutionRecord)
        ensures
            r@ == empty_spec_record(),
    {
        let r = ExecutionRecord {
            command_args: Vec::new(),
            environment_variables: Vec::new(),
            platform: Vec::new(),
            inputs: Vec::new(),
            listed_outputs: Vec::new(),
            remotable: false,
            cacheable: false,
            timeout_millis: 0,
            mnemonic: Vec::new(),
            actual_outputs: Vec::new(),
            runner: Vec::new(),
            cache_hit: false,
            status: Vec::new(),
            exit_code: 0,
            remote_cacheable: false,
            target_label: Vec::new(),
            digest: None,
            metrics: None,
        };
        proof {
            assert(r@ =~= empty_spec_record());
        }
        r
    }
}

/// The sequence of ghost records that a vector of records stands for.
pub open spec fn records_view(rs: Seq<ExecutionRecord>) -> Seq<SpecRecord> {
    rs.map_values(|r: ExecutionRecord| r@)
}


/// Why decoding stopped: the frame boundary could not be established, or
/// the frame's bytes do not form the expected message shape.
#[derive(Clone, Copy, Debug, PartialEq, Eq)]
pub enum DecodeCause {
    /// The frame's length prefix could not be read, or it promises more
    /// bytes than remain in the buffer.
    TruncatedFrame,
    /// The frame's payload does not decode as the expected message.
    MalformedMessage,
}

/// A trace that does not decode: the byte offset of the offending frame
/// and the underlying cause.
#[derive(Clone, Copy, Debug, PartialEq, Eq)]
pub struct DecodeError {
    pub offset: usize,
    pub cause: DecodeCause,
}

} // verus!
