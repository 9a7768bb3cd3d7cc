//! Build-execution trace analysis: log ingestion and reconstruction for two
//! binary trace encodings — a verbose flat form and a dictionary-compressed
//! compact form — and a catalogue of read-only analytical reports over the
//! reconstructed record collection.

pub mod model;
pub mod varint;
pub mod wire;
pub mod codec;
pub mod record_codec;
pub mod verbose;
pub mod compact_codec;
pub mod compact;
pub mod detect;
pub mod rank;
pub mod reports;
pub mod groups;

use vstd::prelude::*;

verus! {

/// Which reports a run asks for: the trace file, the ranking depth, and
/// one switch per optional report. Reading the file and rendering the
/// tables are the caller's business.
pub struct Cli {
    pub file: String,
    pub top_n: usize,
    pub cache_metrics: bool,
    pub phase_timings: bool,
    pub input_analysis: bool,
    pub retries: bool,
    pub aggregate_phases: bool,
    pub output_analysis: bool,
    pub memory_analysis: bool,
    pub execution_comparison: bool,
    pub queue_analysis: bool,
}

impl Default for Cli {
    /// The default run: the ten slowest actions and the cache report, no
    /// optional reports.
    fn default() -> (r: Cli)
        ensures
            r.file@ == Seq::<char>::empty(),
            r.top_n == 10,
            r.cache_metrics,
            !r.phase_timings,
            !r.input_analysis,
            !r.retries,
            !r.aggregate_phases,
            !r.output_analysis,
            !r.memory_analysis,
            !r.execution_comparison,
            !r.queue_analysis,
    {
        Cli {
            file: String::new(),
            top_n: 10,
            cache_metrics: true,
            phase_timings: false,
            input_analysis: false,
            retries: false,
            aggregate_phases: false,
            output_analysis: false,
            memory_analysis: false,
            execution_comparison: false,
            queue_analysis: false,
        }
    }
}

} // verus!
