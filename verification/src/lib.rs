//! Streaming demultiplexer for tab-separated genomic fragment records.
//!
//! The library parses tab-delimited fragment records, dispatches each record
//! to every destination whose criterion it matches (barcode-set membership or
//! strict fragment-length range), and accumulates per-destination counters.

pub mod bytes;
pub mod codec;
pub mod engine;
pub mod laws;
pub mod record;
pub mod run;
pub mod stats;
pub mod utf8;

pub use bytes::{bytes_eq, copy_bytes, split_bytes};
pub use engine::{parse_input, record_matches, render_destination, split_lines, Criterion};
pub use record::{parse_record_line, parse_u64, render_record_line, RecordView, TabixRecord};
pub use run::{
    run_split, run_split_content, Destination, DestinationOutput, OutputOptions, RunOutput,
    SplitError,
};
pub use stats::FragmentStats;
pub use utf8::check_utf8;
