//! One whole run: decompress the input, parse it once, and give every
//! destination its body and its count.

use vstd::prelude::*;
use crate::bytes::copy_bytes;
use crate::codec::{decode_of, gzip_compress, gzip_of, plain_payload, sniff_decompress};
use crate::engine::{
    content_records, dest_bytes, matched_of, parse_input, render_destination, total_rows, Criterion,
};
use crate::record::RecordView;
use crate::stats::FragmentStats;

verus! {

/// A named destination with its match criterion.
pub struct Destination {
    pub name: Vec<u8>,
    pub criterion: Criterion,
}

/// Output conventions: whether destination bodies are gzip-compressed, and
/// whether each body begins with the comment header row.
#[derive(Clone, Copy)]
pub struct OutputOptions {
    pub compressed: bool,
    pub header: bool,
}

/// One destination's finished body and the number of records written in it.
pub struct DestinationOutput {
    pub name: Vec<u8>,
    pub data: Vec<u8>,
    pub written: u64,
}

/// Everything a run returns: the counters and each destination's body.
pub struct RunOutput {
    pub stats: FragmentStats,
    pub outputs: Vec<DestinationOutput>,
}

/// The one fatal error a run can meet: the input announced a compression
/// format whose body is malformed (or was too short to sniff as anything).
/// Row-level parse failures are never fatal, and building an output body
/// cannot fail — in-memory compression always succeeds.
#[derive(Debug)]
pub enum SplitError {
    Decompression,
}

/// The content a raw input denotes: fewer than five bytes cannot carry a
/// magic number and pass through unchanged; anything else is sniffed and
/// transparently decompressed.
pub open spec fn content_of(raw: Seq<u8>) -> Option<Seq<u8>> {
    if raw.len() < 5 {
        Some(raw)
    } else {
        decode_of(raw)
    }
}

/// What one finished destination body must be.
pub open spec fn output_ok(
    d: DestinationOutput,
    dest: Destination,
    rs: Seq<RecordView>,
    opts: OutputOptions,
) -> bool {
    &&& d.name@ == dest.name@
    &&& d.written as nat == matched_of(rs, dest.criterion).len()
    &&& d.data@ == (if opts.compressed {
        gzip_of(dest_bytes(rs, dest.criterion, opts.header))
    } else {
        dest_bytes(rs, dest.criterion, opts.header)
    })
}

/// What a successful run promises, relative to the decompressed content:
/// the total counts every non-comment row; each destination's body holds
/// exactly the matching records, in input order; and the written counters
/// mirror the bodies.
pub open spec fn run_ok(
    out: RunOutput,
    content: Seq<u8>,
    dests: Seq<Destination>,
    opts: OutputOptions,
) -> bool {
    let rs = content_records(content);
    &&& out.stats.fragments_total as nat == total_rows(content)
    &&& out.stats.fragments_written@.len() == dests.len()
    &&& out.outputs@.len() == dests.len()
    &&& forall|j: int|
        0 <= j < dests.len() ==> output_ok(#[trigger] out.outputs@[j], dests[j], rs, opts)
    &&& forall|j: int|
        0 <= j < dests.len() ==> (#[trigger] out.stats.fragments_written@[j]).0@ == dests[j].name@
            && out.stats.fragments_written@[j].1 as nat == matched_of(rs, dests[j].criterion).len()
}

/// Distinct destination names, as the registry invariant demands.
pub open spec fn distinct_names(dests: Seq<Destination>) -> bool {
    forall|i: int, j: int| 0 <= i < j < dests.len() ==> dests[i].name@ != dests[j].name@
}

/// Runs the demultiplexer over already-decompressed content. Nothing here
/// can fail: every outcome of the run is pinned by `run_ok`.
#[verifier::loop_isolation(false)]
pub fn run_split_content(
    content: &Vec<u8>,
    destinations: &Vec<Destination>,
    opts: OutputOptions,
) -> (out: RunOutput)
    requires
        distinct_names(destinations@),
    ensures
        run_ok(out, content@, destinations@, opts),
{
    let (total, records) = parse_input(content);
    let ghost rs = content_records(content@);
    let mut stats = FragmentStats::new();
    stats.fragments_total = total;
    let mut outputs: Vec<DestinationOutput> = Vec::new();
    let n = destinations.len();
    let mut j: usize = 0;
    while j < n
        invariant
            0 <= j <= n,
            outputs@.len() == j,
            stats.fragments_written@.len() == j,
            stats.fragments_total == total,
            forall|k: int|
                0 <= k < j ==> output_ok(#[trigger] outputs@[k], destinations@[k], rs, opts),
            forall|k: int|
                0 <= k < j ==> (#[trigger] stats.fragments_written@[k]).0@
                    == destinations@[k].name@ && stats.fragments_written@[k].1 as nat == matched_of(
                    rs,
                    destinations@[k].criterion,
                ).len(),
        decreases n - j,
    {
        let d = &destinations[j];
        let (data, written) = render_destination(&records, &d.criterion, opts.header);
        let body: Vec<u8> = if opts.compressed {
            gzip_compress(&data)
        } else {
            data
        };
        let name_copy = copy_bytes(&d.name);
        let counter_name = copy_bytes(&d.name);
        outputs.push(DestinationOutput { name: name_copy, data: body, written });
        stats.fragments_written.push((counter_name, written));
        j += 1;
    }
    RunOutput { stats, outputs }
}

/// Runs the demultiplexer over a raw, possibly compressed input. The run
/// succeeds exactly when the input's transparent decompression denotes
/// content, and its whole outcome is then `run_ok` over that content.
/// Plain input — and any input that is exactly a gzip stream — always
/// decompresses.
pub fn run_split(raw: &Vec<u8>, destinations: &Vec<Destination>, opts: OutputOptions) -> (r: Result<
    RunOutput,
    SplitError,
>)
    requires
        distinct_names(destinations@),
    ensures
        (r is Ok) == (content_of(raw@) is Some),
        r matches Ok(out) ==> content_of(raw@) matches Some(content) && run_ok(
            out,
            content,
            destinations@,
            opts,
        ),
        r matches Err(e) ==> e == SplitError::Decompression && content_of(raw@) is None,
        plain_payload(raw@) ==> content_of(raw@) == Some(raw@),
        forall|x: Seq<u8>| raw@ == gzip_of(x) && raw@.len() >= 5 ==> content_of(raw@) == Some(x),
{
    let content: Vec<u8>;
    if raw.len() < 5 {
        content = copy_bytes(raw);
    } else {
        match sniff_decompress(raw) {
            Ok(c) => {
                content = c;
            },
            Err(_) => {
                return Err(SplitError::Decompression);
            },
        }
    }
    assert(content_of(raw@) == Some(content@));
    Ok(run_split_content(&content, destinations, opts))
}

} // verus!
