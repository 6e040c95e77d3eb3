//! Run statistics: total rows seen and per-destination written counts.

use vstd::prelude::*;

verus! {

/// Counters returned to the caller after a run: how many rows were seen in
/// total, and how many records were written to each destination, as
/// `(destination name, count)` pairs in registry order.
pub struct FragmentStats {
    pub fragments_total: u64,
    pub fragments_written: Vec<(Vec<u8>, u64)>,
}

impl FragmentStats {
    /// Fresh, empty statistics: nothing seen, nothing written.
    pub fn new() -> (s: FragmentStats)
        ensures
            s.fragments_total == 0,
            s.fragments_written@.len() == 0,
    {
        FragmentStats { fragments_total: 0, fragments_written: Vec::new() }
    }
}

} // verus!
