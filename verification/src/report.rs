//! Records of a scheduler run that are written to its statistics file.
use vstd::prelude::*;

use std::collections::BTreeMap;

verus! {

/// How a run was set up.
#[derive(Clone, Debug)]
pub struct RunManifest {
    pub run_id: String,
    pub filter: String,
    pub mode: String,
    pub fuzzer: Option<String>,
    pub total_seconds: i32,
    pub segment_seconds: i32,
    pub threads: Option<i32>,
    pub beacon_api: Option<String>,
    pub prom_endpoint: Option<String>,
}

/// Number of files in each corpus when the run started, by corpus label.
#[derive(Clone, Debug)]
pub struct CorporaSummary {
    pub counts: BTreeMap<String, usize>,
}

/// What one pruning of a target's corpus did.
#[derive(Clone, Debug)]
pub struct PruneRecord {
    pub target: String,
    pub corpora_label: String,
    pub merged_count: usize,
    pub kept_count: usize,
    pub out_dir: String,
}

impl PruneRecord {
    /// The record of one pruning: the files merged are those of the source
    /// corpus (`prior`) and of the segment's batch (`batch_count`). A sum
    /// beyond `usize::MAX` overflows, which the requirement rules out.
    pub fn new(
        target: String,
        corpora_label: String,
        prior: usize,
        batch_count: usize,
        kept_count: usize,
        out_dir: String,
    ) -> (r: Self)
        requires
            prior + batch_count <= usize::MAX,
        ensures
            r.target == target,
            r.corpora_label == corpora_label,
            r.merged_count == prior + batch_count,
            r.kept_count == kept_count,
            r.out_dir == out_dir,
    {
        PruneRecord { target, corpora_label, merged_count: prior + batch_count, kept_count, out_dir }
    }
}

} // verus!
