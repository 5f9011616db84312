//! Beacon-node and Prometheus metrics: snapshots, the events between two
//! snapshots, and the integer signals that feed the scheduler's features.
use vstd::prelude::*;

use crate::text::{
    chars_of, concat_str, contains_chars, contains_seq, copy_range, ends_with_chars, ends_with_str,
    find_line_end, last_token, last_token_bounds, line_end,
    parse_u64_range, parse_u64_spec, parse_u64_str, same_chars,
};

verus! {

/// What the beacon node reported about its head and its checkpoints.
#[derive(Clone, Debug)]
pub struct BeaconSnapshot {
    pub head_slot: Option<u64>,
    pub head_root: Option<String>,
    pub justified_epoch: Option<u64>,
    pub finalized_epoch: Option<u64>,
}

/// What the Prometheus endpoint reported.
#[derive(Clone, Debug)]
pub struct PromSnapshot {
    pub reorg_count: Option<u64>,
}

/// Both snapshots taken after one fuzzing segment.
#[derive(Clone, Debug)]
pub struct MetricsCtx {
    pub beacon: BeaconSnapshot,
    pub prom: PromSnapshot,
}

/// Chain events seen between two snapshots.
#[derive(Clone, Copy, Debug, PartialEq, Eq, Structural)]
pub struct SegmentDelta {
    pub head_switch: bool,
    pub finalized_advanced: bool,
    pub reorg_increased: bool,
}

impl Default for BeaconSnapshot {
    fn default() -> (s: Self)
        ensures
            s.head_slot is None,
            s.head_root is None,
            s.justified_epoch is None,
            s.finalized_epoch is None,
    {
        BeaconSnapshot { head_slot: None, head_root: None, justified_epoch: None, finalized_epoch: None }
    }
}

impl Default for PromSnapshot {
    fn default() -> (s: Self)
        ensures
            s.reorg_count is None,
    {
        PromSnapshot { reorg_count: None }
    }
}

impl Default for MetricsCtx {
    fn default() -> (s: Self)
        ensures
            s.beacon.head_slot is None,
            s.beacon.head_root is None,
            s.beacon.justified_epoch is None,
            s.beacon.finalized_epoch is None,
            s.prom.reorg_count is None,
    {
        MetricsCtx { beacon: BeaconSnapshot::default(), prom: PromSnapshot::default() }
    }
}

impl Default for SegmentDelta {
    fn default() -> (d: Self)
        ensures
            !d.head_switch && !d.finalized_advanced && !d.reorg_increased,
    {
        SegmentDelta { head_switch: false, finalized_advanced: false, reorg_increased: false }
    }
}

/// Both snapshots name a head root, and the roots differ.
pub open spec fn head_switched(prev: MetricsCtx, cur: MetricsCtx) -> bool {
    match (prev.beacon.head_root, cur.beacon.head_root) {
        (Some(a), Some(b)) => a@ != b@,
        _ => false,
    }
}

/// Both snapshots name a finalized epoch, and it grew.
pub open spec fn finality_advanced(prev: MetricsCtx, cur: MetricsCtx) -> bool {
    match (prev.beacon.finalized_epoch, cur.beacon.finalized_epoch) {
        (Some(a), Some(b)) => b > a,
        _ => false,
    }
}

/// Both snapshots hold a reorg count, and it grew.
pub open spec fn reorgs_increased(prev: MetricsCtx, cur: MetricsCtx) -> bool {
    match (prev.prom.reorg_count, cur.prom.reorg_count) {
        (Some(a), Some(b)) => b > a,
        _ => false,
    }
}

/// The chain events between the snapshot `prev` and the snapshot `cur`.
pub fn delta_events(prev: &MetricsCtx, cur: &MetricsCtx) -> (d: SegmentDelta)
    ensures
        d.head_switch == head_switched(*prev, *cur),
        d.finalized_advanced == finality_advanced(*prev, *cur),
        d.reorg_increased == reorgs_increased(*prev, *cur),
        d.head_switch <==> (match (prev.beacon.head_root, cur.beacon.head_root) {
            (Some(a), Some(b)) => a@ != b@,
            _ => false,
        }),
        d.finalized_advanced <==> (match (prev.beacon.finalized_epoch, cur.beacon.finalized_epoch) {
            (Some(a), Some(b)) => a < b,
            _ => false,
        }),
        d.reorg_increased <==> (match (prev.prom.reorg_count, cur.prom.reorg_count) {
            (Some(a), Some(b)) => a < b,
            _ => false,
        }),
{
    let mut d = SegmentDelta::default();
    if let (Some(pr), Some(cr)) = (&prev.beacon.head_root, &cur.beacon.head_root) {
        if !same_chars(pr.as_str(), cr.as_str()) {
            d.head_switch = true;
        }
    }
    if let (Some(pe), Some(ce)) = (prev.beacon.finalized_epoch, cur.beacon.finalized_epoch) {
        if ce > pe {
            d.finalized_advanced = true;
        }
    }
    if let (Some(a), Some(b)) = (prev.prom.reorg_count, cur.prom.reorg_count) {
        if b > a {
            d.reorg_increased = true;
        }
    }
    d
}

/// Law: a snapshot shows no chain event against itself.
pub proof fn no_events_against_itself(m: MetricsCtx)
    ensures
        !head_switched(m, m),
        !finality_advanced(m, m),
        !reorgs_increased(m, m),
{
}

/// How many reorgs happened between two snapshots, in three classes.
#[derive(Clone, Copy, Debug, PartialEq, Eq, Structural)]
pub enum ReorgBucket {
    /// No reorg (or no count to compare).
    Zero,
    /// One or two reorgs.
    Few,
    /// More than two reorgs.
    Many,
}

/// Growth of the reorg counter between two snapshots; 0 unless both hold a
/// count and it grew.
pub open spec fn reorg_delta_spec(prev: MetricsCtx, cur: MetricsCtx) -> nat {
    match (prev.prom.reorg_count, cur.prom.reorg_count) {
        (Some(a), Some(b)) => if b > a {
            (b - a) as nat
        } else {
            0
        },
        _ => 0,
    }
}

/// The class of a reorg count.
pub open spec fn reorg_bucket_spec(delta: nat) -> ReorgBucket {
    if delta == 0 {
        ReorgBucket::Zero
    } else if delta <= 2 {
        ReorgBucket::Few
    } else {
        ReorgBucket::Many
    }
}

/// Law: the reorg class of a count: none for 0, few for 1 or 2, many above 2.
pub proof fn reorg_classes(delta: nat)
    ensures
        (reorg_bucket_spec(delta) == ReorgBucket::Zero) <==> delta == 0,
        (reorg_bucket_spec(delta) == ReorgBucket::Few) <==> (1 <= delta && delta <= 2),
        (reorg_bucket_spec(delta) == ReorgBucket::Many) <==> delta > 2,
{
}

/// Law: the reorg feature is zero exactly when no reorg event is reported,
/// and the feature flags are the events.
pub proof fn features_agree_with_events(prev: MetricsCtx, cur: MetricsCtx)
    ensures
        (reorg_bucket_spec(reorg_delta_spec(prev, cur)) == ReorgBucket::Zero) <==> !reorgs_increased(
            prev,
            cur,
        ),
{
}

/// The integer part of the scheduler's chain features: the position of the
/// head slot in its epoch (32 slots), the reorg class and the two flags.
#[derive(Clone, Copy, Debug)]
pub struct FeatureSignals {
    pub slot_in_epoch: Option<u64>,
    pub reorg_bucket: ReorgBucket,
    pub head_switch: bool,
    pub finalized_advanced: bool,
}

/// The integer signals that the features of `cur` are built from.
pub fn feature_signals(prev: &MetricsCtx, cur: &MetricsCtx) -> (f: FeatureSignals)
    ensures
        f.slot_in_epoch == (match cur.beacon.head_slot {
            Some(s) => Some((s % 32) as u64),
            None => None,
        }),
        f.reorg_bucket == reorg_bucket_spec(reorg_delta_spec(*prev, *cur)),
        (f.reorg_bucket == ReorgBucket::Few) <==> (match (prev.prom.reorg_count, cur.prom.reorg_count) {
            (Some(a), Some(b)) => a < b && b - a <= 2,
            _ => false,
        }),
        (f.reorg_bucket == ReorgBucket::Many) <==> (match (prev.prom.reorg_count, cur.prom.reorg_count) {
            (Some(a), Some(b)) => b - a > 2,
            _ => false,
        }),
        (f.reorg_bucket == ReorgBucket::Zero) <==> !reorgs_increased(*prev, *cur),
        (f.reorg_bucket == ReorgBucket::Zero) <==> (match (prev.prom.reorg_count, cur.prom.reorg_count) {
            (Some(a), Some(b)) => b <= a,
            _ => true,
        }),
        f.head_switch == head_switched(*prev, *cur),
        f.finalized_advanced == finality_advanced(*prev, *cur),
{
    let slot_in_epoch = match cur.beacon.head_slot {
        Some(s) => Some(s % 32),
        None => None,
    };
    let mut reorg_delta: u64 = 0;
    if let (Some(a), Some(b)) = (prev.prom.reorg_count, cur.prom.reorg_count) {
        if b > a {
            reorg_delta = b - a;
        }
    }
    let reorg_bucket = if reorg_delta == 0 {
        ReorgBucket::Zero
    } else if reorg_delta <= 2 {
        ReorgBucket::Few
    } else {
        ReorgBucket::Many
    };
    let d = delta_events(prev, cur);
    proof {
        reorg_classes(reorg_delta_spec(*prev, *cur));
    }
    FeatureSignals {
        slot_in_epoch,
        reorg_bucket,
        head_switch: d.head_switch,
        finalized_advanced: d.finalized_advanced,
    }
}

/// A beacon snapshot from the text fields of the node's answers: the head
/// slot, the head root, and the current-justified and finalized epochs; each
/// number is read as `str::parse::<u64>` reads it, and is absent where that fails.
pub fn beacon_snapshot_from_fields(
    slot: &str,
    root: String,
    justified_epoch: &str,
    finalized_epoch: &str,
) -> (b: BeaconSnapshot)
    ensures
        b.head_slot == parse_u64_spec(slot@),
        b.head_root == Some(root),
        b.justified_epoch == parse_u64_spec(justified_epoch@),
        b.finalized_epoch == parse_u64_spec(finalized_epoch@),
{
    BeaconSnapshot {
        head_slot: parse_u64_str(slot),
        head_root: Some(root),
        justified_epoch: parse_u64_str(justified_epoch),
        finalized_epoch: parse_u64_str(finalized_epoch),
    }
}

/// Address of the beacon node's head header, under the API base `api`.
pub fn beacon_head_url(api: &str) -> (u: String)
    ensures
        u@ == api@ + "/eth/v1/beacon/headers/head"@,
{
    concat_str(api, "/eth/v1/beacon/headers/head")
}

/// Address of the beacon node's finality checkpoints, under the API base `api`.
pub fn finality_checkpoints_url(api: &str) -> (u: String)
    ensures
        u@ == api@ + "/eth/v1/beacon/states/head/finality_checkpoints"@,
{
    concat_str(api, "/eth/v1/beacon/states/head/finality_checkpoints")
}

/// Address to scrape: `endpoint` itself where it ends with `/metrics`, else
/// `endpoint` followed by `/metrics`.
pub fn metrics_url(endpoint: &str) -> (u: String)
    ensures
        u@ == (if ends_with_chars(endpoint@, "/metrics"@) {
            endpoint@
        } else {
            endpoint@ + "/metrics"@
        }),
{
    if ends_with_str(endpoint, "/metrics") {
        String::from_str(endpoint)
    } else {
        concat_str(endpoint, "/metrics")
    }
}

/// The reorg counter that a metrics line reports, if it reports one: a line
/// that does not start with `#`, that mentions `reorg_count` or
/// `fork_choice_reorg`, and whose last white-space-separated token reads as a `u64`.
pub open spec fn reorg_line_value(l: Seq<char>) -> Option<u64> {
    if l.len() > 0 && l[0] == '#' {
        None
    } else if contains_chars(l, "reorg_count"@) || contains_chars(l, "fork_choice_reorg"@) {
        match last_token(l) {
            Some(t) => parse_u64_spec(t),
            None => None,
        }
    } else {
        None
    }
}

/// The value of the first line, from the line that starts at `start` on, that
/// reports a reorg counter. Lines end at `'\n'`; a `'\r'` before it is white
/// space and so never part of the last token.
pub open spec fn reorg_count_from(s: Seq<char>, start: int) -> Option<u64>
    decreases s.len() - start,
{
    if start < 0 || start > s.len() {
        None
    } else {
        let e = line_end(s, start);
        let v = reorg_line_value(s.subrange(start, e));
        if v is Some {
            v
        } else if start <= e < s.len() {
            reorg_count_from(s, e + 1)
        } else {
            None
        }
    }
}

proof fn lemma_line_end_of_first(first: Seq<char>, s: Seq<char>, i: int)
    requires
        0 <= i <= first.len(),
        first.len() < s.len(),
        s[first.len() as int] == '\n',
        forall|j: int| 0 <= j < first.len() ==> s[j] == first[j] && first[j] != '\n',
    ensures
        line_end(s, i) == first.len(),
    decreases first.len() - i,
{
    if i < first.len() {
        lemma_line_end_of_first(first, s, i + 1);
    }
}

/// Law: the first line that reports a reorg counter decides, whatever
/// follows it.
pub proof fn first_reporting_line_wins(first: Seq<char>, rest: Seq<char>)
    requires
        forall|j: int| 0 <= j < first.len() ==> first[j] != '\n',
        reorg_line_value(first) is Some,
    ensures
        reorg_count_from(first + seq!['\n'] + rest, 0) == reorg_line_value(first),
{
    let s = first + seq!['\n'] + rest;
    lemma_line_end_of_first(first, s, 0);
    assert(s.subrange(0, first.len() as int) =~= first);
}

/// Law: a comment line (one that starts with `#`) reports no counter.
pub proof fn comment_lines_report_nothing(l: Seq<char>)
    requires
        l.len() > 0,
        l[0] == '#',
    ensures
        reorg_line_value(l) is None,
{
}

/// The reorg count that a Prometheus metrics page reports: the value of its
/// first line that reports one.
pub fn reorg_count_from_metrics(text: &str) -> (r: Option<u64>)
    ensures
        r == reorg_count_from(text@, 0),
{
    let s = chars_of(text);
    let marker_a = chars_of("reorg_count");
    let marker_b = chars_of("fork_choice_reorg");
    let mut start: usize = 0;
    loop
        invariant
            start <= s@.len(),
            s@ == text@,
            marker_a@ == "reorg_count"@,
            marker_b@ == "fork_choice_reorg"@,
            reorg_count_from(s@, start as int) == reorg_count_from(s@, 0),
        decreases s@.len() - start,
    {
        let e = find_line_end(&s, start);
        let line = copy_range(&s, start, e);
        let mut v: Option<u64> = None;
        if !(line.len() > 0 && line[0] == '#') {
            if contains_seq(&line, &marker_a) || contains_seq(&line, &marker_b) {
                match last_token_bounds(&line) {
                    Some((b, t)) => {
                        v = parse_u64_range(&line, b, t);
                    },
                    None => {},
                }
            }
        }
        assert(v == reorg_line_value(line@));
        if v.is_some() {
            return v;
        }
        if e < s.len() {
            start = e + 1;
        } else {
            return None;
        }
    }
}

} // verus!
