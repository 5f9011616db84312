//! Bookkeeping of the scheduler: the arms it chooses between, how often each
//! was pulled, the time budget of a run, and the integer parts of its features.
use vstd::prelude::*;

use crate::text::{contains_chars, contains_str, occurs_at, same_chars};

verus! {

/// One arm of the scheduler: a fuzz target, optionally restricted to one size
/// bin of its corpus.
#[derive(Clone, Debug, PartialEq, Eq, Hash)]
pub struct ArmKey {
    pub target_name: String,
    pub bin_label: Option<String>,
}

/// The targets of `all` whose name contains `filter`, in order.
pub open spec fn matching_targets(all: Seq<String>, filter: Seq<char>) -> Seq<String>
    decreases all.len(),
{
    if all.len() == 0 {
        Seq::empty()
    } else {
        let rest = matching_targets(all.drop_last(), filter);
        if contains_chars(all.last()@, filter) {
            rest.push(all.last())
        } else {
            rest
        }
    }
}

/// Why no arm can be built.
#[derive(Clone, Copy, Debug, PartialEq, Eq, Structural)]
pub enum EngineError {
    /// No target name contains the filter.
    NoTargetMatch,
}

/// The targets whose name contains `filter`; refused when there is none.
pub fn filter_targets(all: &Vec<String>, filter: &str) -> (r: Result<Vec<String>, EngineError>)
    ensures
        r is Err <==> matching_targets(all@, filter@).len() == 0,
        r matches Ok(v) ==> v@ == matching_targets(all@, filter@),
        r matches Err(e) ==> e == EngineError::NoTargetMatch,
        r matches Ok(v) ==> forall|t: String|
            #[trigger] v@.contains(t) <==> (all@.contains(t) && contains_chars(t@, filter@)),
        r is Err <==> forall|i: int|
            0 <= i < all@.len() ==> !contains_chars((#[trigger] all@[i])@, filter@),
{
    proof {
        matching_targets_law(all@, filter@);
        let m = matching_targets(all@, filter@);
        if m.len() == 0 {
            assert forall|i: int| 0 <= i < all@.len() implies !contains_chars(
                (#[trigger] all@[i])@,
                filter@,
            ) by {
                assert(all@.contains(all@[i]));
                assert(!m.contains(all@[i]));
            }
        } else {
            assert(m.contains(m[0]));
            let j = choose|j: int| 0 <= j < all@.len() && all@[j] == m[0];
            assert(contains_chars(all@[j]@, filter@));
        }
    }
    let mut out: Vec<String> = Vec::new();
    let mut i: usize = 0;
    while i < all.len()
        invariant
            i <= all@.len(),
            out@ == matching_targets(all@.take(i as int), filter@),
        decreases all@.len() - i,
    {
        assert(all@.take(i as int + 1).drop_last() =~= all@.take(i as int));
        if contains_str(all[i].as_str(), filter) {
            out.push(all[i].clone());
        }
        i = i + 1;
    }
    assert(all@.take(all@.len() as int) =~= all@);
    if out.len() == 0 {
        Err(EngineError::NoTargetMatch)
    } else {
        Ok(out)
    }
}

/// The arms of one target: one per bin label where the target's corpus was
/// binned, else one arm over the whole corpus.
pub open spec fn arms_of_target(target: String, labels: Option<Vec<String>>) -> Seq<ArmKey> {
    match labels {
        Some(ls) => ls@.map_values(|l: String| ArmKey { target_name: target, bin_label: Some(l) }),
        None => seq![ArmKey { target_name: target, bin_label: None }],
    }
}

/// The arms of all targets, target by target.
pub open spec fn arms_spec(targets: Seq<String>, labels: Seq<Option<Vec<String>>>) -> Seq<ArmKey>
    decreases targets.len(),
{
    if targets.len() == 0 || labels.len() == 0 {
        Seq::empty()
    } else {
        arms_spec(targets.drop_last(), labels.drop_last()) + arms_of_target(
            targets.last(),
            labels.last(),
        )
    }
}

/// The arm of target `t` for bin label `l`, or over the whole corpus.
pub open spec fn arm_of(t: String, l: Option<String>) -> ArmKey {
    ArmKey { target_name: t, bin_label: l }
}

/// Law: the arms are exactly one per bin label of each binned target and one
/// over the whole corpus of each target that was not binned: every such arm
/// is built, and every arm built is one of them.
pub proof fn arms_cover_targets(targets: Seq<String>, labels: Seq<Option<Vec<String>>>)
    requires
        targets.len() == labels.len(),
    ensures
        forall|i: int|
            0 <= i < targets.len() && #[trigger] labels[i] is None ==> arms_spec(
                targets,
                labels,
            ).contains(arm_of(targets[i], None)),
        forall|i: int, j: int|
            0 <= i < targets.len() && labels[i] is Some && 0 <= j < labels[i]->0@.len()
                ==> arms_spec(targets, labels).contains(
                #[trigger] arm_of(targets[i], Some(labels[i]->0@[j])),
            ),
        forall|k: int|
            0 <= k < arms_spec(targets, labels).len() ==> exists|i: int|
                0 <= i < targets.len() && (#[trigger] arms_spec(targets, labels)[k]).target_name
                    == targets[i] && match labels[i] {
                    None => arms_spec(targets, labels)[k].bin_label is None,
                    Some(ls) => exists|j: int|
                        0 <= j < ls@.len() && arms_spec(targets, labels)[k].bin_label == Some(
                            ls@[j],
                        ),
                },
    decreases targets.len(),
{
    if targets.len() > 0 {
        let tp = targets.drop_last();
        let lp = labels.drop_last();
        arms_cover_targets(tp, lp);
        let prev = arms_spec(tp, lp);
        let last = arms_of_target(targets.last(), labels.last());
        let all = arms_spec(targets, labels);
        assert(all == prev + last);
        let n = targets.len() - 1;
        assert forall|i: int|
            0 <= i < targets.len() && #[trigger] labels[i] is None implies all.contains(
            arm_of(targets[i], None),
        ) by {
            if i < n {
                assert(tp[i] == targets[i] && lp[i] == labels[i]);
                assert(prev.contains(arm_of(tp[i], None)));
                let k = choose|k: int| 0 <= k < prev.len() && prev[k] == arm_of(tp[i], None);
                assert(all[k] == prev[k]);
            } else {
                assert(all[prev.len() as int] == last[0]);
            }
        }
        assert forall|i: int, j: int|
            0 <= i < targets.len() && labels[i] is Some && 0 <= j < labels[i]->0@.len()
                implies all.contains(#[trigger] arm_of(targets[i], Some(labels[i]->0@[j]))) by {
            let ls = labels[i]->0;
            if i < n {
                assert(tp[i] == targets[i] && lp[i] == labels[i]);
                assert(prev.contains(arm_of(tp[i], Some(ls@[j]))));
                let k = choose|k: int| 0 <= k < prev.len() && prev[k] == arm_of(tp[i], Some(ls@[j]));
                assert(all[k] == prev[k]);
            } else {
                assert(last[j] == arm_of(targets[i], Some(ls@[j])));
                assert(all[prev.len() + j] == last[j]);
            }
        }
        assert forall|k: int| 0 <= k < all.len() implies exists|i: int|
            0 <= i < targets.len() && (#[trigger] all[k]).target_name == targets[i] && match labels[i] {
                None => all[k].bin_label is None,
                Some(ls) => exists|j: int| 0 <= j < ls@.len() && all[k].bin_label == Some(ls@[j]),
            } by {
            if k < prev.len() {
                assert(all[k] == prev[k]);
                let i = choose|i: int|
                    0 <= i < tp.len() && (#[trigger] prev[k]).target_name == tp[i] && match lp[i] {
                        None => prev[k].bin_label is None,
                        Some(ls) => exists|j: int|
                            0 <= j < ls@.len() && prev[k].bin_label == Some(ls@[j]),
                    };
                assert(tp[i] == targets[i] && lp[i] == labels[i]);
            } else {
                let t = k - prev.len();
                assert(all[k] == last[t]);
                match labels[n] {
                    None => {},
                    Some(ls) => {
                        assert(last[t] == arm_of(targets[n], Some(ls@[t])));
                    },
                }
                assert(all[k].target_name == targets[n]);
            }
        }
    }
}

/// Builds the arms of `targets`, where `labels[i]` holds the bin labels of
/// target `i` if its corpus was binned.
pub fn build_arms(targets: &Vec<String>, labels: &Vec<Option<Vec<String>>>) -> (arms: Vec<ArmKey>)
    requires
        targets@.len() == labels@.len(),
    ensures
        arms@ == arms_spec(targets@, labels@),
        forall|i: int|
            0 <= i < targets@.len() && #[trigger] labels@[i] is None ==> arms@.contains(
                arm_of(targets@[i], None),
            ),
        forall|i: int, j: int|
            0 <= i < targets@.len() && labels@[i] is Some && 0 <= j < labels@[i]->0@.len()
                ==> arms@.contains(#[trigger] arm_of(targets@[i], Some(labels@[i]->0@[j]))),
        forall|k: int|
            0 <= k < arms@.len() ==> exists|i: int|
                0 <= i < targets@.len() && (#[trigger] arms@[k]).target_name == targets@[i]
                    && match labels@[i] {
                    None => arms@[k].bin_label is None,
                    Some(ls) => exists|j: int|
                        0 <= j < ls@.len() && arms@[k].bin_label == Some(ls@[j]),
                },
{
    proof {
        arms_cover_targets(targets@, labels@);
    }
    let mut arms: Vec<ArmKey> = Vec::new();
    let mut i: usize = 0;
    while i < targets.len()
        invariant
            targets@.len() == labels@.len(),
            i <= targets@.len(),
            arms@ == arms_spec(targets@.take(i as int), labels@.take(i as int)),
        decreases targets@.len() - i,
    {
        assert(targets@.take(i as int + 1).drop_last() =~= targets@.take(i as int));
        assert(labels@.take(i as int + 1).drop_last() =~= labels@.take(i as int));
        let ghost before = arms@;
        match &labels[i] {
            Some(ls) => {
                let mut k: usize = 0;
                while k < ls.len()
                    invariant
                        k <= ls@.len(),
                        i < targets@.len(),
                        arms@ == before + ls@.take(k as int).map_values(
                            |l: String| ArmKey { target_name: targets@[i as int], bin_label: Some(l) },
                        ),
                    decreases ls@.len() - k,
                {
                    arms.push(ArmKey { target_name: targets[i].clone(), bin_label: Some(ls[k].clone()) });
                    assert(arms@ =~= before + ls@.take(k as int + 1).map_values(
                        |l: String| ArmKey { target_name: targets@[i as int], bin_label: Some(l) },
                    ));
                    k = k + 1;
                }
                assert(ls@.take(ls@.len() as int) =~= ls@);
            },
            None => {
                arms.push(ArmKey { target_name: targets[i].clone(), bin_label: None });
            },
        }
        assert(arms@ =~= arms_spec(targets@.take(i as int + 1), labels@.take(i as int + 1)));
        i = i + 1;
    }
    assert(targets@.take(targets@.len() as int) =~= targets@);
    assert(labels@.take(labels@.len() as int) =~= labels@);
    arms
}

/// The first arm that was never pulled, if any.
pub fn first_untried_arm(pulls: &Vec<u64>) -> (r: Option<usize>)
    ensures
        match r {
            Some(i) => i < pulls@.len() && pulls@[i as int] == 0 && forall|j: int|
                0 <= j < i ==> pulls@[j] > 0,
            None => forall|j: int| 0 <= j < pulls@.len() ==> pulls@[j] > 0,
        },
{
    let mut i: usize = 0;
    while i < pulls.len()
        invariant
            i <= pulls@.len(),
            forall|j: int| 0 <= j < i ==> pulls@[j] > 0,
        decreases pulls@.len() - i,
    {
        if pulls[i] == 0 {
            return Some(i);
        }
        i = i + 1;
    }
    None
}

/// Sum of a list of pull counts.
pub open spec fn sum_pulls(pulls: Seq<u64>) -> nat
    decreases pulls.len(),
{
    if pulls.len() == 0 {
        0
    } else {
        sum_pulls(pulls.drop_last()) + pulls.last() as nat
    }
}

/// Total number of pulls over all arms; `None` where the total exceeds
/// `u64::MAX` (an overflow of the sum).
pub fn total_pulls(pulls: &Vec<u64>) -> (t: Option<u64>)
    ensures
        t is Some <==> sum_pulls(pulls@) <= u64::MAX,
        t matches Some(v) ==> v == sum_pulls(pulls@),
{
    let mut t: u64 = 0;
    let mut i: usize = 0;
    while i < pulls.len()
        invariant
            i <= pulls@.len(),
            t == sum_pulls(pulls@.take(i as int)),
        decreases pulls@.len() - i,
    {
        assert(pulls@.take(i as int + 1).drop_last() =~= pulls@.take(i as int));
        proof {
            lemma_sum_pulls_prefix(pulls@, i as int + 1);
        }
        if t > u64::MAX - pulls[i] {
            return None;
        }
        t = t + pulls[i];
        i = i + 1;
    }
    assert(pulls@.take(pulls@.len() as int) =~= pulls@);
    Some(t)
}

proof fn lemma_sum_pulls_prefix(s: Seq<u64>, k: int)
    requires
        0 <= k <= s.len(),
    ensures
        sum_pulls(s.take(k)) <= sum_pulls(s),
    decreases s.len() - k,
{
    if k < s.len() {
        lemma_sum_pulls_prefix(s, k + 1);
        assert(s.take(k + 1).drop_last() =~= s.take(k));
    } else {
        assert(s.take(k) =~= s);
    }
}

/// Counts one more pull of arm `idx`. A count at `u64::MAX` overflows, which
/// the requirement rules out.
pub fn record_pull(pulls: &mut Vec<u64>, idx: usize)
    requires
        idx < old(pulls)@.len(),
        old(pulls)@[idx as int] < u64::MAX,
    ensures
        final(pulls)@ == old(pulls)@.update(idx as int, (old(pulls)@[idx as int] + 1) as u64),
{
    let c = pulls[idx];
    pulls.set(idx, c + 1);
}

/// Law: counting a pull of one arm adds exactly one to the total over all arms.
pub proof fn record_pull_adds_one(pulls: Seq<u64>, idx: int)
    requires
        0 <= idx < pulls.len(),
        pulls[idx] < u64::MAX,
    ensures
        sum_pulls(pulls.update(idx, (pulls[idx] + 1) as u64)) == sum_pulls(pulls) + 1,
    decreases pulls.len(),
{
    let u = pulls.update(idx, (pulls[idx] + 1) as u64);
    if idx == pulls.len() - 1 {
        assert(u.drop_last() =~= pulls.drop_last());
    } else {
        record_pull_adds_one(pulls.drop_last(), idx);
        assert(u.drop_last() =~= pulls.drop_last().update(idx, (pulls[idx] + 1) as u64));
    }
}

/// Law: from no pulls at all, every arm is tried once, in order, before any
/// is tried again. When arms `0..k` have one pull each and the others none,
/// arm `k` is the first untried arm (what `first_untried_arm` returns), and
/// counting its pull gives the same picture for `k + 1`.
pub proof fn untried_arms_come_first(pulls: Seq<u64>, k: int)
    requires
        0 <= k < pulls.len(),
        forall|j: int| 0 <= j < k ==> pulls[j] == 1,
        forall|j: int| k <= j < pulls.len() ==> pulls[j] == 0,
    ensures
        pulls[k] == 0,
        forall|j: int| 0 <= j < k ==> pulls[j] > 0,
        forall|j: int| 0 <= j <= k ==> #[trigger] pulls.update(k, 1u64)[j] == 1,
        forall|j: int| k < j < pulls.len() ==> #[trigger] pulls.update(k, 1u64)[j] == 0,
{
}

/// Index of a corpus kind in the scheduler's one-hot kind feature.
pub open spec fn kind_index_spec(label: Seq<char>) -> usize {
    if label == "attestation"@ {
        0
    } else if label == "attester_slashing"@ {
        1
    } else if label == "block"@ {
        2
    } else if label == "block_header"@ {
        3
    } else if label == "deposit"@ {
        4
    } else if label == "proposer_slashing"@ {
        5
    } else if label == "voluntary_exit"@ {
        6
    } else if label == "enr"@ {
        7
    } else if label == "bls"@ {
        8
    } else {
        9
    }
}

/// Index of the corpus kind `label` in the one-hot kind feature; unknown
/// kinds share the last slot with `discv5_packet`.
pub fn corpora_kind_index(label: &str) -> (k: usize)
    ensures
        k == kind_index_spec(label@),
        k < 10,
{
    if same_chars(label, "attestation") {
        0
    } else if same_chars(label, "attester_slashing") {
        1
    } else if same_chars(label, "block") {
        2
    } else if same_chars(label, "block_header") {
        3
    } else if same_chars(label, "deposit") {
        4
    } else if same_chars(label, "proposer_slashing") {
        5
    } else if same_chars(label, "voluntary_exit") {
        6
    } else if same_chars(label, "enr") {
        7
    } else if same_chars(label, "bls") {
        8
    } else {
        9
    }
}

/// Index of a bin label in the scheduler's one-hot bin feature.
pub open spec fn bin_index_spec(label: Option<String>) -> usize {
    match label {
        Some(l) => if l@ == "small"@ {
            0
        } else if l@ == "medium"@ {
            1
        } else if l@ == "large"@ {
            2
        } else {
            3
        },
        None => 3,
    }
}

/// Index of an arm's bin in the one-hot bin feature: small, medium, large,
/// then one slot for an arm over the whole corpus (or an unknown label).
pub fn bin_one_hot_index(label: &Option<String>) -> (k: usize)
    ensures
        k == bin_index_spec(*label),
        k < 4,
{
    match label {
        Some(l) => if same_chars(l.as_str(), "small") {
            0
        } else if same_chars(l.as_str(), "medium") {
            1
        } else if same_chars(l.as_str(), "large") {
            2
        } else {
            3
        },
        None => 3,
    }
}

/// Length of an arm's feature vector: 10 kind slots, 4 bin slots, 4 arm
/// statistics and 12 chain features.
pub fn feature_dim() -> (d: usize)
    ensures
        d == 30,
{
    10 + 4 + 4 + 12
}

/// The context bias applies: the chain is near an epoch boundary, switched
/// heads or reorganised, and the arm fuzzes attestations (kind 0) or block
/// headers (kind 3).
pub open spec fn context_boost_spec(kind: usize, near_boundary: bool, head_switch: bool, reorg: bool) -> bool {
    (near_boundary || head_switch || reorg) && (kind == 0 || kind == 3)
}

/// Law: only attestation arms (kind 0) and block-header arms (kind 3) get the
/// bias, and they get it exactly when one of the three chain signals is on.
pub proof fn context_boost_only_for_attestations_and_headers(
    kind: usize,
    near_boundary: bool,
    head_switch: bool,
    reorg: bool,
)
    ensures
        context_boost_spec(kind, near_boundary, head_switch, reorg) ==> kind == 0 || kind == 3,
        kind != 0 && kind != 3 ==> !context_boost_spec(kind, near_boundary, head_switch, reorg),
        !near_boundary && !head_switch && !reorg ==> !context_boost_spec(
            kind,
            near_boundary,
            head_switch,
            reorg,
        ),
        (kind == 0 || kind == 3) && (near_boundary || head_switch || reorg) ==> context_boost_spec(
            kind,
            near_boundary,
            head_switch,
            reorg,
        ),
        context_boost_spec(kind, near_boundary, head_switch, reorg) ==> kind_index_spec(
            "attestation"@,
        ) == kind || kind_index_spec("block_header"@) == kind,
{
    reveal_strlit("attestation");
    reveal_strlit("block_header");
    reveal_strlit("attester_slashing");
    reveal_strlit("block");
    assert("block_header"@.len() == 12);
    assert("attestation"@.len() == 11);
    assert("attester_slashing"@.len() == 17);
    assert("block"@.len() == 5);
    assert("block_header"@ != "attestation"@);
    assert("block_header"@ != "attester_slashing"@);
    assert("block_header"@ != "block"@);
    assert(kind_index_spec("attestation"@) == 0);
    assert(kind_index_spec("block_header"@) == 3);
}

/// Whether an arm of corpus kind `kind` gets the context bias.
pub fn context_boost_applies(kind: usize, near_boundary: bool, head_switch: bool, reorg: bool) -> (b: bool)
    ensures
        b == context_boost_spec(kind, near_boundary, head_switch, reorg),
        b ==> kind == 0 || kind == 3,
        b ==> near_boundary || head_switch || reorg,
        (kind == 0 || kind == 3) && (near_boundary || head_switch || reorg) ==> b,
{
    proof {
        context_boost_only_for_attestations_and_headers(kind, near_boundary, head_switch, reorg);
    }
    (near_boundary || head_switch || reorg) && (kind == 0 || kind == 3)
}

/// The time left of a run, in seconds.
pub struct SegmentBudget {
    pub remaining: i32,
}

impl SegmentBudget {
    /// A budget of `total_seconds`, none if that is negative.
    pub fn new(total_seconds: i32) -> (b: Self)
        ensures
            b.remaining == if total_seconds > 0 {
                total_seconds
            } else {
                0
            },
    {
        SegmentBudget { remaining: if total_seconds > 0 { total_seconds } else { 0 } }
    }

    /// Whether another segment runs.
    pub fn has_time(&self) -> (b: bool)
        ensures
            b == (self.remaining > 0),
    {
        self.remaining > 0
    }

    /// Charges one segment of `segment_seconds`. A segment of no time would
    /// never end a run, which the requirement rules out.
    pub fn spend(&mut self, segment_seconds: i32)
        requires
            old(self).remaining > 0,
            segment_seconds > 0,
        ensures
            final(self).remaining == old(self).remaining - segment_seconds,
    {
        self.remaining = self.remaining - segment_seconds;
    }
}

/// How many segments of `segment` seconds a budget of `remaining` seconds runs.
pub open spec fn segments_run(remaining: int, segment: int) -> nat
    decreases (if remaining > 0 {
        remaining
    } else {
        0
    }),
{
    if remaining <= 0 || segment <= 0 {
        0
    } else {
        1 + segments_run(remaining - segment, segment)
    }
}

/// Law: a run of `total_seconds` in segments of `segment_seconds` runs
/// `ceil(total_seconds / segment_seconds)` segments, none if the total is not positive.
pub proof fn segments_of_run(total_seconds: int, segment_seconds: int)
    requires
        segment_seconds > 0,
    ensures
        segments_run(total_seconds, segment_seconds) == if total_seconds > 0 {
            (total_seconds + segment_seconds - 1) / segment_seconds
        } else {
            0
        },
    decreases (if total_seconds > 0 {
        total_seconds
    } else {
        0
    }),
{
    if total_seconds > 0 {
        segments_of_run(total_seconds - segment_seconds, segment_seconds);
        let r = total_seconds;
        let s = segment_seconds;
        if r - s > 0 {
            assert((r - s + s - 1) / s + 1 == (r + s - 1) / s) by (nonlinear_arith)
                requires
                    s > 0,
            {
                assert(r + s - 1 == (r - s + s - 1) + s);
            }
        } else {
            assert((r + s - 1) / s == 1) by (nonlinear_arith)
                requires
                    s > 0,
                    0 < r <= s,
            ;
        }
    }
}

/// The last `keep` items of `s` (all of it when it is shorter).
pub open spec fn last_items<T>(s: Seq<T>, keep: int) -> Seq<T> {
    if s.len() > keep {
        s.subrange(s.len() - keep, s.len() as int)
    } else {
        s
    }
}

/// Law: keeping the last `keep` items leaves `min(len, keep)` items, and
/// doing it again changes nothing.
pub proof fn last_items_law<T>(s: Seq<T>, keep: int)
    requires
        keep >= 0,
    ensures
        last_items(s, keep).len() == if s.len() > keep {
            keep
        } else {
            s.len() as int
        },
        last_items(last_items(s, keep), keep) == last_items(s, keep),
{
}

/// Law: the targets kept are exactly those whose name contains the filter;
/// the empty filter keeps every target.
pub proof fn matching_targets_law(all: Seq<String>, filter: Seq<char>)
    ensures
        forall|t: String|
            #[trigger] matching_targets(all, filter).contains(t) <==> (all.contains(t)
                && contains_chars(t@, filter)),
        filter.len() == 0 ==> matching_targets(all, filter) == all,
    decreases all.len(),
{
    if all.len() > 0 {
        let rest = all.drop_last();
        matching_targets_law(rest, filter);
        let m = matching_targets(all, filter);
        let mr = matching_targets(rest, filter);
        assert forall|t: String| #[trigger] m.contains(t) <==> (all.contains(t) && contains_chars(t@, filter)) by {
            if m.contains(t) {
                let k = choose|k: int| 0 <= k < m.len() && m[k] == t;
                if k < mr.len() {
                    assert(mr[k] == t);
                    assert(mr.contains(t));
                    let j = choose|j: int| 0 <= j < rest.len() && rest[j] == t;
                    assert(all[j] == t);
                } else {
                    assert(all[all.len() - 1] == t);
                }
            }
            if all.contains(t) && contains_chars(t@, filter) {
                let j = choose|j: int| 0 <= j < all.len() && all[j] == t;
                if j < all.len() - 1 {
                    assert(rest[j] == t);
                    assert(rest.contains(t));
                    assert(mr.contains(t));
                    let k = choose|k: int| 0 <= k < mr.len() && mr[k] == t;
                    assert(m[k] == t);
                } else {
                    assert(m[m.len() - 1] == t);
                }
            }
        }
        if filter.len() == 0 {
            assert(all.last()@.subrange(0, 0) =~= filter);
            assert(occurs_at(all.last()@, 0, filter));
            assert(all =~= rest.push(all.last()));
        }
    }
}

/// Keeps only the last `keep` items of `v`.
pub fn retain_last<T>(v: &mut Vec<T>, keep: usize)
    ensures
        final(v)@ == last_items(old(v)@, keep as int),
        final(v)@.len() == if old(v)@.len() > keep {
            keep as int
        } else {
            old(v)@.len() as int
        },
        forall|i: int|
            0 <= i < final(v)@.len() ==> #[trigger] final(v)@[i] == old(v)@[old(v)@.len()
                - final(v)@.len() + i],
{
    let n = v.len();
    if n > keep {
        let tail = v.split_off(n - keep);
        *v = tail;
    }
}

/// The lowercase form of a string, as `str::to_lowercase` computes it.
pub uninterp spec fn lowercase_spec(s: Seq<char>) -> Seq<char>;

/// `str::to_lowercase`. Trusted: the result is `lowercase_spec` of the input;
/// nothing more is claimed of the Unicode case mapping.
#[verifier::external_body]
fn to_lowercase(s: &str) -> (r: String)
    ensures
        r@ == lowercase_spec(s@),
{
    s.to_lowercase()
}

/// Whether a scheduling mode selects the PPO policy: its lowercase form contains `ppo`.
pub fn is_ppo_mode(mode: &str) -> (b: bool)
    ensures
        b == contains_chars(lowercase_spec(mode@), "ppo"@),
{
    let lower = to_lowercase(mode);
    contains_str(lower.as_str(), "ppo")
}

} // verus!
