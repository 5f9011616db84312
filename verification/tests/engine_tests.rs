use eth2fuzz::config::{default_mode, default_save_policy, default_use_bins};
use eth2fuzz::engine::{
    bin_one_hot_index, build_arms, context_boost_applies, corpora_kind_index, feature_dim,
    filter_targets, first_untried_arm, is_ppo_mode, record_pull, retain_last, total_pulls,
    ArmKey, EngineError, SegmentBudget,
};
use eth2fuzz::text::{contains_str, parse_u64_str};

fn names(v: &[&str]) -> Vec<String> {
    v.iter().map(|s| s.to_string()).collect()
}

#[test]
fn defaults() {
    assert_eq!(default_mode(), "Bandit");
    assert!(default_use_bins());
    assert!(default_save_policy());
}

#[test]
fn filter_targets_by_substring() {
    let all = names(&["lighthouse_attestation", "lighthouse_block", "diff_lighthouse_grandine_block_header"]);
    assert_eq!(filter_targets(&all, "diff_").unwrap(), names(&["diff_lighthouse_grandine_block_header"]));
    assert_eq!(filter_targets(&all, "block").unwrap().len(), 2);
    assert_eq!(filter_targets(&all, "").unwrap(), all);
    assert_eq!(filter_targets(&all, "prysm"), Err(EngineError::NoTargetMatch));
}

#[test]
fn build_arms_per_bin_or_whole() {
    let targets = names(&["a", "b"]);
    let labels = vec![Some(names(&["small", "medium", "large"])), None];
    let arms = build_arms(&targets, &labels);
    assert_eq!(arms.len(), 4);
    assert_eq!(arms[0], ArmKey { target_name: "a".to_string(), bin_label: Some("small".to_string()) });
    assert_eq!(arms[2], ArmKey { target_name: "a".to_string(), bin_label: Some("large".to_string()) });
    assert_eq!(arms[3], ArmKey { target_name: "b".to_string(), bin_label: None });
}

#[test]
fn pulls_bookkeeping() {
    let mut pulls = vec![0u64, 0, 0];
    assert_eq!(first_untried_arm(&pulls), Some(0));
    record_pull(&mut pulls, 0);
    assert_eq!(first_untried_arm(&pulls), Some(1));
    record_pull(&mut pulls, 1);
    record_pull(&mut pulls, 2);
    assert_eq!(first_untried_arm(&pulls), None);
    record_pull(&mut pulls, 2);
    assert_eq!(pulls, vec![1, 1, 2]);
    assert_eq!(total_pulls(&pulls), Some(4));
    assert_eq!(total_pulls(&vec![u64::MAX, 1]), None);
    assert_eq!(total_pulls(&vec![u64::MAX, 0]), Some(u64::MAX));
    assert_eq!(total_pulls(&vec![]), Some(0));
}

#[test]
fn kind_and_bin_indices() {
    assert_eq!(corpora_kind_index("attestation"), 0);
    assert_eq!(corpora_kind_index("block_header"), 3);
    assert_eq!(corpora_kind_index("bls"), 8);
    assert_eq!(corpora_kind_index("discv5_packet"), 9);
    assert_eq!(corpora_kind_index("beaconstate"), 9);
    assert_eq!(bin_one_hot_index(&Some("small".to_string())), 0);
    assert_eq!(bin_one_hot_index(&Some("medium".to_string())), 1);
    assert_eq!(bin_one_hot_index(&Some("large".to_string())), 2);
    assert_eq!(bin_one_hot_index(&Some("tiny".to_string())), 3);
    assert_eq!(bin_one_hot_index(&None), 3);
    assert_eq!(feature_dim(), 30);
}

#[test]
fn context_boost() {
    assert!(context_boost_applies(0, true, false, false));
    assert!(context_boost_applies(3, false, true, false));
    assert!(context_boost_applies(3, false, false, true));
    assert!(!context_boost_applies(3, false, false, false));
    assert!(!context_boost_applies(2, true, true, true));
}

#[test]
fn budget_runs_ceil_segments() {
    for (total, seg, expected) in [(60, 10, 6), (61, 10, 7), (5, 10, 1), (0, 10, 0), (-5, 10, 0)] {
        let mut b = SegmentBudget::new(total);
        let mut n = 0;
        while b.has_time() {
            b.spend(seg);
            n += 1;
        }
        assert_eq!(n, expected);
    }
}

#[test]
fn retain_last_keeps_tail() {
    let mut v: Vec<u32> = (0..12).collect();
    retain_last(&mut v, 8);
    assert_eq!(v, (4..12).collect::<Vec<u32>>());
    retain_last(&mut v, 8);
    assert_eq!(v.len(), 8);
    let mut w = vec![1, 2];
    retain_last(&mut w, 8);
    assert_eq!(w, vec![1, 2]);
}

#[test]
fn ppo_mode_is_case_insensitive() {
    assert!(is_ppo_mode("PPO"));
    assert!(is_ppo_mode("ppo-v2"));
    assert!(is_ppo_mode("MyPpO"));
    assert!(!is_ppo_mode("Bandit"));
    assert!(!is_ppo_mode("pp o"));
}

#[test]
fn text_helpers() {
    assert!(contains_str("abc", ""));
    assert!(contains_str("abc", "bc"));
    assert!(!contains_str("ab", "abc"));
    assert_eq!(parse_u64_str("0"), Some(0));
    assert_eq!(parse_u64_str("007"), Some(7));
    assert_eq!(parse_u64_str("+"), None);
    assert_eq!(parse_u64_str("-1"), None);
    assert_eq!(parse_u64_str(" 1"), None);
    for s in ["", "1a", "99999999999999999999", "+5", "12", "++1"] {
        assert_eq!(parse_u64_str(s), s.parse::<u64>().ok(), "{:?}", s);
    }
}
