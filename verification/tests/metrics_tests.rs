use eth2fuzz::metrics::{
    beacon_head_url, beacon_snapshot_from_fields, delta_events, feature_signals,
    finality_checkpoints_url, metrics_url, reorg_count_from_metrics, BeaconSnapshot, MetricsCtx,
    PromSnapshot, ReorgBucket, SegmentDelta,
};

fn ctx(root: Option<&str>, fin: Option<u64>, reorgs: Option<u64>, slot: Option<u64>) -> MetricsCtx {
    MetricsCtx {
        beacon: BeaconSnapshot {
            head_slot: slot,
            head_root: root.map(|r| r.to_string()),
            justified_epoch: None,
            finalized_epoch: fin,
        },
        prom: PromSnapshot { reorg_count: reorgs },
    }
}

#[test]
fn delta_events_reports_changes() {
    let prev = ctx(Some("0xaa"), Some(3), Some(1), Some(10));
    let cur = ctx(Some("0xbb"), Some(4), Some(2), Some(11));
    assert_eq!(
        delta_events(&prev, &cur),
        SegmentDelta { head_switch: true, finalized_advanced: true, reorg_increased: true }
    );
}

#[test]
fn delta_events_needs_both_snapshots() {
    let prev = ctx(None, None, None, None);
    let cur = ctx(Some("0xbb"), Some(4), Some(2), None);
    assert_eq!(delta_events(&prev, &cur), SegmentDelta::default());
    assert_eq!(delta_events(&cur, &cur), SegmentDelta::default());
    let back = ctx(Some("0xbb"), Some(3), Some(1), None);
    assert_eq!(delta_events(&cur, &back), SegmentDelta::default());
}

#[test]
fn feature_signals_buckets() {
    let prev = ctx(Some("a"), Some(1), Some(10), None);
    let few = ctx(Some("a"), Some(1), Some(12), Some(65));
    let many = ctx(Some("b"), Some(2), Some(13), Some(31));
    let f = feature_signals(&prev, &few);
    assert_eq!(f.reorg_bucket, ReorgBucket::Few);
    assert_eq!(f.slot_in_epoch, Some(1));
    assert!(!f.head_switch && !f.finalized_advanced);
    let g = feature_signals(&prev, &many);
    assert_eq!(g.reorg_bucket, ReorgBucket::Many);
    assert_eq!(g.slot_in_epoch, Some(31));
    assert!(g.head_switch && g.finalized_advanced);
    let h = feature_signals(&prev, &prev);
    assert_eq!(h.reorg_bucket, ReorgBucket::Zero);
    assert_eq!(h.slot_in_epoch, None);
}

#[test]
fn beacon_snapshot_parses_numbers() {
    let b = beacon_snapshot_from_fields("123", "0xab".to_string(), "+7", "x");
    assert_eq!(b.head_slot, Some(123));
    assert_eq!(b.head_root, Some("0xab".to_string()));
    assert_eq!(b.justified_epoch, Some(7));
    assert_eq!(b.finalized_epoch, None);
    let m = beacon_snapshot_from_fields("18446744073709551615", String::new(), "18446744073709551616", "");
    assert_eq!(m.head_slot, Some(u64::MAX));
    assert_eq!(m.justified_epoch, None);
    assert_eq!(m.finalized_epoch, None);
}

#[test]
fn urls() {
    assert_eq!(metrics_url("http://x:9090"), "http://x:9090/metrics");
    assert_eq!(metrics_url("http://x:9090/metrics"), "http://x:9090/metrics");
    assert_eq!(beacon_head_url("http://n:5052"), "http://n:5052/eth/v1/beacon/headers/head");
    assert_eq!(
        finality_checkpoints_url("http://n:5052"),
        "http://n:5052/eth/v1/beacon/states/head/finality_checkpoints"
    );
}

#[test]
fn reorg_count_from_metrics_examples() {
    let page = "# HELP reorg_count reorgs\n# TYPE reorg_count counter\nbeacon_fork_choice_reorg_total 5\n";
    assert_eq!(reorg_count_from_metrics(page), Some(5));
    let skip_bad = "reorg_count{a=\"b\"} NaN\nother 1\nreorg_count 3 \r\nreorg_count 4\n";
    assert_eq!(reorg_count_from_metrics(skip_bad), Some(3));
    assert_eq!(reorg_count_from_metrics("up 1\n"), None);
    assert_eq!(reorg_count_from_metrics(""), None);
    assert_eq!(reorg_count_from_metrics("reorg_count -1\nreorg_count +2"), Some(2));
}
