use eth2fuzz::report::PruneRecord;

#[test]
fn prune_record_sums_merged() {
    let r = PruneRecord::new("t".to_string(), "attestation".to_string(), 10, 5, 7, "/o".to_string());
    assert_eq!(r.merged_count, 15);
    assert_eq!(r.kept_count, 7);
    assert_eq!(r.target, "t");
    assert_eq!(r.corpora_label, "attestation");
    assert_eq!(r.out_dir, "/o");
}
