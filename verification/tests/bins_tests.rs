use eth2fuzz::bins::{
    bin_for_rank, digests_of, first_by_digest, plan_sample, plan_size_bins, prune_plan, sample_positions, sort_by_size,
    tercile_cuts, unique_by_content, BinError, SizeBin,
};

#[test]
fn sort_by_size_is_stable() {
    assert_eq!(sort_by_size(&vec![5, 1, 5, 0]), vec![3, 1, 0, 2]);
    assert_eq!(sort_by_size(&vec![]), Vec::<usize>::new());
    assert_eq!(sort_by_size(&vec![7, 7, 7]), vec![0, 1, 2]);
    assert_eq!(sort_by_size(&vec![9, 8, 7, 6]), vec![3, 2, 1, 0]);
}

#[test]
fn tercile_cuts_match_float_floor() {
    for n in 0usize..5000 {
        let expected = ((n as f64 * 0.33).floor() as usize, (n as f64 * 0.66).floor() as usize);
        assert_eq!(tercile_cuts(n), expected, "n = {}", n);
    }
    assert_eq!(tercile_cuts(100), (33, 66));
    assert_eq!(tercile_cuts(3), (0, 1));
}

#[test]
fn bin_for_rank_uses_inclusive_cuts() {
    assert_eq!(bin_for_rank(0, 10), SizeBin::Small);
    assert_eq!(bin_for_rank(3, 10), SizeBin::Small);
    assert_eq!(bin_for_rank(4, 10), SizeBin::Medium);
    assert_eq!(bin_for_rank(6, 10), SizeBin::Medium);
    assert_eq!(bin_for_rank(7, 10), SizeBin::Large);
    assert_eq!(bin_for_rank(9, 10), SizeBin::Large);
}

#[test]
fn plan_size_bins_refuses_empty_corpus() {
    assert_eq!(plan_size_bins(&vec![]), Err(BinError::NoCorpusFiles));
}

#[test]
fn plan_size_bins_three_files() {
    let plan = plan_size_bins(&vec![30, 10, 20]).unwrap();
    assert_eq!(plan, vec![(1, SizeBin::Small), (2, SizeBin::Medium), (0, SizeBin::Large)]);
}

#[test]
fn plan_size_bins_smaller_never_in_larger_bin() {
    let sizes: Vec<u64> = vec![4, 100, 3, 3, 50, 7, 8, 1, 60, 2];
    let plan = plan_size_bins(&sizes).unwrap();
    let rank = |b: SizeBin| match b {
        SizeBin::Small => 0,
        SizeBin::Medium => 1,
        SizeBin::Large => 2,
    };
    for &(i, bi) in plan.iter() {
        for &(j, bj) in plan.iter() {
            if sizes[i] < sizes[j] {
                assert!(rank(bi) <= rank(bj));
            }
        }
    }
    assert_eq!(plan[0], (7, SizeBin::Small));
    assert_eq!(plan[9], (1, SizeBin::Large));
}

#[test]
fn sample_positions_examples() {
    assert_eq!(sample_positions(0, 128), Vec::<usize>::new());
    assert_eq!(sample_positions(10, 128), (0..10).collect::<Vec<usize>>());
    assert_eq!(sample_positions(100, 6), vec![0, 17, 34, 50, 66, 67]);
    assert_eq!(sample_positions(7, 3), vec![0, 3, 5]);
    assert_eq!(sample_positions(1, 5), vec![0]);
    assert_eq!(sample_positions(2, 0), Vec::<usize>::new());
    assert_eq!(sample_positions(50, 10), vec![0, 5, 10, 15, 17, 22, 27, 32, 34, 39]);
}

#[test]
fn sample_positions_bounded_and_ascending() {
    for n in 0usize..120 {
        for m in 0usize..20 {
            let p = sample_positions(n, m);
            assert!(p.len() <= m);
            assert!(p.windows(2).all(|w| w[0] < w[1]));
            assert!(p.iter().all(|&x| x < n));
        }
    }
}

#[test]
fn first_by_digest_keeps_first_of_each() {
    let d: Vec<Vec<u8>> = vec![vec![1], vec![2], vec![1], vec![3], vec![2]];
    assert_eq!(first_by_digest(&d), vec![0, 1, 3]);
    assert_eq!(first_by_digest(&vec![]), Vec::<usize>::new());
}

#[test]
fn unique_by_content_drops_duplicate_contents() {
    let c: Vec<Vec<u8>> = vec![b"a".to_vec(), b"b".to_vec(), b"a".to_vec(), b"".to_vec(), b"b".to_vec()];
    assert_eq!(unique_by_content(&c), vec![0, 1, 3]);
    let distinct: Vec<Vec<u8>> = vec![b"x".to_vec(), b"y".to_vec()];
    assert_eq!(unique_by_content(&distinct), vec![0, 1]);
}

#[test]
fn prune_plan_under_limit_keeps_all() {
    let p = prune_plan(5, 10);
    assert_eq!(p.keep, vec![0, 1, 2, 3, 4]);
    assert!(p.remove.is_empty());
    assert_eq!(p.reported, 5);
    let z = prune_plan(0, 0);
    assert!(z.keep.is_empty() && z.remove.is_empty());
    assert_eq!(z.reported, 0);
}

#[test]
fn prune_plan_over_limit_spreads_keeps() {
    let p = prune_plan(10, 3);
    assert_eq!(p.keep, vec![0, 3, 6]);
    assert_eq!(p.remove, vec![1, 2, 4, 5, 7, 8, 9]);
    assert_eq!(p.reported, 3);
    let q = prune_plan(7, 2);
    assert_eq!(q.keep, vec![0, 3]);
    assert_eq!(q.remove, vec![1, 2, 4, 5, 6]);
    assert_eq!(q.reported, 2);
}

#[test]
fn prune_plan_keeps_exactly_limit() {
    for n in 0usize..60 {
        for k in 1usize..15 {
            let p = prune_plan(n, k);
            assert_eq!(p.keep.len(), n.min(k));
            assert_eq!(p.keep.len() + p.remove.len(), n);
        }
    }
}

#[test]
fn plan_sample_maps_positions_through_size_order() {
    let sizes: Vec<u64> = vec![50, 10, 40, 20, 30, 60, 0];
    // size order: 6, 1, 3, 4, 2, 0, 5
    assert_eq!(plan_sample(&sizes, 3), vec![6, 4, 0]);
    assert_eq!(plan_sample(&sizes, 128), vec![6, 1, 3, 4, 2, 0, 5]);
    assert_eq!(plan_sample(&vec![], 3), Vec::<usize>::new());
}

#[test]
fn digests_are_sha256() {
    let d = digests_of(&vec![b"abc".to_vec(), Vec::new()]);
    let hex = |v: &Vec<u8>| v.iter().map(|b| format!("{:02x}", b)).collect::<String>();
    assert_eq!(hex(&d[0]), "ba7816bf8f01cfea414140de5dae2223b00361a396177a9cb410ff61f20015ad");
    assert_eq!(hex(&d[1]), "e3b0c44298fc1c149afbf4c8996fb92427ae41e4649b934ca495991b7852b855");
}
