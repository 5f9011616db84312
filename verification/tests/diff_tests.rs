use eth2fuzz::diff::{
    attestation_comparable, compare_verdicts, split_discv5_input, state_root_verdict, DiffVerdict,
    StateRootMismatch,
};

const SPE: u64 = 32;
const DELAY: u64 = 1;
const ELECTRA: Option<u64> = Some(364032);

#[test]
fn verdict_comparison() {
    assert_eq!(compare_verdicts(true, None), DiffVerdict::NoOracle);
    assert_eq!(compare_verdicts(true, Some(true)), DiffVerdict::Agree);
    assert_eq!(compare_verdicts(false, Some(false)), DiffVerdict::Agree);
    assert_eq!(compare_verdicts(true, Some(false)), DiffVerdict::Mismatch);
    assert_eq!(compare_verdicts(false, Some(true)), DiffVerdict::Mismatch);
}

#[test]
fn attestation_window() {
    let att_slot = 1000u64;
    let epoch = att_slot / SPE;
    assert!(attestation_comparable(1001, att_slot, epoch, false, ELECTRA, SPE, DELAY));
    assert!(attestation_comparable(1032, att_slot, epoch, false, ELECTRA, SPE, DELAY));
    assert!(!attestation_comparable(1000, att_slot, epoch, false, ELECTRA, SPE, DELAY));
    assert!(!attestation_comparable(1033, att_slot, epoch, false, ELECTRA, SPE, DELAY));
    assert!(!attestation_comparable(1001, att_slot, epoch + 1, false, ELECTRA, SPE, DELAY));
    assert!(!attestation_comparable(1001, att_slot, epoch, true, ELECTRA, SPE, DELAY));
    assert!(!attestation_comparable(1001, att_slot, epoch, true, None, SPE, DELAY));
}

#[test]
fn attestation_fork_boundary() {
    let fork_slot = 364032u64 * SPE;
    let att_slot = fork_slot - 1;
    let epoch = att_slot / SPE;
    assert!(!attestation_comparable(fork_slot, att_slot, epoch, false, ELECTRA, SPE, DELAY));
    let e_slot = fork_slot + 3;
    assert!(attestation_comparable(e_slot + 1, e_slot, e_slot / SPE, true, ELECTRA, SPE, DELAY));
    assert!(!attestation_comparable(e_slot + 1, e_slot, e_slot / SPE, false, ELECTRA, SPE, DELAY));
    assert!(attestation_comparable(u64::MAX, u64::MAX, u64::MAX / SPE, false, None, SPE, DELAY));
}

#[test]
fn state_root_check() {
    let root = vec![7u8; 32];
    assert_eq!(state_root_verdict(false, &None, &root), Ok(()));
    assert_eq!(state_root_verdict(true, &Some(root.clone()), &root), Ok(()));
    assert_eq!(state_root_verdict(true, &Some(vec![8u8; 32]), &root), Err(StateRootMismatch));
    assert_eq!(state_root_verdict(true, &None, &root), Err(StateRootMismatch));
}

#[test]
fn discv5_split() {
    assert_eq!(split_discv5_input(&[0u8; 32]), None);
    let data: Vec<u8> = (0u8..40).collect();
    let (id, packet) = split_discv5_input(&data).unwrap();
    assert_eq!(id, (0u8..32).collect::<Vec<u8>>());
    assert_eq!(packet, (32u8..40).collect::<Vec<u8>>());
}
