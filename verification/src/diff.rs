//! Decisions of the differential harnesses that run one input through two
//! consensus clients (Lighthouse and Grandine) and compare their verdicts.
//!
//! The clients themselves are called by the harness programs; this module
//! holds what they decide around those calls, on plain values.
use vstd::prelude::*;

use vstd::slice::slice_subrange;
use vstd::slice::slice_to_vec;

use crate::text::same_bytes;

verus! {

/// How the verdicts of the two clients on one input compare.
#[derive(Clone, Copy, Debug, PartialEq, Eq, Structural)]
pub enum DiffVerdict {
    /// The second client gave no verdict; nothing is compared.
    NoOracle,
    /// Both clients accept, or both reject.
    Agree,
    /// One client accepts what the other rejects: a finding.
    Mismatch,
}

/// Compares Lighthouse's verdict with Grandine's, when Grandine gave one.
pub fn compare_verdicts(lighthouse_ok: bool, grandine_ok: Option<bool>) -> (v: DiffVerdict)
    ensures
        v == (match grandine_ok {
            None => DiffVerdict::NoOracle,
            Some(g) => if g == lighthouse_ok {
                DiffVerdict::Agree
            } else {
                DiffVerdict::Mismatch
            },
        }),
{
    match grandine_ok {
        None => DiffVerdict::NoOracle,
        Some(g) => if g == lighthouse_ok {
            DiffVerdict::Agree
        } else {
            DiffVerdict::Mismatch
        },
    }
}

/// `a + b`, or `u64::MAX` where that overflows.
pub open spec fn saturating_add_spec(a: u64, b: u64) -> u64 {
    if a + b > u64::MAX {
        u64::MAX
    } else {
        (a + b) as u64
    }
}

/// Whether the epoch of `slot` is at or after the Electra fork, where the
/// chain configuration schedules one.
pub open spec fn is_electra_at(slot: u64, electra_fork_epoch: Option<u64>, slots_per_epoch: u64) -> bool {
    match electra_fork_epoch {
        Some(e) => slot / slots_per_epoch >= e,
        None => false,
    }
}

/// An attestation is compared only where both clients judge it under the same
/// rules: the state and the attestation slot are in the same fork, the
/// attestation's variant is that fork's, the state slot is within
/// `[att_slot + min_inclusion_delay, att_slot + slots_per_epoch]` (each bound
/// saturating), and the target epoch is the epoch of the attestation slot.
pub open spec fn attestation_comparable_spec(
    state_slot: u64,
    att_slot: u64,
    att_target_epoch: u64,
    att_is_electra_variant: bool,
    electra_fork_epoch: Option<u64>,
    slots_per_epoch: u64,
    min_inclusion_delay: u64,
) -> bool {
    let state_is_electra = is_electra_at(state_slot, electra_fork_epoch, slots_per_epoch);
    let att_is_electra = is_electra_at(att_slot, electra_fork_epoch, slots_per_epoch);
    &&& state_is_electra == att_is_electra
    &&& att_is_electra_variant == att_is_electra
    &&& saturating_add_spec(att_slot, min_inclusion_delay) <= state_slot
    &&& state_slot <= saturating_add_spec(att_slot, slots_per_epoch)
    &&& att_target_epoch == att_slot / slots_per_epoch
}

/// Law: an attestation is compared only if its target epoch is exactly the
/// epoch of its slot (an earlier or later target is skipped), the state slot
/// is no earlier than the attestation slot plus the inclusion delay (unless
/// that sum overflows) and no later than one epoch after it, and the
/// attestation's variant and the state agree with the fork of its slot.
pub proof fn attestation_comparison_gates(
    state_slot: u64,
    att_slot: u64,
    att_target_epoch: u64,
    att_is_electra_variant: bool,
    electra_fork_epoch: Option<u64>,
    slots_per_epoch: u64,
    min_inclusion_delay: u64,
)
    requires
        slots_per_epoch > 0,
    ensures
        attestation_comparable_spec(
            state_slot,
            att_slot,
            att_target_epoch,
            att_is_electra_variant,
            electra_fork_epoch,
            slots_per_epoch,
            min_inclusion_delay,
        ) ==> {
            &&& att_target_epoch == att_slot / slots_per_epoch
            &&& att_slot <= state_slot
            &&& state_slot as int <= att_slot as int + slots_per_epoch as int
            &&& (att_slot as int + min_inclusion_delay as int <= state_slot || att_slot as int
                + min_inclusion_delay as int > u64::MAX)
            &&& (att_is_electra_variant <==> is_electra_at(
                att_slot,
                electra_fork_epoch,
                slots_per_epoch,
            ))
            &&& (is_electra_at(state_slot, electra_fork_epoch, slots_per_epoch) <==> is_electra_at(
                att_slot,
                electra_fork_epoch,
                slots_per_epoch,
            ))
        },
        att_target_epoch != att_slot / slots_per_epoch ==> !attestation_comparable_spec(
            state_slot,
            att_slot,
            att_target_epoch,
            att_is_electra_variant,
            electra_fork_epoch,
            slots_per_epoch,
            min_inclusion_delay,
        ),
{
}

/// Whether the attestation harness compares the clients on an attestation
/// (`attestation_comparable_spec`). Epochs divide slots by `slots_per_epoch`,
/// which must not be 0 (a division by zero).
pub fn attestation_comparable(
    state_slot: u64,
    att_slot: u64,
    att_target_epoch: u64,
    att_is_electra_variant: bool,
    electra_fork_epoch: Option<u64>,
    slots_per_epoch: u64,
    min_inclusion_delay: u64,
) -> (b: bool)
    requires
        slots_per_epoch > 0,
    ensures
        b == attestation_comparable_spec(
            state_slot,
            att_slot,
            att_target_epoch,
            att_is_electra_variant,
            electra_fork_epoch,
            slots_per_epoch,
            min_inclusion_delay,
        ),
        b ==> att_target_epoch == att_slot / slots_per_epoch,
        b ==> att_slot <= state_slot,
        b ==> state_slot as int <= att_slot as int + slots_per_epoch as int,
        b ==> att_slot as int + min_inclusion_delay as int <= state_slot || att_slot as int
            + min_inclusion_delay as int > u64::MAX,
        b ==> (att_is_electra_variant <==> is_electra_at(
            att_slot,
            electra_fork_epoch,
            slots_per_epoch,
        )),
        b ==> (is_electra_at(state_slot, electra_fork_epoch, slots_per_epoch) <==> is_electra_at(
            att_slot,
            electra_fork_epoch,
            slots_per_epoch,
        )),
        ({
            let att_fork = match electra_fork_epoch {
                Some(e) => att_slot / slots_per_epoch >= e,
                None => false,
            };
            let state_fork = match electra_fork_epoch {
                Some(e) => state_slot / slots_per_epoch >= e,
                None => false,
            };
            &&& att_target_epoch == att_slot / slots_per_epoch
            &&& (if att_slot + min_inclusion_delay > u64::MAX {
                u64::MAX as int
            } else {
                att_slot + min_inclusion_delay
            }) <= state_slot
            &&& state_slot <= (if att_slot + slots_per_epoch > u64::MAX {
                u64::MAX as int
            } else {
                att_slot + slots_per_epoch
            })
            &&& att_is_electra_variant == att_fork
            &&& state_fork == att_fork
        }) ==> b,
{
    proof {
        attestation_comparison_gates(
            state_slot,
            att_slot,
            att_target_epoch,
            att_is_electra_variant,
            electra_fork_epoch,
            slots_per_epoch,
            min_inclusion_delay,
        );
    }
    let att_epoch = att_slot / slots_per_epoch;
    let state_epoch = state_slot / slots_per_epoch;
    let state_is_electra = match electra_fork_epoch {
        Some(e) => state_epoch >= e,
        None => false,
    };
    let att_is_electra = match electra_fork_epoch {
        Some(e) => att_epoch >= e,
        None => false,
    };
    if state_is_electra != att_is_electra {
        return false;
    }
    if att_is_electra_variant != att_is_electra {
        return false;
    }
    let low = att_slot.saturating_add(min_inclusion_delay);
    let high = att_slot.saturating_add(slots_per_epoch);
    if state_slot < low || state_slot > high {
        return false;
    }
    if att_target_epoch != att_epoch {
        return false;
    }
    true
}

/// The block harness reports a mismatch of the post-state root.
#[derive(Clone, Copy, Debug, PartialEq, Eq, Structural)]
pub struct StateRootMismatch;

/// After a block was applied: accepted unless the state root is checked and
/// the root of the resulting state could not be computed or differs from the
/// root that the block commits to.
pub fn state_root_verdict(
    validate_state_root: bool,
    computed_root: &Option<Vec<u8>>,
    block_state_root: &Vec<u8>,
) -> (r: Result<(), StateRootMismatch>)
    ensures
        r is Ok <==> (!validate_state_root || (match computed_root {
            Some(c) => c@ == block_state_root@,
            None => false,
        })),
{
    if !validate_state_root {
        return Ok(());
    }
    match computed_root {
        Some(c) => if same_bytes(c, block_state_root) {
            Ok(())
        } else {
            Err(StateRootMismatch)
        },
        None => Err(StateRootMismatch),
    }
}

/// A discv5 packet input: the first 32 bytes name the destination node, the
/// rest is the packet. Inputs of 32 bytes or fewer are not tried.
pub fn split_discv5_input(data: &[u8]) -> (r: Option<(Vec<u8>, Vec<u8>)>)
    ensures
        r is None <==> data@.len() <= 32,
        r matches Some((id, packet)) ==> id@ == data@.subrange(0, 32) && packet@ == data@.subrange(
            32,
            data@.len() as int,
        ),
{
    if data.len() <= 32 {
        return None;
    }
    let id = slice_to_vec(slice_subrange(data, 0, 32));
    let packet = slice_to_vec(slice_subrange(data, 32, data.len()));
    Some((id, packet))
}

} // verus!
