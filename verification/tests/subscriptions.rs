use node_runtime::subscriptions::{
    compute_epoch_at_slot, BeaconCommitteeSubscription, BeaconCommitteeSubscriptions,
};

const SLOTS_PER_EPOCH: u64 = 8;

fn sub(slot: u64, validator: u64, committee: u64, aggregator: bool) -> BeaconCommitteeSubscription {
    BeaconCommitteeSubscription {
        slot,
        validator_index: validator,
        committee_index: committee,
        is_aggregator: aggregator,
    }
}

#[test]
fn epoch_computation_is_slot_division() {
    assert_eq!(compute_epoch_at_slot(0, 32), 0);
    assert_eq!(compute_epoch_at_slot(31, 32), 0);
    assert_eq!(compute_epoch_at_slot(32, 32), 1);
    assert_eq!(compute_epoch_at_slot(96214 * 32 + 5, 32), 96214);
}

#[test]
fn empty_tracker_has_no_subscriptions() {
    let tracker = BeaconCommitteeSubscriptions::new(SLOTS_PER_EPOCH);
    assert_eq!(tracker.all(), vec![]);
}

#[test]
fn single_key_resubmission_yields_latest() {
    // Two updates for the same (epoch, validator 7, committee 2) key: the
    // snapshot holds exactly one subscription, the later one.
    let mut tracker = BeaconCommitteeSubscriptions::new(SLOTS_PER_EPOCH);
    let epoch = 5;
    let slot = epoch * SLOTS_PER_EPOCH + 3;
    tracker.update(&vec![sub(slot, 7, 2, true)]);
    tracker.update(&vec![sub(slot, 7, 2, false)]);
    let all = tracker.all();
    assert_eq!(all.len(), 1);
    assert_eq!(all[0].validator_index, 7);
    assert_eq!(all[0].committee_index, 2);
    assert!(!all[0].is_aggregator);
}

#[test]
fn overwrite_within_one_batch_last_wins() {
    let mut tracker = BeaconCommitteeSubscriptions::new(SLOTS_PER_EPOCH);
    // Same (epoch, validator, committee) key twice in one batch, even from
    // different slots of the same epoch: the last write in batch order wins.
    tracker.update(&vec![sub(40, 1, 4, true), sub(41, 1, 4, false)]);
    let all = tracker.all();
    assert_eq!(all.len(), 1);
    assert_eq!(all[0].slot, 41);
    assert!(!all[0].is_aggregator);
}

#[test]
fn overwrite_keeps_other_keys() {
    let mut tracker = BeaconCommitteeSubscriptions::new(SLOTS_PER_EPOCH);
    tracker.update(&vec![sub(16, 3, 1, true), sub(16, 4, 1, true)]);
    tracker.update(&vec![sub(16, 3, 1, false)]);
    let all = tracker.all();
    assert_eq!(all.len(), 2);
    assert!(!all[0].is_aggregator);
    assert_eq!(all[0].validator_index, 3);
    assert!(all[1].is_aggregator);
    assert_eq!(all[1].validator_index, 4);
}

#[test]
fn snapshot_is_ordered_by_epoch_validator_committee() {
    let mut tracker = BeaconCommitteeSubscriptions::new(SLOTS_PER_EPOCH);
    // Insert out of order across epochs, validators and committees.
    tracker.update(&vec![
        sub(24, 9, 1, false), // epoch 3
        sub(8, 5, 2, false),  // epoch 1
        sub(24, 2, 7, true),  // epoch 3
        sub(8, 5, 0, true),   // epoch 1
        sub(16, 0, 3, false), // epoch 2
    ]);
    let all = tracker.all();
    let keys: Vec<(u64, u64, u64)> = all
        .iter()
        .map(|s| (s.slot / SLOTS_PER_EPOCH, s.validator_index, s.committee_index))
        .collect();
    assert_eq!(keys, vec![(1, 5, 0), (1, 5, 2), (2, 0, 3), (3, 2, 7), (3, 9, 1)]);
}

#[test]
fn discard_evicts_epochs_strictly_below_bound() {
    let mut tracker = BeaconCommitteeSubscriptions::new(SLOTS_PER_EPOCH);
    tracker.update(&vec![
        sub(8, 1, 0, false),  // epoch 1
        sub(16, 1, 0, false), // epoch 2
        sub(24, 1, 0, false), // epoch 3
    ]);
    tracker.discard_old_subscriptions(2);
    let all = tracker.all();
    assert_eq!(all.len(), 2);
    assert!(all.iter().all(|s| s.slot / SLOTS_PER_EPOCH >= 2));
}

#[test]
fn discard_below_minimum_epoch_is_a_no_op() {
    let mut tracker = BeaconCommitteeSubscriptions::new(SLOTS_PER_EPOCH);
    tracker.update(&vec![sub(24, 1, 0, false), sub(32, 2, 1, true)]);
    tracker.discard_old_subscriptions(1);
    assert_eq!(tracker.all().len(), 2);
}

#[test]
fn discard_above_maximum_epoch_evicts_everything() {
    let mut tracker = BeaconCommitteeSubscriptions::new(SLOTS_PER_EPOCH);
    tracker.update(&vec![sub(8, 1, 0, false), sub(16, 2, 1, true)]);
    tracker.discard_old_subscriptions(100);
    assert_eq!(tracker.all(), vec![]);
}

#[test]
fn consecutive_snapshots_are_equal() {
    let mut tracker = BeaconCommitteeSubscriptions::new(SLOTS_PER_EPOCH);
    tracker.update(&vec![sub(8, 1, 0, false), sub(16, 2, 1, true)]);
    let first = tracker.all();
    let second = tracker.all();
    assert_eq!(first, second);
}

#[test]
fn mutation_does_not_reach_an_earlier_snapshot() {
    let mut tracker = BeaconCommitteeSubscriptions::new(SLOTS_PER_EPOCH);
    tracker.update(&vec![sub(8, 1, 0, false)]);
    let before = tracker.all();
    tracker.update(&vec![sub(16, 2, 1, true)]);
    tracker.discard_old_subscriptions(2);
    assert_eq!(before.len(), 1);
    assert_eq!(before[0].slot, 8);
}

#[test]
fn updates_never_remove_entries() {
    let mut tracker = BeaconCommitteeSubscriptions::new(SLOTS_PER_EPOCH);
    tracker.update(&vec![sub(8, 1, 0, false)]);
    tracker.update(&vec![sub(16, 2, 1, true)]);
    tracker.update(&vec![sub(24, 3, 2, false)]);
    assert_eq!(tracker.all().len(), 3);
}
