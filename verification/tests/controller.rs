use node_runtime::controller::{
    anchor_load_is_pristine, run_startup, startup_tick, valid_statuses_for_blocks, AnchorLoad,
    BlockSummary, ControllerState, PayloadStatus, TickKind,
};

fn block(slot: u64, execution_block_id: Option<u64>) -> BlockSummary {
    BlockSummary { slot, execution_block_id }
}

#[test]
fn status_before_block_makes_the_block_archivable() {
    // The ordering contract: the payload verdict for X arrives before the
    // block referring to X, so the block is archivable at ingestion.
    let mut state = ControllerState::new();
    state.on_notified_valid_payload(77);
    state.on_requested_block(block(10, Some(77)));
    let ingested = state.ingested_blocks();
    assert_eq!(ingested.len(), 1);
    assert!(ingested[0].archivable);
}

#[test]
fn block_before_status_is_not_archivable_retroactively() {
    // The documented risk of the reverse order: archivability is settled at
    // ingestion, so a verdict arriving afterwards does not repair it.
    let mut state = ControllerState::new();
    state.on_requested_block(block(10, Some(77)));
    state.on_notified_valid_payload(77);
    let ingested = state.ingested_blocks();
    assert_eq!(ingested.len(), 1);
    assert!(!ingested[0].archivable);
}

#[test]
fn block_without_execution_payload_is_always_archivable() {
    let mut state = ControllerState::new();
    state.on_requested_block(block(3, None));
    assert!(state.ingested_blocks()[0].archivable);
}

#[test]
fn unknown_notifications_are_recorded_without_error() {
    // Advisory contract: verdicts for identifiers nothing refers to are
    // accepted and recorded all the same.
    let mut state = ControllerState::new();
    state.on_notified_invalid_payload(12345);
    assert!(state.has_status(12345));
    assert!(!state.has_status(1));
}

#[test]
fn run_startup_feeds_statuses_before_blocks() {
    let mut state = ControllerState::new();
    let statuses = vec![(7, PayloadStatus::Valid), (8, PayloadStatus::Invalid)];
    let blocks = vec![block(1, Some(7)), block(2, Some(8)), block(3, Some(9)), block(4, None)];
    run_startup(&mut state, &statuses, &blocks);
    let ingested = state.ingested_blocks();
    assert_eq!(ingested.len(), 4);
    assert!(ingested[0].archivable);
    assert!(ingested[1].archivable);
    assert!(!ingested[2].archivable, "no verdict was submitted for 9");
    assert!(ingested[3].archivable, "no execution payload to wait for");
}

#[test]
fn optimistic_statuses_carry_no_notification() {
    let mut state = ControllerState::new();
    let statuses = vec![(7, PayloadStatus::Optimistic)];
    run_startup(&mut state, &statuses, &vec![]);
    assert!(!state.has_status(7));
}

#[test]
fn valid_statuses_pair_every_execution_payload_with_valid() {
    let blocks = vec![block(1, Some(10)), block(2, None), block(3, Some(30))];
    let statuses = valid_statuses_for_blocks(&blocks);
    assert_eq!(statuses, vec![(10, PayloadStatus::Valid), (30, PayloadStatus::Valid)]);
}

#[test]
fn startup_tick_points_at_the_last_extra_block() {
    let anchor = block(100, None);
    let extra = vec![block(101, None), block(250, Some(1))];
    let tick = startup_tick(&anchor, &extra);
    assert_eq!(tick.slot, 250);
    assert_eq!(tick.kind, TickKind::BlockProposal);
}

#[test]
fn startup_tick_falls_back_to_the_anchor() {
    let anchor = block(100, None);
    let tick = startup_tick(&anchor, &vec![]);
    assert_eq!(tick.slot, 100);
    assert_eq!(tick.kind, TickKind::BlockProposal);
}

#[test]
fn anchor_load_checks_for_local_clean_state() {
    let pristine = AnchorLoad {
        anchor_block: block(0, None),
        unfinalized_blocks: vec![],
        loaded_from_remote: false,
    };
    assert!(anchor_load_is_pristine(&pristine));
    let remote = AnchorLoad {
        anchor_block: block(0, None),
        unfinalized_blocks: vec![],
        loaded_from_remote: true,
    };
    assert!(!anchor_load_is_pristine(&remote));
    let dirty = AnchorLoad {
        anchor_block: block(0, None),
        unfinalized_blocks: vec![block(1, None)],
        loaded_from_remote: false,
    };
    assert!(!anchor_load_is_pristine(&dirty));
}

#[test]
fn later_notification_supersedes_earlier_for_same_identifier() {
    let mut state = ControllerState::new();
    state.on_notified_valid_payload(5);
    state.on_notified_invalid_payload(5);
    assert!(state.has_status(5));
    // Either way the identifier stays on record; a block referring to it is
    // archivable.
    state.on_requested_block(block(9, Some(5)));
    assert!(state.ingested_blocks()[0].archivable);
}
