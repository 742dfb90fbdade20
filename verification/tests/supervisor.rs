use node_runtime::supervisor::{
    race, required_channels, wiring_complete, ComponentId, ServiceOutcome,
};

fn failed(cause: &str) -> Option<ServiceOutcome> {
    Some(ServiceOutcome::Failed { cause: cause.to_string() })
}

#[test]
fn race_with_no_resolved_component_stays_pending() {
    let polls: Vec<Option<ServiceOutcome>> = vec![None, None, None];
    assert!(race(&polls).is_none());
}

#[test]
fn one_immediate_failure_wins_the_race_against_four_runners() {
    // Five components; the one at index 3 fails immediately, the others are
    // designed to run forever (still pending). The race resolves with that
    // failure without waiting on the other four.
    let polls = vec![None, None, None, failed("storage gave out"), None];
    match race(&polls) {
        Some((index, ServiceOutcome::Failed { cause })) => {
            assert_eq!(index, 3);
            assert_eq!(cause, "storage gave out");
        }
        other => panic!("race should resolve with the failure, got {other:?}", other = other.is_some()),
    }
}

#[test]
fn race_is_biased_towards_the_earliest_resolved_component() {
    let polls = vec![None, Some(ServiceOutcome::Completed), failed("late"), None];
    match race(&polls) {
        Some((index, ServiceOutcome::Completed)) => assert_eq!(index, 1),
        _ => panic!("the earliest resolved component should win"),
    }
}

#[test]
fn a_component_completing_is_also_an_exit_signal() {
    let polls = vec![Some(ServiceOutcome::Completed)];
    assert!(race(&polls).is_some());
}

#[test]
fn full_topology_passes_the_wiring_check() {
    let wired = required_channels();
    assert!(wiring_complete(&wired));
    assert_eq!(wired.len(), 16);
}

#[test]
fn missing_channel_fails_the_wiring_check() {
    let mut wired = required_channels();
    wired.pop();
    assert!(!wiring_complete(&wired));
}

#[test]
fn extra_channels_do_not_fail_the_wiring_check() {
    let mut wired = required_channels();
    wired.push((ComponentId::Networking, ComponentId::Api));
    assert!(wiring_complete(&wired));
}
