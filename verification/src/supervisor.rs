//! The supervisor's composition policy.
//!
//! The supervisor is the one component with a global view of the wiring: it
//! allocates every channel, hands each component exactly the endpoints it
//! needs before any of them starts, then drives all of their run loops
//! concurrently under a first-completion-wins race. The race policy and the
//! allocation-phase completeness check are decisions on plain values and are
//! pinned down here; the scheduling itself belongs to the surrounding
//! runtime.

use vstd::prelude::*;

verus! {

/// The terminal result of a long-running component's run loop, consumed
/// only by the supervisor. A component expected to run forever resolving at
/// all — even with `Completed` — is the node's exit signal.
pub enum ServiceOutcome {
    Completed,
    Failed { cause: String },
}

impl ServiceOutcome {
    /// An equal outcome of the caller's own.
    pub fn duplicate(&self) -> (r: Self)
        ensures
            r == *self,
    {
        match self {
            ServiceOutcome::Completed => ServiceOutcome::Completed,
            ServiceOutcome::Failed { cause } => ServiceOutcome::Failed { cause: cause.clone() },
        }
    }
}

/// First-completion-wins over one poll of every racer, in priority order:
/// the index and outcome of the first racer that has resolved, or `None`
/// while every one is still running. The racers after the winner are not
/// consulted, however many there are — their run loops are simply
/// abandoned, never waited on and never cancelled.
pub fn race(polls: &Vec<Option<ServiceOutcome>>) -> (r: Option<(usize, ServiceOutcome)>)
    ensures
        match r {
            Option::None => forall|j: int| 0 <= j < polls@.len() ==> (#[trigger] polls@[j]) is None,
            Option::Some((i, o)) => {
                &&& 0 <= i < polls@.len()
                &&& polls@[i as int] == Some(o)
                &&& forall|j: int| 0 <= j < i ==> (#[trigger] polls@[j]) is None
            },
        },
{
    let mut i: usize = 0;
    while i < polls.len()
        invariant
            i <= polls@.len(),
            forall|j: int| 0 <= j < i ==> (#[trigger] polls@[j]) is None,
        decreases polls@.len() - i,
    {
        match &polls[i] {
            Option::Some(outcome) => {
                return Some((i, outcome.duplicate()));
            },
            Option::None => {},
        }
        i += 1;
    }
    None
}

/// Race-termination law: however many components race, if exactly one has
/// resolved — say it failed immediately — while every other still runs
/// (even one designed to run indefinitely), the race resolves with exactly
/// that component's outcome, waiting on none of the rest. `r` is any result
/// the `race` contract admits for those polls.
pub proof fn lemma_race_termination(
    polls: Seq<Option<ServiceOutcome>>,
    r: Option<(usize, ServiceOutcome)>,
    k: int,
)
    requires
        0 <= k < polls.len(),
        polls[k] is Some,
        forall|j: int| 0 <= j < polls.len() && j != k ==> (#[trigger] polls[j]) is None,
        match r {
            Option::None => forall|j: int| 0 <= j < polls.len() ==> (#[trigger] polls[j]) is None,
            Option::Some((i, o)) => {
                &&& 0 <= i < polls.len()
                &&& polls[i as int] == Some(o)
                &&& forall|j: int| 0 <= j < i ==> (#[trigger] polls[j]) is None
            },
        },
    ensures
        r == Some((k as usize, polls[k]->0)),
{
    match r {
        Option::None => {
            assert(polls[k] is None);
        },
        Option::Some((i, o)) => {
            if i as int != k {
                assert(polls[i as int] is None);
            }
        },
    }
}

/// The independently executing parts the supervisor wires together. The
/// execution bridge feeds its own internal queue; the others exchange
/// messages pairwise.
#[derive(Clone, Copy, PartialEq, Eq, Structural, Debug)]
pub enum ComponentId {
    Api,
    Controller,
    ExecutionBridge,
    LivenessTracker,
    Networking,
    Pools,
    SubnetService,
    SyncComponent,
    ValidatorExecutor,
}

/// Every channel the node runs over, as producer-consumer pairs: the full
/// topology a complete allocation phase must have wired.
pub open spec fn required_topology() -> Seq<(ComponentId, ComponentId)> {
    seq![
        (ComponentId::Api, ComponentId::LivenessTracker),
        (ComponentId::Api, ComponentId::Networking),
        (ComponentId::Api, ComponentId::ValidatorExecutor),
        (ComponentId::Controller, ComponentId::Api),
        (ComponentId::Controller, ComponentId::Networking),
        (ComponentId::Controller, ComponentId::SubnetService),
        (ComponentId::Controller, ComponentId::SyncComponent),
        (ComponentId::Controller, ComponentId::ValidatorExecutor),
        (ComponentId::Pools, ComponentId::Api),
        (ComponentId::Pools, ComponentId::LivenessTracker),
        (ComponentId::Pools, ComponentId::Networking),
        (ComponentId::SubnetService, ComponentId::Networking),
        (ComponentId::ValidatorExecutor, ComponentId::Api),
        (ComponentId::ValidatorExecutor, ComponentId::LivenessTracker),
        (ComponentId::ValidatorExecutor, ComponentId::Networking),
        (ComponentId::ExecutionBridge, ComponentId::ExecutionBridge),
    ]
}

/// The required topology as a vector, for the allocation phase to work
/// through channel by channel.
pub fn required_channels() -> (r: Vec<(ComponentId, ComponentId)>)
    ensures
        r@ == required_topology(),
{
    let r = vec![
        (ComponentId::Api, ComponentId::LivenessTracker),
        (ComponentId::Api, ComponentId::Networking),
        (ComponentId::Api, ComponentId::ValidatorExecutor),
        (ComponentId::Controller, ComponentId::Api),
        (ComponentId::Controller, ComponentId::Networking),
        (ComponentId::Controller, ComponentId::SubnetService),
        (ComponentId::Controller, ComponentId::SyncComponent),
        (ComponentId::Controller, ComponentId::ValidatorExecutor),
        (ComponentId::Pools, ComponentId::Api),
        (ComponentId::Pools, ComponentId::LivenessTracker),
        (ComponentId::Pools, ComponentId::Networking),
        (ComponentId::SubnetService, ComponentId::Networking),
        (ComponentId::ValidatorExecutor, ComponentId::Api),
        (ComponentId::ValidatorExecutor, ComponentId::LivenessTracker),
        (ComponentId::ValidatorExecutor, ComponentId::Networking),
        (ComponentId::ExecutionBridge, ComponentId::ExecutionBridge),
    ];
    proof {
        assert(r@ =~= required_topology());
    }
    r
}

/// Whether the allocation phase has wired one required channel.
fn channel_is_wired(wired: &Vec<(ComponentId, ComponentId)>, channel: (ComponentId, ComponentId)) -> (ok:
    bool)
    ensures
        ok == wired@.contains(channel),
{
    let mut i: usize = 0;
    while i < wired.len()
        invariant
            i <= wired@.len(),
            forall|j: int| 0 <= j < i ==> (#[trigger] wired@[j]) != channel,
        decreases wired@.len() - i,
    {
        if wired[i].0 == channel.0 && wired[i].1 == channel.1 {
            proof {
                assert(wired@[i as int] == channel);
            }
            return true;
        }
        i += 1;
    }
    false
}

/// Construction-time completeness check of the allocation phase: every
/// channel the topology requires has been wired before any component
/// starts. A missing endpoint is a fatal construction error, not a runtime
/// one — a supervisor must refuse to start on `false`.
pub fn wiring_complete(wired: &Vec<(ComponentId, ComponentId)>) -> (ok: bool)
    ensures
        ok == forall|c: (ComponentId, ComponentId)|
            required_topology().contains(c) ==> #[trigger] wired@.contains(c),
{
    let required = required_channels();
    let ghost req = required@;
    let mut i: usize = 0;
    while i < required.len()
        invariant
            i <= req.len(),
            req == required@,
            req == required_topology(),
            forall|j: int| 0 <= j < i ==> wired@.contains(#[trigger] req[j]),
        decreases req.len() - i,
    {
        if !channel_is_wired(wired, required[i]) {
            proof {
                assert(required_topology().contains(req[i as int]));
            }
            return false;
        }
        i += 1;
    }
    proof {
        assert forall|c: (ComponentId, ComponentId)|
            required_topology().contains(c) implies #[trigger] wired@.contains(c) by {
            let j = choose|j: int| 0 <= j < req.len() && req[j] == c;
            assert(wired@.contains(req[j]));
        }
    }
    true
}

} // verus!
