//! The fork-choice controller boundary as the other components see it.
//!
//! The controller itself — the fork-choice algorithm, validation,
//! persistence — is an opaque collaborator. What is pinned down here is the
//! contract the rest of the node relies on: payload-status notifications and
//! block submissions are non-blocking and never answered with an error;
//! late or unknown notifications are advisory and merely recorded; and a
//! block is attempted for archival only at ingestion time, so its payload
//! verdict must already be on record when the block is submitted.

use vstd::prelude::*;

verus! {

/// The most recent verdict the execution layer reported for a candidate
/// block's execution payload.
#[derive(Clone, Copy, PartialEq, Eq, Structural, Debug)]
pub enum PayloadStatus {
    Valid,
    Invalid,
    Optimistic,
}

/// What this boundary reads of a block: its slot, and the identifier of its
/// execution payload if it has one.
#[derive(Clone, Copy, PartialEq, Eq, Structural, Debug)]
pub struct BlockSummary {
    pub slot: u64,
    pub execution_block_id: Option<u64>,
}

/// The sub-slot instant a tick points at.
#[derive(Clone, Copy, PartialEq, Eq, Structural, Debug)]
pub enum TickKind {
    SlotStart,
    BlockProposal,
}

/// A monotone clock marker: a slot and an instant within it. Advancing the
/// controller's clock by a tick has none of the duty-execution side effects
/// that a live slot-advance command has.
#[derive(Clone, Copy, PartialEq, Eq, Structural, Debug)]
pub struct Tick {
    pub slot: u64,
    pub kind: TickKind,
}

impl Tick {
    /// The block-proposal instant of `slot`.
    pub fn block_proposal(slot: u64) -> (t: Tick)
        ensures
            t == (Tick { slot, kind: TickKind::BlockProposal }),
    {
        Tick { slot, kind: TickKind::BlockProposal }
    }
}

/// What the storage boundary hands back from its one-shot load: the anchor
/// to start from, the unfinalized blocks found beside it, and whether
/// anything had to be recovered from a remote source.
pub struct AnchorLoad {
    pub anchor_block: BlockSummary,
    pub unfinalized_blocks: Vec<BlockSummary>,
    pub loaded_from_remote: bool,
}

/// Whether a load of a locally supplied anchor came back as expected:
/// nothing unfinalized alongside it and nothing recovered remotely.
pub fn anchor_load_is_pristine(load: &AnchorLoad) -> (ok: bool)
    ensures
        ok == (load.unfinalized_blocks@.len() == 0 && !load.loaded_from_remote),
{
    load.unfinalized_blocks.len() == 0 && !load.loaded_from_remote
}

/// The tick the controller's clock is advanced to at startup when
/// out-of-band historical blocks are supplied: the block-proposal instant of
/// the newest known block — the last extra block if there is one, else the
/// anchor. A slot-advance command is not used for this: it would trigger
/// duty execution.
pub fn startup_tick(anchor: &BlockSummary, extra_blocks: &Vec<BlockSummary>) -> (t: Tick)
    ensures
        t.kind == TickKind::BlockProposal,
        extra_blocks@.len() > 0 ==> t.slot == extra_blocks@.last().slot,
        extra_blocks@.len() == 0 ==> t.slot == anchor.slot,
{
    if extra_blocks.len() > 0 {
        Tick::block_proposal(extra_blocks[extra_blocks.len() - 1].slot)
    } else {
        Tick::block_proposal(anchor.slot)
    }
}

/// A block as the controller ingested it. `archivable` is settled at
/// ingestion time and never revisited: the store attempts to persist a
/// block once, when it arrives.
#[derive(Clone, Copy, PartialEq, Eq, Structural, Debug)]
pub struct IngestedBlock {
    pub block: BlockSummary,
    pub archivable: bool,
}

/// The map of recorded payload verdicts that a run of notifications builds,
/// a later notification for the same identifier superseding the earlier.
pub open spec fn statuses_map(s: Seq<(u64, PayloadStatus)>) -> Map<int, PayloadStatus>
    decreases s.len(),
{
    if s.len() == 0 {
        Map::empty()
    } else {
        statuses_map(s.drop_last()).insert(s.last().0 as int, s.last().1)
    }
}

/// The controller boundary's observable state: which payload verdicts are
/// on record, and every block ingested so far, in ingestion order.
pub struct ControllerState {
    statuses: Vec<(u64, PayloadStatus)>,
    ingested: Vec<IngestedBlock>,
}

impl ControllerState {
    /// The recorded verdict, if any, per execution-block identifier.
    pub closed spec fn spec_statuses(self) -> Map<int, PayloadStatus> {
        statuses_map(self.statuses@)
    }

    /// Every ingested block, oldest first.
    pub closed spec fn spec_ingested(self) -> Seq<IngestedBlock> {
        self.ingested@
    }

    /// Whether a block submitted now would be attempted for archival: it
    /// carries no execution payload, or its payload's verdict is already on
    /// record.
    pub open spec fn spec_archivable(self, block: BlockSummary) -> bool {
        match block.execution_block_id {
            Option::Some(id) => self.spec_statuses().contains_key(id as int),
            Option::None => true,
        }
    }

    /// A controller boundary with nothing recorded and nothing ingested.
    pub fn new() -> (r: Self)
        ensures
            r.spec_statuses() == Map::<int, PayloadStatus>::empty(),
            r.spec_ingested() == Seq::<IngestedBlock>::empty(),
    {
        ControllerState { statuses: Vec::new(), ingested: Vec::new() }
    }

    /// A copy of every block ingested so far, oldest first, each with the
    /// archivability it was settled with at ingestion.
    pub fn ingested_blocks(&self) -> (r: Vec<IngestedBlock>)
        ensures
            r@ == self.spec_ingested(),
    {
        let mut r: Vec<IngestedBlock> = Vec::new();
        let mut i: usize = 0;
        while i < self.ingested.len()
            invariant
                i <= self.ingested@.len(),
                r@ == self.ingested@.take(i as int),
            decreases self.ingested@.len() - i,
        {
            r.push(self.ingested[i]);
            proof {
                assert(self.ingested@.take(i as int).push(self.ingested@[i as int])
                    =~= self.ingested@.take(i + 1));
            }
            i += 1;
        }
        proof {
            assert(self.ingested@.take(self.ingested@.len() as int) =~= self.ingested@);
        }
        r
    }

    /// Whether a verdict for `execution_block_id` is on record.
    pub fn has_status(&self, execution_block_id: u64) -> (r: bool)
        ensures
            r == self.spec_statuses().contains_key(execution_block_id as int),
    {
        let ghost s = self.statuses@;
        let mut i: usize = 0;
        while i < self.statuses.len()
            invariant
                i <= s.len(),
                s == self.statuses@,
                forall|j: int| 0 <= j < i ==> (#[trigger] s[j]).0 != execution_block_id,
            decreases s.len() - i,
        {
            if self.statuses[i].0 == execution_block_id {
                proof {
                    lemma_statuses_map_contains(s, i as int);
                }
                return true;
            }
            i += 1;
        }
        proof {
            lemma_statuses_map_absent(s, execution_block_id as int);
        }
        false
    }

    /// Records that the execution layer found the payload valid. Advisory
    /// and non-blocking: an identifier no pending block refers to is
    /// recorded all the same, never answered with an error.
    pub fn on_notified_valid_payload(&mut self, execution_block_id: u64)
        ensures
            final(self).spec_statuses() == old(self).spec_statuses().insert(
                execution_block_id as int,
                PayloadStatus::Valid,
            ),
            final(self).spec_ingested() == old(self).spec_ingested(),
    {
        self.record_status(execution_block_id, PayloadStatus::Valid);
    }

    /// Records that the execution layer found the payload invalid; advisory
    /// and non-blocking, like its valid counterpart.
    pub fn on_notified_invalid_payload(&mut self, execution_block_id: u64)
        ensures
            final(self).spec_statuses() == old(self).spec_statuses().insert(
                execution_block_id as int,
                PayloadStatus::Invalid,
            ),
            final(self).spec_ingested() == old(self).spec_ingested(),
    {
        self.record_status(execution_block_id, PayloadStatus::Invalid);
    }

    fn record_status(&mut self, execution_block_id: u64, status: PayloadStatus)
        ensures
            final(self).spec_statuses() == old(self).spec_statuses().insert(
                execution_block_id as int,
                status,
            ),
            final(self).spec_ingested() == old(self).spec_ingested(),
    {
        self.statuses.push((execution_block_id, status));
        proof {
            assert(self.statuses@.drop_last() =~= old(self).statuses@);
        }
    }

    /// Submits a block for validation and fork-choice. The caller is never
    /// blocked and never answered with an error — validation failures are
    /// reported asynchronously on the controller's outbound channel. The
    /// block's archivability is settled here and now: a verdict arriving
    /// only after ingestion does not make the block archivable
    /// retroactively. That is the ordering contract every feeder of this
    /// boundary must keep: payload status first, block second.
    pub fn on_requested_block(&mut self, block: BlockSummary)
        ensures
            final(self).spec_statuses() == old(self).spec_statuses(),
            final(self).spec_ingested() == old(self).spec_ingested().push(
                IngestedBlock { block, archivable: old(self).spec_archivable(block) },
            ),
    {
        let archivable = match block.execution_block_id {
            Option::Some(id) => self.has_status(id),
            Option::None => true,
        };
        self.ingested.push(IngestedBlock { block, archivable });
    }
}

/// The verdicts a startup feed puts on record: every entry except the
/// `Optimistic` ones — those carry no notification — a later entry
/// superseding an earlier one with the same identifier.
pub open spec fn notified_map(s: Seq<(u64, PayloadStatus)>) -> Map<int, PayloadStatus>
    decreases s.len(),
{
    if s.len() == 0 {
        Map::empty()
    } else if s.last().1 is Optimistic {
        notified_map(s.drop_last())
    } else {
        notified_map(s.drop_last()).insert(s.last().0 as int, s.last().1)
    }
}

/// How a run of blocks is ingested under a fixed record of verdicts: each
/// block in order, archivable exactly when it carries no execution payload
/// or its payload's verdict is in `statuses`.
pub open spec fn spec_ingests(statuses: Map<int, PayloadStatus>, blocks: Seq<BlockSummary>) -> Seq<
    IngestedBlock,
> {
    blocks.map_values(
        |b: BlockSummary|
            IngestedBlock {
                block: b,
                archivable: match b.execution_block_id {
                    Option::Some(id) => statuses.contains_key(id as int),
                    Option::None => true,
                },
            },
    )
}

/// Feeds the controller its startup inputs in the one order the archival
/// contract allows: every known payload verdict first, then every
/// out-of-band block. A block whose verdict was submitted ahead of it — or
/// was already on record — is therefore ingested as archivable; feeding the
/// two the other way round would not be, since archivability is settled at
/// ingestion.
pub fn run_startup(
    state: &mut ControllerState,
    payload_statuses: &Vec<(u64, PayloadStatus)>,
    extra_blocks: &Vec<BlockSummary>,
)
    ensures
        final(state).spec_statuses() == old(state).spec_statuses().union_prefer_right(
            notified_map(payload_statuses@),
        ),
        final(state).spec_ingested() == old(state).spec_ingested() + spec_ingests(
            final(state).spec_statuses(),
            extra_blocks@,
        ),
        forall|k: int|
            0 <= k < extra_blocks@.len() && (match (#[trigger] extra_blocks@[k]).execution_block_id {
                Option::Some(id) => notified_map(payload_statuses@).contains_key(id as int),
                Option::None => true,
            }) ==> final(state).spec_ingested()[old(state).spec_ingested().len() + k].archivable,
{
    let ghost ps = payload_statuses@;
    proof {
        assert(ps.take(0) =~= Seq::<(u64, PayloadStatus)>::empty());
        assert(old(state).spec_statuses().union_prefer_right(notified_map(ps.take(0))) =~= old(
            state,
        ).spec_statuses());
    }
    let mut i: usize = 0;
    while i < payload_statuses.len()
        invariant
            i <= ps.len(),
            ps == payload_statuses@,
            state.spec_statuses() == old(state).spec_statuses().union_prefer_right(
                notified_map(ps.take(i as int)),
            ),
            state.spec_ingested() == old(state).spec_ingested(),
        decreases ps.len() - i,
    {
        let ghost before = state.spec_statuses();
        let entry = payload_statuses[i];
        match entry.1 {
            PayloadStatus::Valid => state.on_notified_valid_payload(entry.0),
            PayloadStatus::Invalid => state.on_notified_invalid_payload(entry.0),
            PayloadStatus::Optimistic => {},
        }
        proof {
            assert(ps.take(i + 1).drop_last() =~= ps.take(i as int));
            assert(ps.take(i + 1).last() == ps[i as int]);
            if !(ps[i as int].1 is Optimistic) {
                assert(old(state).spec_statuses().union_prefer_right(
                    notified_map(ps.take(i as int)),
                ).insert(ps[i as int].0 as int, ps[i as int].1) =~= old(
                    state,
                ).spec_statuses().union_prefer_right(
                    notified_map(ps.take(i as int)).insert(ps[i as int].0 as int, ps[i as int].1),
                ));
            }
        }
        i += 1;
    }
    proof {
        assert(ps.take(ps.len() as int) =~= ps);
    }
    let ghost mid_statuses = state.spec_statuses();
    let ghost mid_ingested = state.spec_ingested();
    proof {
        assert(mid_ingested + spec_ingests(mid_statuses, extra_blocks@.take(0)) =~= mid_ingested);
    }
    let mut k: usize = 0;
    while k < extra_blocks.len()
        invariant
            k <= extra_blocks@.len(),
            state.spec_statuses() == mid_statuses,
            state.spec_ingested() == mid_ingested + spec_ingests(
                mid_statuses,
                extra_blocks@.take(k as int),
            ),
        decreases extra_blocks@.len() - k,
    {
        state.on_requested_block(extra_blocks[k]);
        proof {
            assert((mid_ingested + spec_ingests(mid_statuses, extra_blocks@.take(k as int))).push(
                spec_ingests(mid_statuses, extra_blocks@)[k as int],
            ) =~= mid_ingested + spec_ingests(mid_statuses, extra_blocks@.take(k + 1)));
        }
        k += 1;
    }
    proof {
        assert(extra_blocks@.take(extra_blocks@.len() as int) =~= extra_blocks@);
        assert forall|j: int|
            0 <= j < extra_blocks@.len() && (match (#[trigger] extra_blocks@[j]).execution_block_id {
                Option::Some(id) => notified_map(ps).contains_key(id as int),
                Option::None => true,
            }) implies state.spec_ingested()[mid_ingested.len() + j].archivable by {
            assert(state.spec_ingested()[mid_ingested.len() + j] == spec_ingests(
                mid_statuses,
                extra_blocks@,
            )[j]);
        }
    }
}

/// A notification that carried an identifier leaves its verdict on record.
proof fn lemma_statuses_map_contains(s: Seq<(u64, PayloadStatus)>, j: int)
    requires
        0 <= j < s.len(),
    ensures
        statuses_map(s).contains_key(s[j].0 as int),
    decreases s.len(),
{
    if j < s.len() - 1 {
        lemma_statuses_map_contains(s.drop_last(), j);
        assert(s.drop_last()[j] == s[j]);
    }
}

/// An identifier that no notification carried is not on record.
proof fn lemma_statuses_map_absent(s: Seq<(u64, PayloadStatus)>, id: int)
    requires
        forall|j: int| 0 <= j < s.len() ==> (#[trigger] s[j]).0 as int != id,
    ensures
        !statuses_map(s).contains_key(id),
    decreases s.len(),
{
    if s.len() > 0 {
        assert(forall|j: int|
            0 <= j < s.drop_last().len() ==> (#[trigger] s.drop_last()[j]).0 as int != id);
        lemma_statuses_map_absent(s.drop_last(), id);
        assert(s.last() == s[s.len() - 1]);
    }
}

/// The payload verdicts that a run of blocks is known good under: each block
/// that carries an execution payload, paired with `Valid`, in block order.
pub open spec fn spec_valid_statuses(blocks: Seq<BlockSummary>) -> Seq<(u64, PayloadStatus)>
    decreases blocks.len(),
{
    if blocks.len() == 0 {
        Seq::empty()
    } else {
        spec_valid_statuses(blocks.drop_last()) + (match blocks.last().execution_block_id {
            Option::Some(id) => seq![(id, PayloadStatus::Valid)],
            Option::None => Seq::empty(),
        })
    }
}

/// Pairs every block that carries an execution payload with a `Valid`
/// verdict, for feeding the controller ahead of known-good historical
/// blocks.
pub fn valid_statuses_for_blocks(blocks: &Vec<BlockSummary>) -> (statuses: Vec<
    (u64, PayloadStatus),
>)
    ensures
        statuses@ == spec_valid_statuses(blocks@),
{
    let mut statuses: Vec<(u64, PayloadStatus)> = Vec::new();
    proof {
        assert(blocks@.take(0) =~= Seq::<BlockSummary>::empty());
    }
    let mut i: usize = 0;
    while i < blocks.len()
        invariant
            i <= blocks@.len(),
            statuses@ == spec_valid_statuses(blocks@.take(i as int)),
        decreases blocks@.len() - i,
    {
        proof {
            assert(blocks@.take(i + 1).drop_last() =~= blocks@.take(i as int));
            assert(blocks@.take(i + 1).last() == blocks@[i as int]);
        }
        match blocks[i].execution_block_id {
            Option::Some(id) => {
                statuses.push((id, PayloadStatus::Valid));
                proof {
                    assert(spec_valid_statuses(blocks@.take(i as int)).push(
                        (id, PayloadStatus::Valid),
                    ) =~= spec_valid_statuses(blocks@.take(i as int)) + seq![
                        (id, PayloadStatus::Valid),
                    ]);
                }
            },
            Option::None => {
                proof {
                    assert(spec_valid_statuses(blocks@.take(i as int))
                        + Seq::<(u64, PayloadStatus)>::empty() =~= spec_valid_statuses(
                        blocks@.take(i as int),
                    ));
                }
            },
        }
        i += 1;
    }
    proof {
        assert(blocks@.take(blocks@.len() as int) =~= blocks@);
    }
    statuses
}

} // verus!
