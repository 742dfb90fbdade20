//! Time-windowed tracker of committee-subnet subscriptions.
//!
//! The networking subsystem remembers which validators are interested in
//! which committee subnets. Within one epoch at most one subscription is live
//! per `(validator_index, committee_index)`; a later update for the same key
//! silently supersedes the former. Whole epochs are evicted in bulk once they
//! fall behind the chain.

use vstd::prelude::*;

verus! {

/// A validator's interest in one committee subnet, for the epoch that its
/// slot falls in.
#[derive(Clone, Copy, PartialEq, Eq, Structural, Debug)]
pub struct BeaconCommitteeSubscription {
    pub slot: u64,
    pub validator_index: u64,
    pub committee_index: u64,
    pub is_aggregator: bool,
}

/// The epoch that `slot` belongs to, at `slots_per_epoch` slots per epoch.
pub open spec fn spec_epoch_at_slot(slot: u64, slots_per_epoch: u64) -> int
    recommends
        slots_per_epoch >= 1,
{
    slot as int / slots_per_epoch as int
}

/// Computes the epoch that a slot belongs to.
pub fn compute_epoch_at_slot(slot: u64, slots_per_epoch: u64) -> (epoch: u64)
    requires
        slots_per_epoch >= 1,
    ensures
        epoch == spec_epoch_at_slot(slot, slots_per_epoch),
{
    slot / slots_per_epoch
}

/// The key a subscription is identified by: its epoch, then its validator,
/// then its committee.
pub open spec fn sub_key(s: BeaconCommitteeSubscription, slots_per_epoch: u64) -> (int, int, int) {
    (
        spec_epoch_at_slot(s.slot, slots_per_epoch),
        s.validator_index as int,
        s.committee_index as int,
    )
}

/// Strict lexicographic order on subscription keys.
pub open spec fn key_lt(a: (int, int, int), b: (int, int, int)) -> bool {
    ||| a.0 < b.0
    ||| (a.0 == b.0 && a.1 < b.1)
    ||| (a.0 == b.0 && a.1 == b.1 && a.2 < b.2)
}

/// The keys that an eviction below `epoch` retains: those at `epoch` or
/// later.
pub open spec fn kept_keys(epoch: u64) -> Set<(int, int, int)> {
    Set::new(|k: (int, int, int)| k.0 >= epoch as int)
}

/// The mapping from keys to subscriptions that a sequence of subscriptions
/// describes, later entries superseding earlier ones with the same key.
pub open spec fn entries_map(s: Seq<BeaconCommitteeSubscription>, slots_per_epoch: u64) -> Map<
    (int, int, int),
    BeaconCommitteeSubscription,
>
    decreases s.len(),
{
    if s.len() == 0 {
        Map::empty()
    } else {
        entries_map(s.drop_last(), slots_per_epoch).insert(
            sub_key(s.last(), slots_per_epoch),
            s.last(),
        )
    }
}

/// `s` is strictly sorted by subscription key.
pub open spec fn sorted_by_key(s: Seq<BeaconCommitteeSubscription>, slots_per_epoch: u64) -> bool {
    forall|i: int, j: int|
        0 <= i < j < s.len() ==> key_lt(
            #[trigger] sub_key(s[i], slots_per_epoch),
            #[trigger] sub_key(s[j], slots_per_epoch),
        )
}

/// A key is in the map of a sequence exactly when some element carries it.
proof fn lemma_entries_map_dom(s: Seq<BeaconCommitteeSubscription>, slots_per_epoch: u64)
    ensures
        forall|k: (int, int, int)|
            #[trigger] entries_map(s, slots_per_epoch).contains_key(k) <==> exists|j: int|
                0 <= j < s.len() && sub_key(#[trigger] s[j], slots_per_epoch) == k,
    decreases s.len(),
{
    if s.len() > 0 {
        lemma_entries_map_dom(s.drop_last(), slots_per_epoch);
        assert forall|k: (int, int, int)| #[trigger]
            entries_map(s, slots_per_epoch).contains_key(k) implies exists|j: int|
            0 <= j < s.len() && sub_key(#[trigger] s[j], slots_per_epoch) == k by {
            if k == sub_key(s.last(), slots_per_epoch) {
                assert(sub_key(s[s.len() - 1], slots_per_epoch) == k);
            } else {
                assert(entries_map(s.drop_last(), slots_per_epoch).contains_key(k));
                let j = choose|j: int|
                    0 <= j < s.drop_last().len() && sub_key(
                        #[trigger] s.drop_last()[j],
                        slots_per_epoch,
                    ) == k;
                assert(s.drop_last()[j] == s[j]);
                assert(sub_key(s[j], slots_per_epoch) == k);
            }
        }
        assert forall|k: (int, int, int)|
            exists|j: int|
                0 <= j < s.len() && sub_key(
                    #[trigger] s[j],
                    slots_per_epoch,
                ) == k implies #[trigger] entries_map(s, slots_per_epoch).contains_key(k) by {
            let j = choose|j: int|
                0 <= j < s.len() && sub_key(#[trigger] s[j], slots_per_epoch) == k;
            if j == s.len() - 1 {
                assert(entries_map(s, slots_per_epoch).contains_key(
                    sub_key(s.last(), slots_per_epoch),
                ));
            } else {
                assert(sub_key(s.drop_last()[j], slots_per_epoch) == k);
                assert(entries_map(s.drop_last(), slots_per_epoch).contains_key(k));
            }
        }
    }
}

/// The map of a concatenation is the right-preferring union of the maps.
proof fn lemma_entries_map_concat(
    a: Seq<BeaconCommitteeSubscription>,
    b: Seq<BeaconCommitteeSubscription>,
    slots_per_epoch: u64,
)
    ensures
        entries_map(a + b, slots_per_epoch) == entries_map(a, slots_per_epoch).union_prefer_right(
            entries_map(b, slots_per_epoch),
        ),
    decreases b.len(),
{
    if b.len() == 0 {
        assert(a + b =~= a);
        assert(entries_map(a, slots_per_epoch).union_prefer_right(Map::empty()) =~= entries_map(
            a,
            slots_per_epoch,
        ));
    } else {
        lemma_entries_map_concat(a, b.drop_last(), slots_per_epoch);
        assert((a + b).drop_last() =~= a + b.drop_last());
        assert((a + b).last() == b.last());
        assert(entries_map(a, slots_per_epoch).union_prefer_right(
            entries_map(b.drop_last(), slots_per_epoch),
        ).insert(sub_key(b.last(), slots_per_epoch), b.last()) =~= entries_map(
            a,
            slots_per_epoch,
        ).union_prefer_right(
            entries_map(b.drop_last(), slots_per_epoch).insert(
                sub_key(b.last(), slots_per_epoch),
                b.last(),
            ),
        ));
    }
}

/// Tracker of the committee-subnet subscriptions retained for current and
/// upcoming epochs, keyed by `(epoch, validator_index, committee_index)`.
///
/// Entries are held sorted by that key, so a snapshot comes out in epoch,
/// then validator, then committee order, and evicting every epoch below a
/// bound is a single split of the sorted run.
pub struct BeaconCommitteeSubscriptions {
    slots_per_epoch: u64,
    entries: Vec<BeaconCommitteeSubscription>,
}

impl View for BeaconCommitteeSubscriptions {
    type V = Map<(int, int, int), BeaconCommitteeSubscription>;

    open spec fn view(&self) -> Map<(int, int, int), BeaconCommitteeSubscription> {
        entries_map(self.snapshot(), self.spec_slots_per_epoch())
    }
}

impl BeaconCommitteeSubscriptions {
    /// The slots-per-epoch setting of the chain this tracker serves.
    pub closed spec fn spec_slots_per_epoch(self) -> u64 {
        self.slots_per_epoch
    }

    /// The retained subscriptions, in epoch, validator, committee order.
    pub closed spec fn snapshot(self) -> Seq<BeaconCommitteeSubscription> {
        self.entries@
    }

    /// Internal invariant: a configured epoch length, and entries strictly
    /// sorted by key (which also makes keys unique).
    pub open spec fn wf(self) -> bool {
        &&& self.spec_slots_per_epoch() >= 1
        &&& sorted_by_key(self.snapshot(), self.spec_slots_per_epoch())
    }

    /// Creates an empty tracker for a chain with the given epoch length.
    pub fn new(slots_per_epoch: u64) -> (r: Self)
        requires
            slots_per_epoch >= 1,
        ensures
            r.wf(),
            r.spec_slots_per_epoch() == slots_per_epoch,
            r.snapshot() == Seq::<BeaconCommitteeSubscription>::empty(),
            r@ == Map::<(int, int, int), BeaconCommitteeSubscription>::empty(),
    {
        BeaconCommitteeSubscriptions { slots_per_epoch, entries: Vec::new() }
    }

    /// First index whose key is not below the key of `s`; the length if all
    /// keys are below it.
    fn find_position(&self, s: &BeaconCommitteeSubscription) -> (i: usize)
        requires
            self.wf(),
        ensures
            i <= self.snapshot().len(),
            forall|j: int|
                0 <= j < i ==> key_lt(
                    sub_key(#[trigger] self.snapshot()[j], self.spec_slots_per_epoch()),
                    sub_key(*s, self.spec_slots_per_epoch()),
                ),
            i < self.snapshot().len() ==> !key_lt(
                sub_key(self.snapshot()[i as int], self.spec_slots_per_epoch()),
                sub_key(*s, self.spec_slots_per_epoch()),
            ),
    {
        let mut i: usize = 0;
        while i < self.entries.len() && key_is_lt(&self.entries[i], s, self.slots_per_epoch)
            invariant
                self.wf(),
                i <= self.snapshot().len(),
                forall|j: int|
                    0 <= j < i ==> key_lt(
                        sub_key(#[trigger] self.snapshot()[j], self.spec_slots_per_epoch()),
                        sub_key(*s, self.spec_slots_per_epoch()),
                    ),
            decreases self.snapshot().len() - i,
        {
            i += 1;
        }
        i
    }

    /// Records a batch of subscriptions. Each one is keyed by the epoch its
    /// slot falls in, its validator and its committee; an entry already at
    /// that key is silently superseded, and within the batch the last write
    /// for a key wins. Nothing is ever removed here.
    pub fn update(&mut self, subscriptions: &Vec<BeaconCommitteeSubscription>)
        requires
            old(self).wf(),
        ensures
            final(self).wf(),
            final(self).spec_slots_per_epoch() == old(self).spec_slots_per_epoch(),
            final(self)@ == old(self)@.union_prefer_right(
                entries_map(subscriptions@, old(self).spec_slots_per_epoch()),
            ),
    {
        let ghost spe = self.slots_per_epoch;
        proof {
            assert(subscriptions@.take(0) =~= Seq::<BeaconCommitteeSubscription>::empty());
            assert(old(self)@.union_prefer_right(
                entries_map(subscriptions@.take(0), spe),
            ) =~= old(self)@);
        }
        let mut idx: usize = 0;
        while idx < subscriptions.len()
            invariant
                self.wf(),
                self.spec_slots_per_epoch() == old(self).spec_slots_per_epoch(),
                spe == old(self).spec_slots_per_epoch(),
                idx <= subscriptions.len(),
                self@ == old(self)@.union_prefer_right(
                    entries_map(subscriptions@.take(idx as int), spe),
                ),
            decreases subscriptions.len() - idx,
        {
            let ghost prefix = subscriptions@.take(idx as int);
            let ghost x = subscriptions@[idx as int];
            self.insert_one(subscriptions[idx]);
            proof {
                assert(subscriptions@.take(idx + 1).drop_last() =~= prefix);
                assert(subscriptions@.take(idx + 1).last() == x);
                assert(entries_map(subscriptions@.take(idx + 1), spe) == entries_map(
                    prefix,
                    spe,
                ).insert(sub_key(x, spe), x));
                assert(old(self)@.union_prefer_right(entries_map(prefix, spe)).insert(
                    sub_key(x, spe),
                    x,
                ) =~= old(self)@.union_prefer_right(
                    entries_map(prefix, spe).insert(sub_key(x, spe), x),
                ));
            }
            idx += 1;
        }
        proof {
            assert(subscriptions@.take(subscriptions@.len() as int) =~= subscriptions@);
        }
    }

    /// Hands out a fresh snapshot of every retained subscription, in epoch,
    /// then validator, then committee order. The caller owns the vector: no
    /// later mutation of the tracker reaches into it.
    pub fn all(&self) -> (r: Vec<BeaconCommitteeSubscription>)
        requires
            self.wf(),
        ensures
            r@ == self.snapshot(),
            sorted_by_key(r@, self.spec_slots_per_epoch()),
            forall|i: int|
                0 <= i < r@.len() ==> self@.contains_key(
                    sub_key(#[trigger] r@[i], self.spec_slots_per_epoch()),
                ) && self@[sub_key(r@[i], self.spec_slots_per_epoch())] == r@[i],
            forall|k: (int, int, int)|
                self@.contains_key(k) ==> exists|i: int|
                    0 <= i < r@.len() && sub_key(
                        #[trigger] r@[i],
                        self.spec_slots_per_epoch(),
                    ) == k,
    {
        let ghost spe = self.slots_per_epoch;
        let mut r: Vec<BeaconCommitteeSubscription> = Vec::new();
        let mut i: usize = 0;
        while i < self.entries.len()
            invariant
                i <= self.entries@.len(),
                r@ == self.entries@.take(i as int),
            decreases self.entries@.len() - i,
        {
            r.push(self.entries[i]);
            proof {
                assert(self.entries@.take(i as int).push(self.entries@[i as int]) =~= self.entries@.take(
                    i + 1,
                ));
            }
            i += 1;
        }
        proof {
            assert(self.entries@.take(self.entries@.len() as int) =~= self.entries@);
            lemma_entries_map_dom(self.entries@, spe);
            assert forall|j: int| 0 <= j < r@.len() implies self@.contains_key(
                sub_key(#[trigger] r@[j], spe),
            ) && self@[sub_key(r@[j], spe)] == r@[j] by {
                lemma_entries_map_sorted_value(self.entries@, spe, j);
            }
        }
        r
    }

    /// Evicts, in one bulk split, every subscription whose epoch is strictly
    /// below `epoch`. A bound below the oldest retained epoch is a no-op; a
    /// bound above the newest evicts everything.
    pub fn discard_old_subscriptions(&mut self, epoch: u64)
        requires
            old(self).wf(),
        ensures
            final(self).wf(),
            final(self).spec_slots_per_epoch() == old(self).spec_slots_per_epoch(),
            final(self)@ == old(self)@.restrict(kept_keys(epoch)),
            forall|i: int|
                0 <= i < final(self).snapshot().len() ==> spec_epoch_at_slot(
                    (#[trigger] final(self).snapshot()[i]).slot,
                    final(self).spec_slots_per_epoch(),
                ) >= epoch,
    {
        let ghost spe = self.slots_per_epoch;
        let ghost e = self.entries@;
        let mut i: usize = 0;
        while i < self.entries.len() && self.entries[i].slot / self.slots_per_epoch < epoch
            invariant
                self.wf(),
                self == old(self),
                spe == self.spec_slots_per_epoch(),
                e == self.entries@,
                i <= e.len(),
                forall|j: int| 0 <= j < i ==> spec_epoch_at_slot((#[trigger] e[j]).slot, spe) < epoch,
            decreases e.len() - i,
        {
            i += 1;
        }
        let tail = self.entries.split_off(i);
        self.entries = tail;
        proof {
            let a = e.take(i as int);
            let b = e.skip(i as int);
            assert(e =~= a + b);
            lemma_entries_map_concat(a, b, spe);
            lemma_entries_map_dom(a, spe);
            lemma_entries_map_dom(b, spe);
            assert forall|j: int| 0 <= j < b.len() implies spec_epoch_at_slot(
                (#[trigger] b[j]).slot,
                spe,
            ) >= epoch by {
                assert(b[j] == e[i + j]);
                if j > 0 {
                    assert(key_lt(sub_key(e[i as int], spe), sub_key(e[i + j], spe)));
                }
            }
            assert forall|j: int| 0 <= j < a.len() implies spec_epoch_at_slot(
                (#[trigger] a[j]).slot,
                spe,
            ) < epoch by {
                assert(a[j] == e[j]);
            }
            assert(entries_map(e, spe).restrict(kept_keys(epoch)) =~= entries_map(b, spe));
            assert(sorted_by_key(b, spe)) by {
                assert forall|p: int, q: int| 0 <= p < q < b.len() implies key_lt(
                    #[trigger] sub_key(b[p], spe),
                    #[trigger] sub_key(b[q], spe),
                ) by {
                    assert(b[p] == e[i + p]);
                    assert(b[q] == e[i + q]);
                }
            }
        }
    }

    /// Inserts `s` at its key, superseding any subscription already there.
    fn insert_one(&mut self, s: BeaconCommitteeSubscription)
        requires
            old(self).wf(),
        ensures
            final(self).wf(),
            final(self).spec_slots_per_epoch() == old(self).spec_slots_per_epoch(),
            final(self)@ == old(self)@.insert(sub_key(s, old(self).spec_slots_per_epoch()), s),
    {
        let ghost spe = self.slots_per_epoch;
        let ghost e = self.entries@;
        let ghost k = sub_key(s, spe);
        let i = self.find_position(&s);
        if i < self.entries.len() && key_is_eq(&self.entries[i], &s, self.slots_per_epoch) {
            self.entries[i] = s;
            proof {
                lemma_replace_at_key(e, spe, i as int, s);
            }
        } else {
            self.entries.insert(i, s);
            proof {
                if i < e.len() {
                    assert(!key_lt(sub_key(e[i as int], spe), k));
                    assert(sub_key(e[i as int], spe) != k);
                    assert(key_lt(k, sub_key(e[i as int], spe)));
                }
                lemma_insert_at_gap(e, spe, i as int, s);
            }
        }
    }
}

/// Exact epoch, validator and committee comparison, below.
fn key_is_lt(a: &BeaconCommitteeSubscription, b: &BeaconCommitteeSubscription, slots_per_epoch: u64) -> (r: bool)
    requires
        slots_per_epoch >= 1,
    ensures
        r == key_lt(sub_key(*a, slots_per_epoch), sub_key(*b, slots_per_epoch)),
{
    let ea = a.slot / slots_per_epoch;
    let eb = b.slot / slots_per_epoch;
    if ea != eb {
        ea < eb
    } else if a.validator_index != b.validator_index {
        a.validator_index < b.validator_index
    } else {
        a.committee_index < b.committee_index
    }
}

/// Exact epoch, validator and committee comparison, equal.
fn key_is_eq(a: &BeaconCommitteeSubscription, b: &BeaconCommitteeSubscription, slots_per_epoch: u64) -> (r: bool)
    requires
        slots_per_epoch >= 1,
    ensures
        r == (sub_key(*a, slots_per_epoch) == sub_key(*b, slots_per_epoch)),
{
    let ea = a.slot / slots_per_epoch;
    let eb = b.slot / slots_per_epoch;
    ea == eb && a.validator_index == b.validator_index && a.committee_index == b.committee_index
}

/// The map of a one-element sequence binds that element's key to it.
proof fn lemma_entries_map_singleton(x: BeaconCommitteeSubscription, slots_per_epoch: u64)
    ensures
        entries_map(seq![x], slots_per_epoch) == Map::<(int, int, int),
            BeaconCommitteeSubscription>::empty().insert(sub_key(x, slots_per_epoch), x),
{
    assert(seq![x].len() == 1);
    assert(seq![x].last() == x);
    assert(seq![x].drop_last() =~= Seq::<BeaconCommitteeSubscription>::empty());
    assert(entries_map(Seq::<BeaconCommitteeSubscription>::empty(), slots_per_epoch) == Map::<(
        int,
        int,
        int,
    ), BeaconCommitteeSubscription>::empty());
}

/// Replacing the element whose key equals the key of `s` updates the map at
/// that key and keeps the run sorted.
proof fn lemma_replace_at_key(
    e: Seq<BeaconCommitteeSubscription>,
    slots_per_epoch: u64,
    i: int,
    s: BeaconCommitteeSubscription,
)
    requires
        sorted_by_key(e, slots_per_epoch),
        0 <= i < e.len(),
        sub_key(e[i], slots_per_epoch) == sub_key(s, slots_per_epoch),
    ensures
        sorted_by_key(e.update(i, s), slots_per_epoch),
        entries_map(e.update(i, s), slots_per_epoch) == entries_map(e, slots_per_epoch).insert(
            sub_key(s, slots_per_epoch),
            s,
        ),
{
    let spe = slots_per_epoch;
    let k = sub_key(s, spe);
    let n = e.update(i, s);
    assert forall|p: int, q: int| 0 <= p < q < n.len() implies key_lt(
        #[trigger] sub_key(n[p], spe),
        #[trigger] sub_key(n[q], spe),
    ) by {
        assert(sub_key(n[p], spe) == sub_key(e[p], spe));
        assert(sub_key(n[q], spe) == sub_key(e[q], spe));
    }
    let a = e.take(i);
    let mid_old = seq![e[i]];
    let mid_new = seq![s];
    let b = e.skip(i + 1);
    assert(e =~= a + mid_old + b);
    assert(n =~= a + mid_new + b);
    lemma_entries_map_concat(a + mid_old, b, spe);
    lemma_entries_map_concat(a, mid_old, spe);
    lemma_entries_map_concat(a + mid_new, b, spe);
    lemma_entries_map_concat(a, mid_new, spe);
    lemma_entries_map_singleton(e[i], spe);
    lemma_entries_map_singleton(s, spe);
    lemma_entries_map_dom(b, spe);
    assert(!entries_map(b, spe).contains_key(k)) by {
        if entries_map(b, spe).contains_key(k) {
            let j = choose|j: int| 0 <= j < b.len() && sub_key(#[trigger] b[j], spe) == k;
            assert(b[j] == e[i + 1 + j]);
            assert(key_lt(sub_key(e[i], spe), sub_key(e[i + 1 + j], spe)));
        }
    }
    assert(entries_map(n, spe) =~= entries_map(e, spe).insert(k, s));
}

/// Inserting `s` between the keys below it and the keys above it adds its
/// key to the map and keeps the run sorted.
proof fn lemma_insert_at_gap(
    e: Seq<BeaconCommitteeSubscription>,
    slots_per_epoch: u64,
    i: int,
    s: BeaconCommitteeSubscription,
)
    requires
        sorted_by_key(e, slots_per_epoch),
        0 <= i <= e.len(),
        forall|j: int|
            0 <= j < i ==> key_lt(
                sub_key(#[trigger] e[j], slots_per_epoch),
                sub_key(s, slots_per_epoch),
            ),
        i < e.len() ==> key_lt(sub_key(s, slots_per_epoch), sub_key(e[i], slots_per_epoch)),
    ensures
        sorted_by_key(e.insert(i, s), slots_per_epoch),
        entries_map(e.insert(i, s), slots_per_epoch) == entries_map(e, slots_per_epoch).insert(
            sub_key(s, slots_per_epoch),
            s,
        ),
{
    let spe = slots_per_epoch;
    let k = sub_key(s, spe);
    let n = e.insert(i, s);
    let a = e.take(i);
    let mid = seq![s];
    let b = e.skip(i);
    assert(e =~= a + b);
    assert(n =~= a + mid + b);
    assert forall|p: int, q: int| 0 <= p < q < n.len() implies key_lt(
        #[trigger] sub_key(n[p], spe),
        #[trigger] sub_key(n[q], spe),
    ) by {
        if p < i {
            assert(n[p] == e[p]);
        }
        if q < i {
            assert(n[q] == e[q]);
        }
        if p > i {
            assert(n[p] == e[p - 1]);
        }
        if q > i {
            assert(n[q] == e[q - 1]);
        }
        if p == i {
            assert(n[p] == s);
        }
        if q == i {
            assert(n[q] == s);
        }
    }
    lemma_entries_map_concat(a + mid, b, spe);
    lemma_entries_map_concat(a, mid, spe);
    lemma_entries_map_concat(a, b, spe);
    lemma_entries_map_singleton(s, spe);
    lemma_entries_map_dom(b, spe);
    assert(!entries_map(b, spe).contains_key(k)) by {
        if entries_map(b, spe).contains_key(k) {
            let j = choose|j: int| 0 <= j < b.len() && sub_key(#[trigger] b[j], spe) == k;
            assert(b[j] == e[i + j]);
            if i + j > i {
                assert(key_lt(sub_key(e[i], spe), sub_key(e[i + j], spe)));
            }
        }
    }
    assert(entries_map(n, spe) =~= entries_map(e, spe).insert(k, s));
}

/// Overwrite law: of two subscriptions submitted for the same
/// `(epoch, validator_index, committee_index)` key — whether in two
/// successive batches or in one batch in that order — the tracker retains
/// only the most recently submitted one, whatever map `m` it held before.
pub proof fn lemma_overwrite_law(
    m: Map<(int, int, int), BeaconCommitteeSubscription>,
    s1: BeaconCommitteeSubscription,
    s2: BeaconCommitteeSubscription,
    slots_per_epoch: u64,
)
    requires
        sub_key(s1, slots_per_epoch) == sub_key(s2, slots_per_epoch),
    ensures
        m.union_prefer_right(entries_map(seq![s1], slots_per_epoch)).union_prefer_right(
            entries_map(seq![s2], slots_per_epoch),
        ) == m.union_prefer_right(entries_map(seq![s2], slots_per_epoch)),
        m.union_prefer_right(entries_map(seq![s1, s2], slots_per_epoch)) == m.union_prefer_right(
            entries_map(seq![s2], slots_per_epoch),
        ),
        m.union_prefer_right(entries_map(seq![s2], slots_per_epoch))[sub_key(
            s2,
            slots_per_epoch,
        )] == s2,
{
    let spe = slots_per_epoch;
    lemma_entries_map_singleton(s1, spe);
    lemma_entries_map_singleton(s2, spe);
    assert(seq![s1, s2].drop_last() =~= seq![s1]);
    assert(seq![s1, s2].last() == s2);
    assert(m.union_prefer_right(entries_map(seq![s1], spe)).union_prefer_right(
        entries_map(seq![s2], spe),
    ) =~= m.union_prefer_right(entries_map(seq![s2], spe)));
    assert(m.union_prefer_right(entries_map(seq![s1, s2], spe)) =~= m.union_prefer_right(
        entries_map(seq![s2], spe),
    ));
}

/// Eviction law: after `discard_old_subscriptions(epoch)`, a snapshot yields
/// no subscription from an epoch below `epoch`, whatever sequence of updates
/// built the tracker before. `before` and `after` are the tracker around the
/// eviction, `r` a snapshot taken afterwards, each related by the contracts
/// of `discard_old_subscriptions` and `all`.
pub proof fn lemma_eviction_law(
    before: BeaconCommitteeSubscriptions,
    after: BeaconCommitteeSubscriptions,
    r: Seq<BeaconCommitteeSubscription>,
    epoch: u64,
)
    requires
        after.spec_slots_per_epoch() == before.spec_slots_per_epoch(),
        before.spec_slots_per_epoch() >= 1,
        after@ == before@.restrict(kept_keys(epoch)),
        forall|i: int|
            0 <= i < r.len() ==> after@.contains_key(
                sub_key(#[trigger] r[i], after.spec_slots_per_epoch()),
            ),
    ensures
        forall|i: int|
            0 <= i < r.len() ==> spec_epoch_at_slot(
                (#[trigger] r[i]).slot,
                after.spec_slots_per_epoch(),
            ) >= epoch,
{
    let spe = after.spec_slots_per_epoch();
    assert forall|i: int| 0 <= i < r.len() implies spec_epoch_at_slot((#[trigger] r[i]).slot, spe)
        >= epoch by {
        assert(after@.contains_key(sub_key(r[i], spe)));
        assert(kept_keys(epoch).contains(sub_key(r[i], spe)));
    }
}

/// Snapshot independence: what `all` returns is a function of the tracker
/// state alone, so two calls with no mutation in between yield equal
/// sequences — and each call hands the caller an owned vector, which a later
/// mutation of the tracker cannot reach.
pub proof fn lemma_snapshot_independence(
    t: BeaconCommitteeSubscriptions,
    r1: Seq<BeaconCommitteeSubscription>,
    r2: Seq<BeaconCommitteeSubscription>,
)
    requires
        r1 == t.snapshot(),
        r2 == t.snapshot(),
    ensures
        r1 == r2,
{
}

/// In a sorted sequence each element is the map's entry at its own key.
proof fn lemma_entries_map_sorted_value(
    s: Seq<BeaconCommitteeSubscription>,
    slots_per_epoch: u64,
    j: int,
)
    requires
        sorted_by_key(s, slots_per_epoch),
        0 <= j < s.len(),
    ensures
        entries_map(s, slots_per_epoch).contains_key(sub_key(s[j], slots_per_epoch)),
        entries_map(s, slots_per_epoch)[sub_key(s[j], slots_per_epoch)] == s[j],
    decreases s.len(),
{
    if j == s.len() - 1 {
        lemma_entries_map_dom(s, slots_per_epoch);
    } else {
        assert(sorted_by_key(s.drop_last(), slots_per_epoch));
        lemma_entries_map_sorted_value(s.drop_last(), slots_per_epoch, j);
        assert(s.drop_last()[j] == s[j]);
        assert(key_lt(sub_key(s[j], slots_per_epoch), sub_key(s[s.len() - 1], slots_per_epoch)));
    }
}

} // verus!
