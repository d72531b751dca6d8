//! The event aggregator of a pattern subscription.
//!
//! Where a client asks for it, the events of a pattern subscription are not
//! sent one by one: they are kept for the time of a window and then sent
//! together, each key with what happened to it last. Who runs the session
//! keeps the time of the window and tells the aggregator when it is over.

use crate::codec::{KeyValuePair, KeyValueView};
use crate::key::path_view;
use crate::server::{pair_views, PState, PStateEvent, PStateEventView, TransactionId};
use vstd::prelude::*;

verus! {

/// What happened last to a key within the window: it got a value, or it
/// was deleted.
#[derive(Debug, Clone, PartialEq, Eq)]
pub struct Change {
    pub key: String,
    pub value: Option<String>,
}

/// A change as a mathematical value.
pub struct ChangeView {
    pub key: Seq<char>,
    pub value: Option<Seq<char>>,
}

impl View for Change {
    type V = ChangeView;

    open spec fn view(&self) -> ChangeView {
        ChangeView {
            key: self.key@,
            value: match self.value {
                Some(v) => Some(v@),
                None => None,
            },
        }
    }
}

/// The views of a list of changes, in order.
pub open spec fn change_views(changes: Seq<Change>) -> Seq<ChangeView> {
    changes.map_values(|c: Change| c@)
}

/// The place of `key` among the changes.
pub open spec fn place_of(changes: Seq<ChangeView>, key: Seq<char>) -> Option<int>
    decreases changes.len(),
{
    if changes.len() == 0 {
        None
    } else {
        match place_of(changes.drop_last(), key) {
            Some(i) => Some(i),
            None => if changes.last().key == key {
                Some(changes.len() - 1)
            } else {
                None
            },
        }
    }
}

/// The changes after `key` has changed to `value`: the change of the key
/// is replaced where it stands, and is put behind the others where the key
/// has not changed before.
pub open spec fn merged(changes: Seq<ChangeView>, key: Seq<char>, value: Option<Seq<char>>) -> Seq<
    ChangeView,
> {
    match place_of(changes, key) {
        Some(i) => changes.update(i, ChangeView { key, value }),
        None => changes.push(ChangeView { key, value }),
    }
}

/// The changes after the first `upto` of the pairs have been merged in, in
/// order.
pub open spec fn merged_pairs(changes: Seq<ChangeView>, pairs: Seq<KeyValueView>, upto: nat) -> Seq<
    ChangeView,
>
    decreases upto,
{
    if upto == 0 {
        changes
    } else {
        merged(
            merged_pairs(changes, pairs, (upto - 1) as nat),
            pairs[upto - 1].key,
            Some(pairs[upto - 1].value),
        )
    }
}

/// The changes after the first `upto` of the keys have been merged in as
/// deleted, in order.
pub open spec fn merged_keys(changes: Seq<ChangeView>, keys: Seq<Seq<char>>, upto: nat) -> Seq<
    ChangeView,
>
    decreases upto,
{
    if upto == 0 {
        changes
    } else {
        merged(merged_keys(changes, keys, (upto - 1) as nat), keys[upto - 1], None)
    }
}

/// The changes after an event has been merged in.
pub open spec fn merged_event(changes: Seq<ChangeView>, event: PStateEventView) -> Seq<ChangeView> {
    match event {
        PStateEventView::KeyValuePairs(pairs) => merged_pairs(changes, pairs, pairs.len()),
        PStateEventView::Deleted(keys) => merged_keys(changes, keys, keys.len()),
    }
}

/// The keys that have a value, each with its value, in the order of the
/// changes.
pub open spec fn values_in(changes: Seq<ChangeView>) -> Seq<KeyValueView>
    decreases changes.len(),
{
    if changes.len() == 0 {
        Seq::empty()
    } else {
        match changes.last().value {
            Some(value) => values_in(changes.drop_last()).push(
                KeyValueView { key: changes.last().key, value },
            ),
            None => values_in(changes.drop_last()),
        }
    }
}

/// The keys that are deleted, in the order of the changes.
pub open spec fn deleted_in(changes: Seq<ChangeView>) -> Seq<Seq<char>>
    decreases changes.len(),
{
    if changes.len() == 0 {
        Seq::empty()
    } else {
        match changes.last().value {
            Some(_) => deleted_in(changes.drop_last()),
            None => deleted_in(changes.drop_last()).push(changes.last().key),
        }
    }
}

/// No key occurs twice among the changes.
pub open spec fn distinct_keys(changes: Seq<ChangeView>) -> bool {
    forall|i: int, j: int| 0 <= i < j < changes.len() ==> changes[i].key != changes[j].key
}

/// The place of a key is the first place where it stands.
pub proof fn lemma_place_of(changes: Seq<ChangeView>, key: Seq<char>)
    ensures
        match place_of(changes, key) {
            Some(i) => 0 <= i < changes.len() && changes[i].key == key && forall|j: int|
                0 <= j < i ==> changes[j].key != key,
            None => forall|j: int| 0 <= j < changes.len() ==> changes[j].key != key,
        },
    decreases changes.len(),
{
    if changes.len() > 0 {
        lemma_place_of(changes.drop_last(), key);
        assert forall|j: int| 0 <= j < changes.len() - 1 implies changes.drop_last()[j]
            == changes[j] by {}
        match place_of(changes.drop_last(), key) {
            Some(i) => {
                assert(changes.drop_last()[i] == changes[i]);
                assert forall|j: int| 0 <= j < i implies changes[j].key != key by {
                    assert(changes.drop_last()[j] == changes[j]);
                }
            },
            None => {
                assert forall|j: int| 0 <= j < changes.len() - 1 implies changes[j].key != key by {
                    assert(changes.drop_last()[j] == changes[j]);
                }
            },
        }
    }
}

/// Merging a change keeps every key in its place and sets the last write:
/// the keys stay distinct, the keys that were there stay where they are
/// with their changes, but for the merged key, which has its new value.
pub proof fn lemma_merged(changes: Seq<ChangeView>, key: Seq<char>, value: Option<Seq<char>>)
    requires
        distinct_keys(changes),
    ensures
        distinct_keys(merged(changes, key, value)),
        merged(changes, key, value).len() >= changes.len(),
        forall|i: int|
            0 <= i < changes.len() ==> (#[trigger] merged(changes, key, value)[i]).key
                == changes[i].key,
        forall|i: int|
            0 <= i < changes.len() && changes[i].key != key ==> #[trigger] merged(
                changes,
                key,
                value,
            )[i] == changes[i],
        exists|i: int|
            0 <= i < merged(changes, key, value).len() && #[trigger] merged(changes, key, value)[i]
                == (ChangeView { key, value }),
{
    lemma_place_of(changes, key);
    let after = merged(changes, key, value);
    match place_of(changes, key) {
        Some(i) => {
            assert(after[i] == ChangeView { key, value });
        },
        None => {
            assert(after[changes.len() as int] == ChangeView { key, value });
        },
    }
}

/// The aggregator.
pub struct PStateAggregator {
    transaction_id: TransactionId,
    request_pattern: String,
    immediate: bool,
    changes: Vec<Change>,
}

/// What the aggregator did with an event.
#[derive(Debug, PartialEq, Eq)]
pub enum Aggregated {
    /// The event goes to the client at once, as this message.
    Forward(PState),
    /// The event is kept. Where it is the first one kept, a window starts.
    Kept { window_starts: bool },
}

impl PStateAggregator {
    /// The changes that are kept, in the order in which their keys changed
    /// first.
    pub closed spec fn changes(&self) -> Seq<ChangeView> {
        change_views(self.changes@)
    }

    /// The next event goes to the client at once.
    pub closed spec fn immediate(&self) -> bool {
        self.immediate
    }

    pub closed spec fn transaction_id(&self) -> u64 {
        self.transaction_id
    }

    pub closed spec fn request_pattern(&self) -> Seq<char> {
        self.request_pattern@
    }

    /// No key is kept twice.
    pub closed spec fn wf(&self) -> bool {
        distinct_keys(self.changes())
    }

    /// An aggregator for the subscription `transaction_id` to
    /// `request_pattern`. Unless the subscription is live-only, its first
    /// event, the state at the time of the subscription, goes to the client
    /// at once.
    pub fn new(transaction_id: TransactionId, request_pattern: String, live_only: bool) -> (a:
        PStateAggregator)
        ensures
            a.wf(),
            a.changes().len() == 0,
            a.immediate() == !live_only,
            a.transaction_id() == transaction_id,
            a.request_pattern() == request_pattern@,
    {
        PStateAggregator {
            transaction_id,
            request_pattern,
            immediate: !live_only,
            changes: Vec::new(),
        }
    }

    /// Merges one change into those that are kept.
    fn merge(&mut self, key: String, value: Option<String>)
        requires
            old(self).wf(),
        ensures
            final(self).wf(),
            final(self).changes() == merged(old(self).changes(), key@, (Change { key, value })@.value),
            final(self).immediate() == old(self).immediate(),
            final(self).transaction_id() == old(self).transaction_id(),
            final(self).request_pattern() == old(self).request_pattern(),
    {
        let ghost before = self.changes();
        let ghost change = (Change { key, value })@;
        proof {
            lemma_place_of(before, key@);
            lemma_merged(before, key@, change.value);
        }
        let mut i: usize = 0;
        while i < self.changes.len()
            invariant
                i <= self.changes.len(),
                self.changes() == before,
                before == old(self).changes(),
                distinct_keys(before),
                change == (Change { key, value })@,
                forall|j: int| 0 <= j < i ==> before[j].key != key@,
                self.immediate == old(self).immediate,
                self.transaction_id == old(self).transaction_id,
                self.request_pattern == old(self).request_pattern,
            decreases self.changes.len() - i,
        {
            assert(before[i as int] == self.changes[i as int]@);
            if self.changes[i].key == key {
                let replacement = Change { key, value };
                assert(replacement@ == change);
                self.changes[i] = replacement;
                proof {
                    lemma_place_of(before, key@);
                    lemma_merged(before, key@, change.value);
                    assert(place_of(before, key@) == Some(i as int));
                    assert(self.changes() =~= before.update(i as int, change));
                }
                return ;
            }
            i += 1;
        }
        self.changes.push(Change { key, value });
        proof {
            assert(place_of(before, key@) is None);
            assert(self.changes() =~= before.push(change));
        }
    }

    /// Takes an event of the subscription.
    ///
    /// The first event of a subscription that is not live-only goes to the
    /// client at once. Every other event is kept: each of its keys is merged
    /// into the changes that are kept, in the order of the event.
    pub fn aggregate(&mut self, event: PStateEvent) -> (r: Aggregated)
        requires
            old(self).wf(),
        ensures
            final(self).wf(),
            final(self).transaction_id() == old(self).transaction_id(),
            final(self).request_pattern() == old(self).request_pattern(),
            !final(self).immediate(),
            match r {
                Aggregated::Forward(state) => {
                    &&& old(self).immediate()
                    &&& final(self).changes() == old(self).changes()
                    &&& state.transaction_id == old(self).transaction_id()
                    &&& state.request_pattern@ == old(self).request_pattern()
                    &&& state.event == event
                },
                Aggregated::Kept { window_starts } => {
                    &&& !old(self).immediate()
                    &&& final(self).changes() == merged_event(old(self).changes(), event@)
                    &&& window_starts == (old(self).changes().len() == 0
                        && final(self).changes().len() > 0)
                },
            },
    {
        if self.immediate {
            self.immediate = false;
            return Aggregated::Forward(
                PState {
                    transaction_id: self.transaction_id,
                    request_pattern: self.request_pattern.clone(),
                    event,
                },
            );
        }
        let was_empty = self.changes.len() == 0;
        let ghost before = self.changes();
        match event {
            PStateEvent::KeyValuePairs(pairs) => {
                let ghost all = pairs@;
                for pair in it: pairs
                    invariant
                        it.seq() == all,
                        self.wf(),
                        !self.immediate,
                        self.transaction_id() == old(self).transaction_id(),
                        self.request_pattern() == old(self).request_pattern(),
                        self.changes() == merged_pairs(before, pair_views(all), it.index() as nat),
                {
                    assert(pair_views(all)[it.index() as int] == pair@);
                    self.merge(pair.key, Some(pair.value));
                }
            },
            PStateEvent::Deleted(keys) => {
                let ghost all = keys@;
                for key in it: keys
                    invariant
                        it.seq() == all,
                        self.wf(),
                        !self.immediate,
                        self.transaction_id() == old(self).transaction_id(),
                        self.request_pattern() == old(self).request_pattern(),
                        self.changes() == merged_keys(before, path_view(all), it.index() as nat),
                {
                    assert(path_view(all)[it.index() as int] == key@);
                    self.merge(key, None);
                }
            },
        }
        Aggregated::Kept { window_starts: was_empty && self.changes.len() > 0 }
    }

    /// Ends the window: gives the messages for what is kept, and keeps
    /// nothing.
    ///
    /// There is one message with the pairs of the keys that have a value,
    /// unless there is none, and then one with the keys that are deleted,
    /// unless there is none; both in the order in which the keys changed first
    /// within the window.
    pub fn flush(&mut self) -> (states: Vec<PState>)
        requires
            old(self).wf(),
        ensures
            final(self).wf(),
            final(self).changes().len() == 0,
            final(self).immediate() == old(self).immediate(),
            final(self).transaction_id() == old(self).transaction_id(),
            final(self).request_pattern() == old(self).request_pattern(),
            Self::flushed(*old(self), states@),
    {
        let mut pairs: Vec<KeyValuePair> = Vec::new();
        let mut keys: Vec<String> = Vec::new();
        let ghost all = self.changes();
        let mut changes: Vec<Change> = Vec::new();
        std::mem::swap(&mut self.changes, &mut changes);
        assert(self.changes() =~= Seq::<ChangeView>::empty());
        let ghost kept = changes@;
        assert(all.subrange(0, 0) =~= Seq::<ChangeView>::empty());
        for change in it: changes
            invariant
                it.seq() == kept,
                change_views(kept) == all,
                pair_views(pairs@) == values_in(all.subrange(0, it.index() as int)),
                path_view(keys@) == deleted_in(all.subrange(0, it.index() as int)),
        {
            let ghost seen = pair_views(pairs@);
            let ghost gone = path_view(keys@);
            proof {
                let upto = all.subrange(0, it.index() + 1);
                assert(upto.drop_last() =~= all.subrange(0, it.index() as int));
                assert(upto.last() == change@);
            }
            match change.value {
                Some(value) => {
                    let pair = KeyValuePair { key: change.key, value };
                    pairs.push(pair);
                    assert(pair_views(pairs@) =~= seen.push(pair@));
                },
                None => {
                    keys.push(change.key);
                    assert(path_view(keys@) =~= gone.push(change.key@));
                },
            }
        }
        assert(all.subrange(0, all.len() as int) =~= all);
        let mut states: Vec<PState> = Vec::new();
        if pairs.len() > 0 {
            states.push(
                PState {
                    transaction_id: self.transaction_id,
                    request_pattern: self.request_pattern.clone(),
                    event: PStateEvent::KeyValuePairs(pairs),
                },
            );
        }
        if keys.len() > 0 {
            states.push(
                PState {
                    transaction_id: self.transaction_id,
                    request_pattern: self.request_pattern.clone(),
                    event: PStateEvent::Deleted(keys),
                },
            );
        }
        states
    }

    /// What a flush gives for what an aggregator keeps.
    pub open spec fn flushed(a: PStateAggregator, states: Seq<PState>) -> bool {
        let values = values_in(a.changes());
        let deleted = deleted_in(a.changes());
        let with_values = PStateEventView::KeyValuePairs(values);
        let with_deleted = PStateEventView::Deleted(deleted);
        &&& states.len() == (if values.len() > 0 {
            1int
        } else {
            0int
        }) + (if deleted.len() > 0 {
            1int
        } else {
            0int
        })
        &&& forall|i: int|
            0 <= i < states.len() ==> (#[trigger] states[i]).transaction_id == a.transaction_id()
                && states[i].request_pattern@ == a.request_pattern()
        &&& values.len() > 0 ==> states[0].event@ == with_values
        &&& deleted.len() > 0 ==> states[states.len() - 1].event@ == with_deleted
    }
}

} // verus!
