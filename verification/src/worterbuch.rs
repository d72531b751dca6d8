//! The engine: the single owner of the store and of the subscriber indexes.
//!
//! Every request is one call on the engine. The call changes the state and
//! returns, besides its answer, the events that it causes, in the order in
//! which they are to be put on the queues of the subscriptions. The caller
//! delivers them before it hands the next request to the engine.

use crate::codec::{KeyValuePair, KeyValueView, ProtocolVersion};
use crate::error::{ErrorView, WorterbuchError};
use crate::key::{
    join, joined, key_error, parse_key, parse_pattern, path_view, pattern_error, pattern_matches,
    pattern_view, split, classified, KeySegment, RegularKeySegment, SegmentView, Syntax,
};
use crate::ls::{ls_kept, watchers, LsSubscriberView, LsSubscribers};
use crate::order::str_eq;
use crate::memory::{forgotten, Forget, Memory};
use crate::server::{Handshake, PStateEvent, PStateEventView};
use crate::store::{child_list, has_prefix, is_child_list, lemma_child_list, reaches, Store};
use crate::subscribers::{
    copy_pattern, kept, subscriber_views, LsSubscriber, Selection, Subscriber, SubscriberView,
    Subscribers, SubscriptionId,
};
use crate::traversal::{clone_path, entry_views, Entry, Found};
use vstd::prelude::*;

verus! {

pub type Key = String;

pub type Value = String;

pub type RequestPattern = String;

pub type TransactionId = u64;

/// An event for the queue of one subscription.
#[derive(Debug, PartialEq, Eq)]
pub struct Delivery {
    pub subscription: SubscriptionId,
    pub event: PStateEvent,
}

/// A list of child names for the queue of one subscription to child names.
#[derive(Debug, PartialEq, Eq)]
pub struct LsDelivery {
    pub subscription: SubscriptionId,
    pub children: Vec<RegularKeySegment>,
}

/// What a request causes: the events for the subscriptions, in order.
#[derive(Debug, PartialEq, Eq)]
pub struct Outbox {
    pub events: Vec<Delivery>,
    pub ls_events: Vec<LsDelivery>,
}

pub struct DeliveryView {
    pub subscription: SubscriptionId,
    pub event: PStateEventView,
}

pub struct LsDeliveryView {
    pub subscription: SubscriptionId,
    pub children: Seq<Seq<char>>,
}

pub struct OutboxView {
    pub events: Seq<DeliveryView>,
    pub ls_events: Seq<LsDeliveryView>,
}

impl View for Delivery {
    type V = DeliveryView;

    open spec fn view(&self) -> DeliveryView {
        DeliveryView { subscription: self.subscription, event: self.event@ }
    }
}

impl View for LsDelivery {
    type V = LsDeliveryView;

    open spec fn view(&self) -> LsDeliveryView {
        LsDeliveryView { subscription: self.subscription, children: path_view(self.children@) }
    }
}

/// The views of a list of deliveries, in order.
pub open spec fn delivery_views(deliveries: Seq<Delivery>) -> Seq<DeliveryView> {
    deliveries.map_values(|d: Delivery| d@)
}

/// The views of a list of deliveries of child names, in order.
pub open spec fn ls_delivery_views(deliveries: Seq<LsDelivery>) -> Seq<LsDeliveryView> {
    deliveries.map_values(|d: LsDelivery| d@)
}

impl View for Outbox {
    type V = OutboxView;

    open spec fn view(&self) -> OutboxView {
        OutboxView {
            events: delivery_views(self.events@),
            ls_events: ls_delivery_views(self.ls_events@),
        }
    }
}

/// What the unique subscriptions have seen: the last value for each
/// subscription and path.
pub type SeenMap = Map<(SubscriptionId, Seq<Seq<char>>), Seq<char>>;

/// The stored values by path.
pub type ValueMap = Map<Seq<Seq<char>>, Seq<char>>;

/// The subscriptions among `matching` that are told of `value` under
/// `path`, in order: every one that is not unique, and every unique one that
/// did not see this value under this path last.
pub open spec fn due(
    matching: Seq<SubscriberView>,
    seen: SeenMap,
    path: Seq<Seq<char>>,
    value: Seq<char>,
) -> Seq<SubscriptionId>
    decreases matching.len(),
{
    if matching.len() == 0 {
        Seq::empty()
    } else {
        let earlier = due(matching.drop_last(), seen, path, value);
        let s = matching.last();
        if !s.unique || !seen.contains_pair((s.id, path), value) {
            earlier.push(s.id)
        } else {
            earlier
        }
    }
}

/// What the unique subscriptions have seen after those among `matching`
/// have seen `value` under `path`.
pub open spec fn noted(
    seen: SeenMap,
    matching: Seq<SubscriberView>,
    path: Seq<Seq<char>>,
    value: Seq<char>,
) -> SeenMap
    decreases matching.len(),
{
    if matching.len() == 0 {
        seen
    } else {
        let earlier = noted(seen, matching.drop_last(), path, value);
        if matching.last().unique {
            earlier.insert((matching.last().id, path), value)
        } else {
            earlier
        }
    }
}

/// What the subscriptions have seen after those among `matching` have been
/// told that `path` is deleted: they have seen nothing under it.
pub open spec fn unnoted(seen: SeenMap, matching: Seq<SubscriberView>, path: Seq<Seq<char>>) -> SeenMap
    decreases matching.len(),
{
    if matching.len() == 0 {
        seen
    } else {
        unnoted(seen, matching.drop_last(), path).remove((matching.last().id, path))
    }
}

/// The names of a list of subscribers, in order.
pub open spec fn ids_of(subscribers: Seq<SubscriberView>) -> Seq<SubscriptionId> {
    subscribers.map_values(|s: SubscriberView| s.id)
}

/// One event with the pair of `key` and `value` for each of `ids`.
pub open spec fn value_events(ids: Seq<SubscriptionId>, key: Seq<char>, value: Seq<char>) -> Seq<
    DeliveryView,
> {
    ids.map_values(
        |id: SubscriptionId|
            DeliveryView {
                subscription: id,
                event: PStateEventView::KeyValuePairs(seq![KeyValueView { key, value }]),
            },
    )
}

/// One event that says that `key` is deleted for each of `ids`.
pub open spec fn deleted_events(ids: Seq<SubscriptionId>, key: Seq<char>) -> Seq<DeliveryView> {
    ids.map_values(
        |id: SubscriptionId|
            DeliveryView { subscription: id, event: PStateEventView::Deleted(seq![key]) },
    )
}

/// One list of child names for each of `ids`.
pub open spec fn ls_events_for(ids: Seq<SubscriptionId>, children: Seq<Seq<char>>) -> Seq<
    LsDeliveryView,
> {
    ids.map_values(|id: SubscriptionId| LsDeliveryView { subscription: id, children })
}

/// The news for the subscriptions to child names after a change at `path`,
/// for the first `upto` parents of the path, from the root down.
///
/// The child of a parent on the path is the next segment of the path. It
/// counts as changed where, according to `marks`, nothing is stored at or
/// below it. Every subscription to the children of such a parent gets the
/// list of the children that the parent has according to `values`.
pub open spec fn ls_news(
    all: Seq<LsSubscriberView>,
    marks: ValueMap,
    values: ValueMap,
    path: Seq<Seq<char>>,
    upto: nat,
) -> Seq<LsDeliveryView>
    decreases upto,
{
    if upto == 0 {
        Seq::empty()
    } else {
        let depth = (upto - 1) as int;
        let parent = path.subrange(0, depth);
        let earlier = ls_news(all, marks, values, path, (upto - 1) as nat);
        if !reaches(marks, path.subrange(0, depth + 1)) {
            earlier + ls_events_for(watchers(all, parent), child_list(values, parent))
        } else {
            earlier
        }
    }
}

/// A path below the root of the system keys: those keys are read-only for
/// clients.
pub open spec fn read_only(path: Seq<Seq<char>>) -> bool {
    path.len() >= 2 && path[0] == "$SYS"@
}

/// The name under which the server itself writes.
pub open spec fn internal_client() -> Seq<char> {
    "internal_client_id"@
}

/// The keys of found pairs, joined with `/`, each with its value.
pub open spec fn joined_pairs(entries: Seq<Entry>) -> Seq<KeyValueView> {
    entries.map_values(|e: Entry| KeyValueView { key: joined(e.0, '/'), value: e.1 })
}

/// The views of a list of pairs, in order.
pub open spec fn pair_views(pairs: Seq<KeyValuePair>) -> Seq<KeyValueView> {
    pairs.map_values(|p: KeyValuePair| p@)
}

/// The lists of child names for the parents of `path` from depth `from` up
/// to, but not including, depth `upto`: for each parent one list for each
/// subscription to its children.
pub open spec fn ls_lists(
    all: Seq<LsSubscriberView>,
    values: ValueMap,
    path: Seq<Seq<char>>,
    from: nat,
    upto: nat,
) -> Seq<LsDeliveryView>
    decreases upto,
{
    if upto <= from {
        Seq::empty()
    } else {
        let parent = path.subrange(0, upto - 1);
        ls_lists(all, values, path, from, (upto - 1) as nat) + ls_events_for(
            watchers(all, parent),
            child_list(values, parent),
        )
    }
}

/// Where the marks reach exactly the first `known` starts of the path, the
/// news are the lists for the parents from depth `known` on.
pub proof fn lemma_ls_news(
    all: Seq<LsSubscriberView>,
    marks: ValueMap,
    values: ValueMap,
    path: Seq<Seq<char>>,
    known: nat,
    upto: nat,
)
    requires
        upto <= path.len(),
        forall|d: int|
            1 <= d <= path.len() ==> (#[trigger] reaches(marks, path.subrange(0, d)) <==> d
                <= known),
    ensures
        ls_news(all, marks, values, path, upto) == ls_lists(all, values, path, known, upto),
    decreases upto,
{
    if upto > 0 {
        lemma_ls_news(all, marks, values, path, known, (upto - 1) as nat);
        let depth = (upto - 1) as int;
        assert(reaches(marks, path.subrange(0, depth + 1)) <==> depth + 1 <= known);
    }
}

/// What a subscription has seen under a path does not change where others
/// see a value.
pub proof fn lemma_noted_other(
    seen: SeenMap,
    matching: Seq<SubscriberView>,
    path: Seq<Seq<char>>,
    value: Seq<char>,
    id: SubscriptionId,
)
    requires
        forall|i: int| 0 <= i < matching.len() ==> matching[i].id != id,
    ensures
        noted(seen, matching, path, value).contains_key((id, path)) == seen.contains_key(
            (id, path),
        ),
        noted(seen, matching, path, value).contains_key((id, path)) ==> noted(
            seen,
            matching,
            path,
            value,
        )[(id, path)] == seen[(id, path)],
    decreases matching.len(),
{
    if matching.len() > 0 {
        let init = matching.drop_last();
        assert forall|i: int| 0 <= i < init.len() implies init[i].id != id by {
            assert(init[i] == matching[i]);
        }
        lemma_noted_other(seen, init, path, value, id);
        assert(matching[matching.len() - 1].id != id);
    }
}

/// Who is told of a value: the subscriptions that match and are either not
/// unique or did not see this value last; each of them once.
pub proof fn lemma_due(
    matching: Seq<SubscriberView>,
    seen: SeenMap,
    path: Seq<Seq<char>>,
    value: Seq<char>,
)
    ensures
        forall|id: SubscriptionId| #[trigger]
            due(matching, seen, path, value).contains(id) <==> exists|i: int|
                0 <= i < matching.len() && (#[trigger] matching[i]).id == id && (!matching[i].unique
                    || !seen.contains_pair((id, path), value)),
        (forall|a: int, b: int| 0 <= a < b < matching.len() ==> matching[a].id != matching[b].id)
            ==> forall|a: int, b: int|
            0 <= a < b < due(matching, seen, path, value).len() ==> due(
                matching,
                seen,
                path,
                value,
            )[a] != due(matching, seen, path, value)[b],
    decreases matching.len(),
{
    let all = due(matching, seen, path, value);
    if matching.len() > 0 {
        let init = matching.drop_last();
        let last = matching.last();
        let earlier = due(init, seen, path, value);
        lemma_due(init, seen, path, value);
        let told = !last.unique || !seen.contains_pair((last.id, path), value);
        assert forall|id: SubscriptionId| #[trigger]
            all.contains(id) <==> exists|i: int|
                0 <= i < matching.len() && (#[trigger] matching[i]).id == id && (!matching[i].unique
                    || !seen.contains_pair((id, path), value)) by {
            if all.contains(id) {
                let k = choose|k: int| 0 <= k < all.len() && all[k] == id;
                if k < earlier.len() {
                    assert(earlier[k] == id);
                    assert(earlier.contains(id));
                    let i = choose|i: int|
                        0 <= i < init.len() && (#[trigger] init[i]).id == id && (!init[i].unique
                            || !seen.contains_pair((id, path), value));
                    assert(matching[i] == init[i]);
                } else {
                    assert(matching[matching.len() - 1] == last);
                }
            }
            if exists|i: int|
                0 <= i < matching.len() && (#[trigger] matching[i]).id == id && (!matching[i].unique
                    || !seen.contains_pair((id, path), value)) {
                let i = choose|i: int|
                    0 <= i < matching.len() && (#[trigger] matching[i]).id == id && (
                    !matching[i].unique || !seen.contains_pair((id, path), value));
                if i < init.len() {
                    assert(init[i] == matching[i]);
                    assert(earlier.contains(id));
                    let k = choose|k: int| 0 <= k < earlier.len() && earlier[k] == id;
                    assert(all[k] == id);
                } else {
                    assert(all[earlier.len() as int] == id);
                }
            }
        }
        if forall|a: int, b: int| 0 <= a < b < matching.len() ==> matching[a].id != matching[b].id {
            assert forall|a: int, b: int| 0 <= a < b < init.len() implies init[a].id
                != init[b].id by {
                assert(init[a] == matching[a] && init[b] == matching[b]);
            }
            assert forall|a: int, b: int| 0 <= a < b < all.len() implies all[a] != all[b] by {
                if b >= earlier.len() {
                    assert(earlier[a] == all[a]);
                    assert(earlier.contains(all[a]));
                    let i = choose|i: int|
                        0 <= i < init.len() && (#[trigger] init[i]).id == all[a] && (
                        !init[i].unique || !seen.contains_pair((all[a], path), value));
                    assert(matching[i] == init[i]);
                    assert(matching[i].id != matching[matching.len() - 1].id);
                } else {
                    assert(earlier[a] == all[a] && earlier[b] == all[b]);
                }
            }
        }
    }
}

/// The values that are left when the paths of the first `upto` entries
/// have been removed.
pub open spec fn without_paths(values: ValueMap, entries: Seq<Entry>, upto: nat) -> ValueMap
    decreases upto,
{
    if upto == 0 {
        values
    } else {
        without_paths(values, entries, (upto - 1) as nat).remove(entries[upto - 1].0)
    }
}

/// What is left is what was there and is not among the removed paths.
pub proof fn lemma_without_paths(values: ValueMap, entries: Seq<Entry>, upto: nat)
    requires
        upto <= entries.len(),
    ensures
        forall|path: Seq<Seq<char>>| #[trigger]
            without_paths(values, entries, upto).contains_key(path) <==> values.contains_key(path)
                && forall|j: int| 0 <= j < upto ==> (#[trigger] entries[j]).0 != path,
        forall|path: Seq<Seq<char>>| #[trigger]
            without_paths(values, entries, upto).contains_key(path) ==> without_paths(
                values,
                entries,
                upto,
            )[path] == values[path],
    decreases upto,
{
    if upto > 0 {
        lemma_without_paths(values, entries, (upto - 1) as nat);
        let before = without_paths(values, entries, (upto - 1) as nat);
        assert forall|path: Seq<Seq<char>>| #[trigger]
            without_paths(values, entries, upto).contains_key(path) <==> values.contains_key(path)
                && forall|j: int| 0 <= j < upto ==> (#[trigger] entries[j]).0 != path by {
            if values.contains_key(path) && forall|j: int|
                0 <= j < upto ==> (#[trigger] entries[j]).0 != path {
                assert(entries[upto - 1].0 != path);
                assert(before.contains_key(path));
            }
        }
    }
}

/// What a subscription has seen after it has seen the first `upto` entries.
pub open spec fn seen_entries(seen: SeenMap, id: SubscriptionId, entries: Seq<Entry>, upto: nat) -> SeenMap
    decreases upto,
{
    if upto == 0 {
        seen
    } else {
        seen_entries(seen, id, entries, (upto - 1) as nat).insert(
            (id, entries[upto - 1].0),
            entries[upto - 1].1,
        )
    }
}

/// Whether the path of one of the entries is read-only.
pub open spec fn any_read_only(entries: Seq<Entry>) -> bool {
    exists|i: int| 0 <= i < entries.len() && read_only((#[trigger] entries[i]).0)
}

/// What a client has left for the time when it is gone.
#[derive(Debug, PartialEq, Eq)]
pub struct Client {
    pub id: u128,
    /// The pairs to store then.
    pub last_will: Vec<KeyValuePair>,
    /// The patterns whose keys to delete then.
    pub grave_goods: Vec<RequestPattern>,
}

/// The last registration of the client `id`.
pub open spec fn registered(clients: Seq<Client>, id: u128) -> Option<Client>
    decreases clients.len(),
{
    if clients.len() == 0 {
        None
    } else if clients.last().id == id {
        Some(clients.last())
    } else {
        registered(clients.drop_last(), id)
    }
}

/// The registrations of all clients but `id`, in their order.
pub open spec fn other_clients(clients: Seq<Client>, id: u128) -> Seq<Client>
    decreases clients.len(),
{
    if clients.len() == 0 {
        Seq::empty()
    } else if clients.last().id == id {
        other_clients(clients.drop_last(), id)
    } else {
        other_clients(clients.drop_last(), id).push(clients.last())
    }
}

impl OutboxView {
    /// Nothing to deliver.
    pub open spec fn nothing() -> OutboxView {
        OutboxView { events: Seq::empty(), ls_events: Seq::empty() }
    }

    /// The deliveries of `self`, then those of `next`.
    pub open spec fn followed_by(self, next: OutboxView) -> OutboxView {
        OutboxView { events: self.events + next.events, ls_events: self.ls_events + next.ls_events }
    }
}

/// A request to the engine.
#[derive(Debug, PartialEq, Eq)]
pub enum WbFunction {
    Get(Key),
    SetValue(Key, Value, String),
    Publish(Key, Value),
    Ls(Option<Key>),
    PGet(RequestPattern),
    Subscribe(u128, TransactionId, Key, bool, bool),
    PSubscribe(u128, TransactionId, RequestPattern, bool, bool),
    SubscribeLs(u128, TransactionId, Option<Key>),
    Unsubscribe(u128, TransactionId),
    UnsubscribeLs(u128, TransactionId),
    Delete(Key, String),
    PDelete(RequestPattern, String),
    Connected(u128, Vec<KeyValuePair>, Vec<RequestPattern>),
    Disconnected(u128),
    Handshake(u128, Vec<ProtocolVersion>, Vec<KeyValuePair>, Vec<RequestPattern>),
    Export,
    Len,
    SupportedProtocolVersion,
}

/// The answer of the engine to a request that it did not refuse.
#[derive(Debug, PartialEq, Eq)]
pub enum WbAnswer {
    Value(String, Value),
    Done,
    Children(Vec<RegularKeySegment>),
    Pairs(Vec<KeyValuePair>),
    Subscribed(SubscriptionId),
    Deleted(KeyValuePair),
    Len(usize),
    Version(ProtocolVersion),
    Agreed(Handshake),
}

/// What the engine hands back for a request: the answer or the refusal, and
/// the events that the request caused.
#[derive(Debug, PartialEq, Eq)]
pub struct WbReply {
    pub answer: Result<WbAnswer, WorterbuchError>,
    pub outbox: Outbox,
}

/// The engine.
pub struct Worterbuch {
    store: Store,
    subscribers: Subscribers,
    ls_subscribers: LsSubscribers,
    memory: Memory,
    clients: Vec<Client>,
}

impl Worterbuch {
    /// The invariant of the engine: the tries are well-formed, no two
    /// subscribers have the same name, and no two subscriptions to child
    /// names have.
    pub closed spec fn wf(&self) -> bool {
        &&& self.store.wf()
        &&& self.subscribers.wf()
        &&& self.subscribers.unique_ids()
        &&& self.ls_subscribers.distinct()
    }

    /// The stored values by path.
    pub closed spec fn values(&self) -> ValueMap {
        self.store@
    }

    /// What the unique subscriptions have seen.
    pub closed spec fn seen(&self) -> SeenMap {
        self.memory@
    }

    /// The subscribers that live at `pattern`.
    pub closed spec fn subs_at(&self, pattern: Seq<SegmentView>) -> Seq<SubscriberView> {
        self.subscribers.subs_at(pattern)
    }

    /// The subscribers whose pattern matches `path`, in the order in which
    /// the walk of the path down the subscriber trie comes by them.
    pub closed spec fn matching(&self, path: Seq<Seq<char>>) -> Seq<SubscriberView> {
        self.subscribers.matching(path)
    }

    /// The subscriptions to child names, in the order in which they were
    /// made.
    pub closed spec fn ls_all(&self) -> Seq<LsSubscriberView> {
        self.ls_subscribers.all()
    }

    /// The pairs that a traversal of the store by `pattern` finds, in its
    /// order.
    pub closed spec fn traversal(&self, pattern: Seq<SegmentView>) -> Seq<Entry> {
        self.store.traversal(pattern)
    }

    /// What a traversal finds: every stored pair whose path the pattern
    /// matches, each once.
    pub proof fn lemma_traversal(&self, pattern: Seq<SegmentView>)
        requires
            self.wf(),
        ensures
            forall|path: Seq<Seq<char>>, value: Seq<char>|
                #[trigger] self.traversal(pattern).contains((path, value))
                    <==> self.values().contains_pair(path, value) && pattern_matches(pattern, path),
            forall|i: int, j: int|
                0 <= i < j < self.traversal(pattern).len() ==> (#[trigger] self.traversal(
                    pattern,
                )[i]).0 != (#[trigger] self.traversal(pattern)[j]).0,
    {
        self.store.lemma_traversal(pattern);
    }

    /// The list of the children of `parent` holds each name under which a
    /// value is stored at or below `parent`, once, in ascending order.
    pub proof fn lemma_children(&self, parent: Seq<Seq<char>>)
        requires
            self.wf(),
        ensures
            is_child_list(child_list(self.values(), parent), self.values(), parent),
    {
        self.store.lemma_children(parent);
    }

    /// The pairs that a walk through the whole store finds, in its order.
    pub closed spec fn everything(&self) -> Seq<Entry> {
        self.store.everything()
    }

    /// A walk through the whole store finds every stored pair, each once.
    pub proof fn lemma_everything(&self)
        requires
            self.wf(),
        ensures
            forall|path: Seq<Seq<char>>, value: Seq<char>|
                #[trigger] self.everything().contains((path, value))
                    <==> self.values().contains_pair(path, value),
            forall|i: int, j: int|
                0 <= i < j < self.everything().len() ==> (#[trigger] self.everything()[i]).0 != (
                #[trigger] self.everything()[j]).0,
    {
        self.store.lemma_everything();
    }

    /// A subscriber is selected.
    pub closed spec fn has_selected(&self, selection: Selection) -> bool {
        self.subscribers.has_selected(selection)
    }

    /// A subscription to child names is selected.
    pub closed spec fn has_selected_ls(&self, selection: Selection) -> bool {
        self.ls_subscribers.has_selected(selection)
    }

    /// The two engines have the same subscriptions and the same registered
    /// clients.
    pub closed spec fn same_subscriptions(&self, other: &Worterbuch) -> bool {
        &&& self.subscribers == other.subscribers
        &&& self.ls_subscribers == other.ls_subscribers
        &&& self.clients == other.clients
    }

    /// The registered clients, in the order in which they connected.
    pub closed spec fn clients(&self) -> Seq<Client> {
        self.clients@
    }

    /// Engines with the same subscriptions give the same answers to every
    /// question about subscriptions.
    pub proof fn lemma_same_subscriptions(&self, other: &Worterbuch)
        requires
            self.same_subscriptions(other),
        ensures
            self.ls_all() == other.ls_all(),
            self.clients() == other.clients(),
            forall|p: Seq<SegmentView>| #[trigger] self.subs_at(p) == other.subs_at(p),
            forall|path: Seq<Seq<char>>| #[trigger] self.matching(path) == other.matching(path),
            forall|selection: Selection| #[trigger]
                self.has_selected(selection) == other.has_selected(selection),
            forall|selection: Selection| #[trigger]
                self.has_selected_ls(selection) == other.has_selected_ls(selection),
    {
    }

    /// What it means that a subscriber, or a subscription to child names, is
    /// selected; and that the names of the subscriptions to child names are
    /// distinct.
    pub proof fn lemma_selected(&self, selection: Selection)
        ensures
            self.has_selected(selection) <==> exists|p: Seq<SegmentView>, i: int|
                0 <= i < self.subs_at(p).len() && selection.selects(
                    (#[trigger] self.subs_at(p)[i]).id,
                ),
            self.has_selected_ls(selection) <==> exists|i: int|
                0 <= i < self.ls_all().len() && selection.selects((#[trigger] self.ls_all()[i]).id),
            self.wf() ==> crate::ls::distinct_ids(self.ls_all()),
    {
        if self.has_selected(selection) {
            let (p, i) = choose|p: Seq<SegmentView>, i: int|
                0 <= i < self.subscribers.subs_at(p).len() && selection.selects(
                    (#[trigger] self.subscribers.subs_at(p)[i]).id,
                );
            assert(selection.selects(self.subs_at(p)[i].id));
        }
        if exists|p: Seq<SegmentView>, i: int|
            0 <= i < self.subs_at(p).len() && selection.selects((#[trigger] self.subs_at(p)[i]).id) {
            let (p, i) = choose|p: Seq<SegmentView>, i: int|
                0 <= i < self.subs_at(p).len() && selection.selects(
                    (#[trigger] self.subs_at(p)[i]).id,
                );
            assert(selection.selects(self.subscribers.subs_at(p)[i].id));
        }
        if self.has_selected_ls(selection) {
            let i = choose|i: int|
                0 <= i < self.ls_subscribers.all().len() && selection.selects(
                    (#[trigger] self.ls_subscribers.all()[i]).id,
                );
            assert(selection.selects(self.ls_all()[i].id));
        }
        if exists|i: int|
            0 <= i < self.ls_all().len() && selection.selects((#[trigger] self.ls_all()[i]).id) {
            let i = choose|i: int|
                0 <= i < self.ls_all().len() && selection.selects((#[trigger] self.ls_all()[i]).id);
            assert(selection.selects(self.ls_subscribers.all()[i].id));
        }
    }

    /// What matches a path: every subscriber that lives at a pattern that
    /// matches it, each once.
    pub proof fn lemma_matching(&self, path: Seq<Seq<char>>)
        requires
            self.wf(),
        ensures
            forall|s: SubscriberView| #[trigger]
                self.matching(path).contains(s) <==> exists|p: Seq<SegmentView>|
                    pattern_matches(p, path) && #[trigger] self.subs_at(p).contains(s),
            forall|a: int, b: int|
                0 <= a < b < self.matching(path).len() ==> (#[trigger] self.matching(path)[a]).id
                    != (#[trigger] self.matching(path)[b]).id,
    {
        self.subscribers.lemma_matching(path);
        assert forall|s: SubscriberView| #[trigger]
            self.matching(path).contains(s) <==> exists|p: Seq<SegmentView>|
                pattern_matches(p, path) && #[trigger] self.subs_at(p).contains(s) by {
            if self.matching(path).contains(s) {
                assert(self.subscribers.matching(path).contains(s));
                let p = choose|p: Seq<SegmentView>|
                    pattern_matches(p, path) && #[trigger] self.subscribers.subs_at(p).contains(s);
                assert(self.subs_at(p).contains(s));
            }
            if exists|p: Seq<SegmentView>|
                pattern_matches(p, path) && #[trigger] self.subs_at(p).contains(s) {
                let p = choose|p: Seq<SegmentView>|
                    pattern_matches(p, path) && #[trigger] self.subs_at(p).contains(s);
                assert(self.subscribers.subs_at(p).contains(s));
            }
        }
    }

    /// An engine with an empty store and no subscriptions.
    pub fn new() -> (wb: Worterbuch)
        ensures
            wb.wf(),
            wb.values() == ValueMap::empty(),
            wb.seen() == SeenMap::empty(),
            wb.ls_all().len() == 0,
            wb.clients().len() == 0,
            forall|p: Seq<SegmentView>| #[trigger] wb.subs_at(p).len() == 0,
    {
        Worterbuch {
            store: Store::new(),
            subscribers: Subscribers::new(),
            ls_subscribers: LsSubscribers::new(),
            memory: Memory::new(),
            clients: Vec::new(),
        }
    }

    /// The version of the protocol that the engine speaks.
    pub fn supported_protocol_version(&self) -> (version: ProtocolVersion)
        ensures
            version == (ProtocolVersion { major: 0, minor: 6 }),
    {
        ProtocolVersion { major: 0, minor: 6 }
    }

    /// The number of stored values.
    pub fn len(&self) -> (n: usize)
        requires
            self.wf(),
        ensures
            self.values().dom().finite(),
            n == self.values().dom().len(),
    {
        self.store.len()
    }

    /// What `get` promises.
    #[verifier::opaque]
    pub open spec fn get_post(
        before: &Worterbuch,
        key: Seq<char>,
        r: Result<(String, Value), WorterbuchError>,
    ) -> bool {
        &&& match r {
                    Ok(pair) => {
                        &&& key_error(key, Syntax::standard()) is None
                        &&& pair.0@ == key
                        &&& before.values().contains_pair(split(key, '/'), pair.1@)
                    },
                    Err(e) => match key_error(key, Syntax::standard()) {
                        Some(error) => e@ == error,
                        None => !before.values().contains_key(split(key, '/')) && e@
                            == ErrorView::NoSuchValue(key),
                    },
                }
    }

    /// The value that is stored under `key`, with the key.
    pub fn get(&self, key: &str) -> (r: Result<(String, Value), WorterbuchError>)
        requires
            self.wf(),
        ensures
            Self::get_post(self, key@, r),
    {
        proof {
            reveal(Worterbuch::get_post);
        }
        let syntax = Syntax::default();
        let path = parse_key(key, &syntax)?;
        match self.store.get(&path) {
            Some(value) => Ok((key.to_owned(), value.clone())),
            None => Err(WorterbuchError::NoSuchValue(key.to_owned())),
        }
    }

    /// What `pget` promises.
    #[verifier::opaque]
    pub open spec fn pget_post(
        before: &Worterbuch,
        pattern: Seq<char>,
        r: Result<Vec<KeyValuePair>, WorterbuchError>,
    ) -> bool {
        &&& match r {
                    Ok(pairs) => {
                        let segments = classified(split(pattern, '/'), Syntax::standard());
                        &&& pattern_error(pattern, Syntax::standard()) is None
                        &&& pair_views(pairs@) == joined_pairs(before.traversal(segments))
                        &&& forall|path: Seq<Seq<char>>, value: Seq<char>|
                            #[trigger] before.traversal(segments).contains((path, value))
                                <==> before.values().contains_pair(path, value) && pattern_matches(
                                segments,
                                path,
                            )
                        &&& forall|i: int, j: int|
                            0 <= i < j < before.traversal(segments).len() ==> (#[trigger] before.traversal(
                                segments,
                            )[i]).0 != (#[trigger] before.traversal(segments)[j]).0
                    },
                    Err(e) => pattern_error(pattern, Syntax::standard()) == Some(e@),
                }
    }

    /// Every stored pair whose key `pattern` matches, each once, in the
    /// order of a depth-first walk that takes children in ascending order.
    pub fn pget(&self, pattern: &str) -> (r: Result<Vec<KeyValuePair>, WorterbuchError>)
        requires
            self.wf(),
        ensures
            Self::pget_post(self, pattern@, r),
    {
        proof {
            reveal(Worterbuch::pget_post);
        }
        let syntax = Syntax::default();
        let segments = parse_pattern(pattern, &syntax)?;
        let found = self.store.pget(&segments);
        let pairs = join_found(&found);
        proof {
            self.lemma_traversal(pattern_view(segments@));
        }
        Ok(pairs)
    }

    /// What `export` promises.
    pub open spec fn export_post(before: &Worterbuch, pairs: Vec<KeyValuePair>) -> bool {
        &&& pair_views(pairs@) == joined_pairs(before.everything())
        &&& forall|path: Seq<Seq<char>>, value: Seq<char>|
            #[trigger] before.everything().contains((path, value))
                <==> before.values().contains_pair(path, value)
        &&& forall|i: int, j: int|
            0 <= i < j < before.everything().len() ==> (#[trigger] before.everything()[i]).0 != (
            #[trigger] before.everything()[j]).0
    }

    /// Every stored pair, each once, in the order of a depth-first walk
    /// that takes children in ascending order.
    pub fn export(&self) -> (pairs: Vec<KeyValuePair>)
        requires
            self.wf(),
        ensures
            Self::export_post(self, pairs),
    {
        let found = self.store.export();
        let pairs = join_found(&found);
        proof {
            self.lemma_everything();
        }
        pairs
    }

    /// What `ls` promises.
    #[verifier::opaque]
    pub open spec fn ls_post(
        before: &Worterbuch,
        parent: &Option<Key>,
        r: Result<Vec<RegularKeySegment>, WorterbuchError>,
    ) -> bool {
        &&& match (r, parent) {
                    (Ok(names), Some(p)) => {
                        &&& key_error(p@, Syntax::standard()) is None
                        &&& reaches(before.values(), split(p@, '/'))
                        &&& is_child_list(path_view(names@), before.values(), split(p@, '/'))
                        &&& path_view(names@) == child_list(before.values(), split(p@, '/'))
                    },
                    (Ok(names), None) => {
                        &&& is_child_list(path_view(names@), before.values(), Seq::empty())
                        &&& path_view(names@) == child_list(before.values(), Seq::empty())
                    },
                    (Err(e), Some(p)) => match key_error(p@, Syntax::standard()) {
                        Some(error) => e@ == error,
                        None => !reaches(before.values(), split(p@, '/')) && e@ == ErrorView::NoSuchValue(
                            p@,
                        ),
                    },
                    (Err(e), None) => false,
                }
    }

    /// The names of the children of `parent`, in ascending order; those of
    /// the root where no parent is given.
    pub fn ls(&self, parent: &Option<Key>) -> (r: Result<Vec<RegularKeySegment>, WorterbuchError>)
        requires
            self.wf(),
        ensures
            Self::ls_post(self, parent, r),
    {
        proof {
            reveal(Worterbuch::ls_post);
        }
        let syntax = Syntax::default();
        let path = match parent {
            Some(p) => parse_key(p.as_str(), &syntax)?,
            None => Vec::new(),
        };
        assert(parent is None ==> path_view(path@) =~= Seq::<Seq<char>>::empty());
        match self.store.ls(&path) {
            Some(names) => {
                proof {
                    lemma_child_list(path_view(names@), self.values(), path_view(path@));
                }
                Ok(names)
            },
            None => {
                match parent {
                    Some(p) => Err(WorterbuchError::NoSuchValue(p.clone())),
                    None => {
                        Ok(Vec::new())
                    },
                }
            },
        }
    }
}

/// The pairs of a list of found entries, their paths joined with `/`.
pub fn join_found(found: &Found) -> (pairs: Vec<KeyValuePair>)
    ensures
        pair_views(pairs@) == joined_pairs(entry_views(found@)),
{
    let mut pairs: Vec<KeyValuePair> = Vec::new();
    let mut i: usize = 0;
    let ghost expected = joined_pairs(entry_views(found@));
    while i < found.len()
        invariant
            i <= found.len(),
            expected == joined_pairs(entry_views(found@)),
            pair_views(pairs@) == expected.subrange(0, i as int),
        decreases found.len() - i,
    {
        let key = join(&found[i].0, '/');
        let ghost before = pair_views(pairs@);
        let pair = KeyValuePair { key, value: found[i].1.clone() };
        assert(pair@ == expected[i as int]);
        pairs.push(pair);
        assert(pair_views(pairs@) =~= before.push(expected[i as int]));
        i += 1;
        assert(pair_views(pairs@) =~= expected.subrange(0, i as int));
    }
    assert(expected.subrange(0, i as int) =~= expected);
    pairs
}

/// Whether a path lies below the root of the system keys.
pub fn is_read_only(path: &Vec<RegularKeySegment>) -> (r: bool)
    ensures
        r == read_only(path_view(path@)),
{
    path.len() >= 2 && str_eq(path[0].as_str(), "$SYS")
}

/// Whether `client_id` is the name under which the server itself writes.
pub fn is_internal(client_id: &str) -> (r: bool)
    ensures
        r == (client_id@ == internal_client()),
{
    str_eq(client_id, "internal_client_id")
}

/// The first `n` segments of a path.
pub fn path_start(path: &Vec<RegularKeySegment>, n: usize) -> (start: Vec<RegularKeySegment>)
    requires
        n <= path.len(),
    ensures
        path_view(start@) == path_view(path@).subrange(0, n as int),
{
    let mut start: Vec<RegularKeySegment> = Vec::new();
    let mut i: usize = 0;
    while i < n
        invariant
            i <= n,
            n <= path.len(),
            path_view(start@) == path_view(path@).subrange(0, i as int),
        decreases n - i,
    {
        let segment = path[i].clone();
        let ghost before = path_view(start@);
        start.push(segment);
        assert(path_view(start@) =~= before.push(path[i as int]@));
        i += 1;
        assert(path_view(start@) =~= path_view(path@).subrange(0, i as int));
    }
    start
}

impl Worterbuch {
    /// Tells the subscribers that match `path` of `value`, and remembers
    /// for the unique ones that they saw it.
    fn notify_value(&mut self, path: &Vec<RegularKeySegment>, key: &str, value: &Value) -> (events:
        Vec<Delivery>)
        requires
            old(self).wf(),
        ensures
            final(self).wf(),
            final(self).store == old(self).store,
            final(self).subscribers == old(self).subscribers,
            final(self).ls_subscribers == old(self).ls_subscribers,
            final(self).clients == old(self).clients,
            final(self).seen() == noted(
                old(self).seen(),
                old(self).matching(path_view(path@)),
                path_view(path@),
                value@,
            ),
            delivery_views(events@) == value_events(
                due(
                    old(self).matching(path_view(path@)),
                    old(self).seen(),
                    path_view(path@),
                    value@,
                ),
                key@,
                value@,
            ),
    {
        let ghost at = path_view(path@);
        let ghost seen = self.seen();
        let ghost matching = self.matching(at);
        let found = self.subscribers.get_subscribers(path);
        let mut events: Vec<Delivery> = Vec::new();
        let mut i: usize = 0;
        proof {
            assert(matching.subrange(0, 0) =~= Seq::<SubscriberView>::empty());
            assert(delivery_views(events@) =~= value_events(
                due(matching.subrange(0, 0), seen, at, value@),
                key@,
                value@,
            ));
        }
        while i < found.len()
            invariant
                i <= found.len(),
                at == path_view(path@),
                subscriber_views(found@) == matching,
                forall|a: int, b: int|
                    0 <= a < b < matching.len() ==> (#[trigger] matching[a]).id != (
                    #[trigger] matching[b]).id,
                self.store == old(self).store,
                self.subscribers == old(self).subscribers,
                self.ls_subscribers == old(self).ls_subscribers,
                self.clients == old(self).clients,
                self.memory@ == noted(seen, matching.subrange(0, i as int), at, value@),
                delivery_views(events@) == value_events(
                    due(matching.subrange(0, i as int), seen, at, value@),
                    key@,
                    value@,
                ),
            decreases found.len() - i,
        {
            let subscriber = &found[i];
            let id = subscriber.id();
            let ghost s = matching[i as int];
            let ghost upto = matching.subrange(0, i + 1);
            let ghost init = matching.subrange(0, i as int);
            let ghost before = delivery_views(events@);
            proof {
                assert(s == subscriber@);
                assert(upto.drop_last() =~= init);
                assert(upto.last() == s);
                assert forall|k: int| 0 <= k < init.len() implies init[k].id != id by {
                    assert(init[k] == matching[k]);
                    assert(matching[k].id != matching[i as int].id);
                }
                lemma_noted_other(seen, init, at, value@, id);
            }
            let told = if subscriber.is_unique() {
                self.memory.observe(id, path, value)
            } else {
                true
            };
            if told {
                let pair = KeyValuePair { key: key.to_owned(), value: value.clone() };
                let mut pairs: Vec<KeyValuePair> = Vec::new();
                pairs.push(pair);
                let delivery = Delivery { subscription: id, event: PStateEvent::KeyValuePairs(pairs) };
                proof {
                    assert(crate::server::pair_views(pairs@) =~= seq![
                        KeyValueView { key: key@, value: value@ },
                    ]);
                }
                events.push(delivery);
                proof {
                    let due_before = due(init, seen, at, value@);
                    assert(due(upto, seen, at, value@) == due_before.push(id));
                    assert(delivery_views(events@) =~= before.push(delivery@));
                    assert(value_events(due_before.push(id), key@, value@) =~= value_events(
                        due_before,
                        key@,
                        value@,
                    ).push(delivery@));
                }
            }
            i += 1;
        }
        proof {
            assert(matching.subrange(0, i as int) =~= matching);
        }
        events
    }

    /// Tells the subscribers that match `path` that it is deleted, and
    /// forgets what they saw under it.
    fn notify_deleted(&mut self, path: &Vec<RegularKeySegment>, key: &str) -> (events: Vec<Delivery>)
        requires
            old(self).wf(),
        ensures
            final(self).wf(),
            final(self).store == old(self).store,
            final(self).subscribers == old(self).subscribers,
            final(self).ls_subscribers == old(self).ls_subscribers,
            final(self).clients == old(self).clients,
            final(self).seen() == unnoted(
                old(self).seen(),
                old(self).matching(path_view(path@)),
                path_view(path@),
            ),
            delivery_views(events@) == deleted_events(
                ids_of(old(self).matching(path_view(path@))),
                key@,
            ),
    {
        let ghost at = path_view(path@);
        let ghost seen = self.seen();
        let ghost matching = self.matching(at);
        let found = self.subscribers.get_subscribers(path);
        let mut events: Vec<Delivery> = Vec::new();
        let mut i: usize = 0;
        proof {
            assert(matching.subrange(0, 0) =~= Seq::<SubscriberView>::empty());
            assert(delivery_views(events@) =~= deleted_events(
                ids_of(matching.subrange(0, 0)),
                key@,
            ));
        }
        while i < found.len()
            invariant
                i <= found.len(),
                at == path_view(path@),
                subscriber_views(found@) == matching,
                self.store == old(self).store,
                self.subscribers == old(self).subscribers,
                self.ls_subscribers == old(self).ls_subscribers,
                self.clients == old(self).clients,
                self.memory@ == unnoted(seen, matching.subrange(0, i as int), at),
                delivery_views(events@) == deleted_events(
                    ids_of(matching.subrange(0, i as int)),
                    key@,
                ),
            decreases found.len() - i,
        {
            let id = found[i].id();
            let ghost upto = matching.subrange(0, i + 1);
            let ghost init = matching.subrange(0, i as int);
            let ghost before = delivery_views(events@);
            proof {
                assert(matching[i as int] == found[i as int]@);
                assert(upto.drop_last() =~= init);
                assert(upto.last() == matching[i as int]);
            }
            self.memory.forget(id, path);
            let mut keys: Vec<Key> = Vec::new();
            keys.push(key.to_owned());
            let delivery = Delivery { subscription: id, event: PStateEvent::Deleted(keys) };
            proof {
                assert(path_view(keys@) =~= seq![key@]);
            }
            events.push(delivery);
            proof {
                assert(delivery_views(events@) =~= before.push(delivery@));
                assert(ids_of(upto) =~= ids_of(init).push(id));
                assert(deleted_events(ids_of(init).push(id), key@) =~= deleted_events(
                    ids_of(init),
                    key@,
                ).push(delivery@));
            }
            i += 1;
        }
        proof {
            assert(matching.subrange(0, i as int) =~= matching);
        }
        events
    }

    /// The lists of child names for the subscriptions to the children of the
    /// parents of `path` from depth `from` on.
    fn ls_notify(&self, path: &Vec<RegularKeySegment>, from: usize) -> (events: Vec<LsDelivery>)
        requires
            self.wf(),
            from <= path.len(),
        ensures
            ls_delivery_views(events@) == ls_lists(
                self.ls_all(),
                self.values(),
                path_view(path@),
                from as nat,
                path.len() as nat,
            ),
    {
        let ghost at = path_view(path@);
        let ghost all = self.ls_all();
        let ghost values = self.values();
        let mut events: Vec<LsDelivery> = Vec::new();
        let mut depth: usize = from;
        assert(ls_delivery_views(events@) =~= ls_lists(all, values, at, from as nat, from as nat));
        while depth < path.len()
            invariant
                from <= depth <= path.len(),
                self.wf(),
                at == path_view(path@),
                all == self.ls_all(),
                values == self.values(),
                ls_delivery_views(events@) == ls_lists(
                    all,
                    values,
                    at,
                    from as nat,
                    depth as nat,
                ),
            decreases path.len() - depth,
        {
            let parent = path_start(path, depth);
            let ids = self.ls_subscribers.subscribers_of(&parent);
            let ghost names = child_list(values, path_view(parent@));
            let ghost earlier = ls_delivery_views(events@);
            assert(ls_lists(all, values, at, from as nat, (depth + 1) as nat) == ls_lists(
                all,
                values,
                at,
                from as nat,
                depth as nat,
            ) + ls_events_for(watchers(all, path_view(parent@)), names));
            if ids.len() > 0 {
                let children = match self.store.ls(&parent) {
                    Some(children) => {
                        proof {
                            lemma_child_list(path_view(children@), values, path_view(parent@));
                        }
                        children
                    },
                    None => {
                        let children: Vec<RegularKeySegment> = Vec::new();
                        proof {
                            let none = path_view(children@);
                            let above = path_view(parent@);
                            assert forall|name: Seq<char>| #[trigger]
                                none.contains(name) <==> reaches(values, above.push(name)) by {
                                if reaches(values, above.push(name)) {
                                    let p = choose|p: Seq<Seq<char>>| #[trigger]
                                        values.contains_key(p) && has_prefix(p, above.push(name));
                                    assert(p.subrange(0, above.len() as int) =~= above.push(
                                        name,
                                    ).subrange(0, above.len() as int));
                                    assert(above.push(name).subrange(0, above.len() as int)
                                        =~= above);
                                    assert(values.contains_key(p) && has_prefix(p, above));
                                }
                            }
                            lemma_child_list(none, values, above);
                        }
                        children
                    },
                };
                let mut k: usize = 0;
                assert(ids@.subrange(0, 0) =~= Seq::<SubscriptionId>::empty());
                assert(ls_delivery_views(events@) =~= earlier + ls_events_for(
                    ids@.subrange(0, 0),
                    names,
                ));
                while k < ids.len()
                    invariant
                        k <= ids.len(),
                        path_view(children@) == names,
                        ls_delivery_views(events@) == earlier + ls_events_for(
                            ids@.subrange(0, k as int),
                            names,
                        ),
                    decreases ids.len() - k,
                {
                    let ghost before = ls_delivery_views(events@);
                    let delivery = LsDelivery {
                        subscription: ids[k],
                        children: clone_path(&children),
                    };
                    events.push(delivery);
                    proof {
                        assert(ls_delivery_views(events@) =~= before.push(delivery@));
                        assert(ids@.subrange(0, k + 1) =~= ids@.subrange(0, k as int).push(
                            ids[k as int],
                        ));
                        assert(ls_events_for(ids@.subrange(0, k + 1), names) =~= ls_events_for(
                            ids@.subrange(0, k as int),
                            names,
                        ).push(delivery@));
                    }
                    k += 1;
                }
                assert(ids@.subrange(0, k as int) =~= ids@);
            } else {
                assert(ls_events_for(ids@, names) =~= Seq::<LsDeliveryView>::empty());
                assert(ls_delivery_views(events@) =~= earlier + ls_events_for(ids@, names));
            }
            depth += 1;
        }
        events
    }

    /// What `set` promises.
    #[verifier::opaque]
    pub open spec fn set_post(
        before: &Worterbuch,
        after: &Worterbuch,
        key: Seq<char>,
        value: Value,
        client_id: Seq<char>,
        r: Result<Outbox, WorterbuchError>,
    ) -> bool {
        &&& match r {
                    Ok(outbox) => {
                        let path = split(key, '/');
                        &&& key_error(key, Syntax::standard()) is None
                        &&& !read_only(path) || client_id == internal_client()
                        &&& after.values() == before.values().insert(path, value@)
                        &&& after.seen() == noted(
                            before.seen(),
                            before.matching(path),
                            path,
                            value@,
                        )
                        &&& after.same_subscriptions(before)
                        &&& outbox@.events == value_events(
                            due(before.matching(path), before.seen(), path, value@),
                            key,
                            value@,
                        )
                        &&& outbox@.ls_events == ls_news(
                            before.ls_all(),
                            before.values(),
                            after.values(),
                            path,
                            path.len(),
                        )
                    },
                    Err(e) => {
                        &&& *after == *before
                        &&& match key_error(key, Syntax::standard()) {
                            Some(error) => e@ == error,
                            None => read_only(split(key, '/')) && client_id != internal_client() && e@
                                == ErrorView::ReadOnlyKey(key),
                        }
                    },
                }
    }

    /// Stores `value` under `key` and tells the subscribers.
    ///
    /// The request is refused where the key is no key, and where it is a
    /// system key and the client is not the server itself.
    pub fn set(&mut self, key: &str, value: Value, client_id: &str) -> (r: Result<Outbox, WorterbuchError>)
        requires
            old(self).wf(),
        ensures
            final(self).wf(),
            Self::set_post(old(self), final(self), key@, value, client_id@, r),
    {
        proof {
            reveal(Worterbuch::set_post);
        }
        let syntax = Syntax::default();
        let path = parse_key(key, &syntax)?;
        if is_read_only(&path) && !is_internal(client_id) {
            return Err(WorterbuchError::ReadOnlyKey(key.to_owned()));
        }
        let ghost before = *self;
        let known = self.store.known_prefix(&path);
        let events = self.notify_value(&path, key, &value);
        self.store.set(&path, value);
        let ls_events = self.ls_notify(&path, known);
        proof {
            lemma_ls_news(
                before.ls_all(),
                before.values(),
                self.values(),
                path_view(path@),
                known as nat,
                path.len() as nat,
            );
        }
        Ok(Outbox { events, ls_events })
    }

    /// What `publish` promises.
    #[verifier::opaque]
    pub open spec fn publish_post(
        before: &Worterbuch,
        after: &Worterbuch,
        key: Seq<char>,
        value: Value,
        r: Result<Outbox, WorterbuchError>,
    ) -> bool {
        &&& match r {
                    Ok(outbox) => {
                        let path = split(key, '/');
                        &&& key_error(key, Syntax::standard()) is None
                        &&& after.values() == before.values()
                        &&& after.seen() == noted(
                            before.seen(),
                            before.matching(path),
                            path,
                            value@,
                        )
                        &&& after.same_subscriptions(before)
                        &&& outbox@.events == value_events(
                            due(before.matching(path), before.seen(), path, value@),
                            key,
                            value@,
                        )
                        &&& outbox@.ls_events.len() == 0
                    },
                    Err(e) => *after == *before && key_error(key, Syntax::standard()) == Some(
                        e@,
                    ),
                }
    }

    /// Tells the subscribers of `value` under `key` without storing it.
    pub fn publish(&mut self, key: &str, value: Value) -> (r: Result<Outbox, WorterbuchError>)
        requires
            old(self).wf(),
        ensures
            final(self).wf(),
            Self::publish_post(old(self), final(self), key@, value, r),
    {
        proof {
            reveal(Worterbuch::publish_post);
        }
        let syntax = Syntax::default();
        let path = parse_key(key, &syntax)?;
        let events = self.notify_value(&path, key, &value);
        Ok(Outbox { events, ls_events: Vec::new() })
    }

    /// What `delete` promises.
    #[verifier::opaque]
    pub open spec fn delete_post(
        before: &Worterbuch,
        after: &Worterbuch,
        key: Seq<char>,
        client_id: Seq<char>,
        r: Result<(KeyValuePair, Outbox), WorterbuchError>,
    ) -> bool {
        &&& match r {
                    Ok(done) => {
                        let path = split(key, '/');
                        &&& key_error(key, Syntax::standard()) is None
                        &&& !read_only(path) || client_id == internal_client()
                        &&& done.0@.key == key
                        &&& before.values().contains_pair(path, done.0@.value)
                        &&& after.values() == before.values().remove(path)
                        &&& after.seen() == unnoted(
                            before.seen(),
                            before.matching(path),
                            path,
                        )
                        &&& after.same_subscriptions(before)
                        &&& done.1@.events == deleted_events(ids_of(before.matching(path)), key)
                        &&& done.1@.ls_events == ls_news(
                            before.ls_all(),
                            after.values(),
                            after.values(),
                            path,
                            path.len(),
                        )
                    },
                    Err(e) => {
                        &&& *after == *before
                        &&& match key_error(key, Syntax::standard()) {
                            Some(error) => e@ == error,
                            None => if read_only(split(key, '/')) && client_id != internal_client() {
                                e@ == ErrorView::ReadOnlyKey(key)
                            } else {
                                !before.values().contains_key(split(key, '/')) && e@
                                    == ErrorView::NoSuchValue(key)
                            },
                        }
                    },
                }
    }

    /// Removes the value that is stored under `key`, tells the subscribers
    /// and returns the key with the value.
    ///
    /// The request is refused where the key is no key, where it is a system
    /// key and the client is not the server itself, and where nothing is
    /// stored under the key.
    pub fn delete(&mut self, key: &str, client_id: &str) -> (r: Result<
        (KeyValuePair, Outbox),
        WorterbuchError,
    >)
        requires
            old(self).wf(),
        ensures
            final(self).wf(),
            Self::delete_post(old(self), final(self), key@, client_id@, r),
    {
        proof {
            reveal(Worterbuch::delete_post);
        }
        let syntax = Syntax::default();
        let path = parse_key(key, &syntax)?;
        if is_read_only(&path) && !is_internal(client_id) {
            return Err(WorterbuchError::ReadOnlyKey(key.to_owned()));
        }
        if self.store.get(&path).is_none() {
            return Err(WorterbuchError::NoSuchValue(key.to_owned()));
        }
        let ghost before = *self;
        let value = self.store.delete(&path).unwrap();
        let events = self.notify_deleted(&path, key);
        let known = self.store.known_prefix(&path);
        let ls_events = self.ls_notify(&path, known);
        proof {
            lemma_ls_news(
                before.ls_all(),
                self.values(),
                self.values(),
                path_view(path@),
                known as nat,
                path.len() as nat,
            );
        }
        Ok((KeyValuePair { key: key.to_owned(), value }, Outbox { events, ls_events }))
    }
}

/// Whether one of the found paths is read-only.
pub fn has_read_only(found: &Found) -> (r: bool)
    ensures
        r == any_read_only(entry_views(found@)),
{
    let mut i: usize = 0;
    while i < found.len()
        invariant
            i <= found.len(),
            forall|j: int| 0 <= j < i ==> !read_only((#[trigger] entry_views(found@)[j]).0),
        decreases found.len() - i,
    {
        if is_read_only(&found[i].0) {
            assert(read_only(entry_views(found@)[i as int].0));
            return true;
        }
        i += 1;
    }
    false
}

impl Worterbuch {
    /// The events of the removal of the first `upto` entries, one entry
    /// after the other: for each entry one event for each subscriber that
    /// matches its path.
    pub open spec fn deletion_events(&self, entries: Seq<Entry>, upto: nat) -> Seq<DeliveryView>
        decreases upto,
    {
        if upto == 0 {
            Seq::empty()
        } else {
            self.deletion_events(entries, (upto - 1) as nat) + deleted_events(
                ids_of(self.matching(entries[upto - 1].0)),
                joined(entries[upto - 1].0, '/'),
            )
        }
    }

    /// What the subscriptions have seen after the removal of the first
    /// `upto` entries.
    pub open spec fn deletion_seen(&self, entries: Seq<Entry>, upto: nat) -> SeenMap
        decreases upto,
    {
        if upto == 0 {
            self.seen()
        } else {
            unnoted(
                self.deletion_seen(entries, (upto - 1) as nat),
                self.matching(entries[upto - 1].0),
                entries[upto - 1].0,
            )
        }
    }

    /// The news for the subscriptions to child names of the removal of the
    /// first `upto` entries, one entry after the other.
    pub open spec fn deletion_ls_events(&self, entries: Seq<Entry>, upto: nat) -> Seq<LsDeliveryView>
        decreases upto,
    {
        if upto == 0 {
            Seq::empty()
        } else {
            let left = without_paths(self.values(), entries, upto);
            self.deletion_ls_events(entries, (upto - 1) as nat) + ls_news(
                self.ls_all(),
                left,
                left,
                entries[upto - 1].0,
                entries[upto - 1].0.len(),
            )
        }
    }

    /// What `pdelete` promises.
    #[verifier::opaque]
    pub open spec fn pdelete_post(
        before: &Worterbuch,
        after: &Worterbuch,
        pattern: Seq<char>,
        client_id: Seq<char>,
        r: Result<(Vec<KeyValuePair>, Outbox), WorterbuchError>,
    ) -> bool {
        &&& match r {
                    Ok(done) => {
                        let segments = classified(split(pattern, '/'), Syntax::standard());
                        let entries = before.traversal(segments);
                        &&& pattern_error(pattern, Syntax::standard()) is None
                        &&& !any_read_only(entries) || client_id == internal_client()
                        &&& pair_views(done.0@) == joined_pairs(entries)
                        &&& after.values() == without_paths(
                            before.values(),
                            entries,
                            entries.len(),
                        )
                        &&& forall|path: Seq<Seq<char>>| #[trigger]
                            after.values().contains_key(path) <==> before.values().contains_key(path) && !pattern_matches(segments, path)
                        &&& after.seen() == before.deletion_seen(entries, entries.len())
                        &&& after.same_subscriptions(before)
                        &&& done.1@.events == before.deletion_events(entries, entries.len())
                        &&& done.1@.ls_events == before.deletion_ls_events(entries, entries.len())
                    },
                    Err(e) => {
                        &&& *after == *before
                        &&& match pattern_error(pattern, Syntax::standard()) {
                            Some(error) => e@ == error,
                            None => any_read_only(
                                before.traversal(
                                    classified(split(pattern, '/'), Syntax::standard()),
                                ),
                            ) && client_id != internal_client() && e@ == ErrorView::ReadOnlyKey(
                                pattern,
                            ),
                        }
                    },
                }
    }

    /// Removes every pair whose key `pattern` matches, one after the other
    /// in the order of `pget`, tells the subscribers and returns the pairs.
    ///
    /// The request is refused where the pattern is no pattern, and where it
    /// matches a system key and the client is not the server itself.
    pub fn pdelete(&mut self, pattern: &str, client_id: &str) -> (r: Result<
        (Vec<KeyValuePair>, Outbox),
        WorterbuchError,
    >)
        requires
            old(self).wf(),
        ensures
            final(self).wf(),
            Self::pdelete_post(old(self), final(self), pattern@, client_id@, r),
    {
        proof {
            reveal(Worterbuch::pdelete_post);
        }
        let syntax = Syntax::default();
        let segments = parse_pattern(pattern, &syntax)?;
        let found = self.store.pget(&segments);
        if has_read_only(&found) && !is_internal(client_id) {
            return Err(WorterbuchError::ReadOnlyKey(pattern.to_owned()));
        }
        let ghost before = *self;
        let ghost entries = entry_views(found@);
        let pairs = join_found(&found);
        let mut events: Vec<Delivery> = Vec::new();
        let mut ls_events: Vec<LsDelivery> = Vec::new();
        let mut i: usize = 0;
        proof {
            assert(delivery_views(events@) =~= before.deletion_events(entries, 0));
            assert(ls_delivery_views(ls_events@) =~= before.deletion_ls_events(entries, 0));
        }
        while i < found.len()
            invariant
                i <= found.len(),
                self.wf(),
                before.wf(),
                entries == entry_views(found@),
                self.subscribers == before.subscribers,
                self.ls_subscribers == before.ls_subscribers,
                self.clients == before.clients,
                self.values() == without_paths(before.values(), entries, i as nat),
                self.seen() == before.deletion_seen(entries, i as nat),
                delivery_views(events@) == before.deletion_events(entries, i as nat),
                ls_delivery_views(ls_events@) == before.deletion_ls_events(entries, i as nat),
            decreases found.len() - i,
        {
            let path = &found[i].0;
            let ghost at = entries[i as int].0;
            assert(at == path_view(path@));
            let key = join(path, '/');
            let ghost sent = delivery_views(events@);
            let ghost told = ls_delivery_views(ls_events@);
            self.store.delete(path);
            let mut more = self.notify_deleted(path, key.as_str());
            let known = self.store.known_prefix(path);
            let mut lists = self.ls_notify(path, known);
            proof {
                lemma_ls_news(
                    before.ls_all(),
                    self.values(),
                    self.values(),
                    at,
                    known as nat,
                    path.len() as nat,
                );
            }
            let ghost new_events = delivery_views(more@);
            let ghost new_lists = ls_delivery_views(lists@);
            events.append(&mut more);
            ls_events.append(&mut lists);
            proof {
                assert(delivery_views(events@) =~= sent + new_events);
                assert(ls_delivery_views(ls_events@) =~= told + new_lists);
            }
            i += 1;
        }
        proof {
            let segs = pattern_view(segments@);
            before.lemma_traversal(segs);
            lemma_without_paths(before.values(), entries, entries.len());
            assert forall|path: Seq<Seq<char>>| #[trigger]
                self.values().contains_key(path) <==> before.values().contains_key(path)
                    && !pattern_matches(segs, path) by {
                if before.values().contains_key(path) {
                    let value = before.values()[path];
                    if pattern_matches(segs, path) {
                        assert(entries.contains((path, value)));
                        let j = choose|j: int| 0 <= j < entries.len() && entries[j] == (path, value);
                        assert(entries[j].0 == path);
                    } else {
                        assert forall|j: int| 0 <= j < entries.len() implies (
                        #[trigger] entries[j]).0 != path by {
                            if entries[j].0 == path {
                                assert(entries.contains(entries[j]));
                                assert(entries.contains((path, entries[j].1)));
                            }
                        }
                    }
                }
            }
        }
        Ok((pairs, Outbox { events, ls_events }))
    }

    /// What `psubscribe` promises.
    #[verifier::opaque]
    pub open spec fn psubscribe_post(
        before: &Worterbuch,
        after: &Worterbuch,
        client_id: u128,
        transaction_id: TransactionId,
        pattern: Seq<char>,
        unique: bool,
        live_only: bool,
        r: Result<(SubscriptionId, Option<Delivery>), WorterbuchError>,
    ) -> bool {
        &&& match r {
                    Ok(done) => {
                        let segments = classified(split(pattern, '/'), Syntax::standard());
                        let entries = before.traversal(segments);
                        let id = SubscriptionId { client_id, transaction_id };
                        let gone = Selection::Subscription(id);
                        let added = SubscriberView { pattern: segments, id, unique };
                        let forgot = forgotten(before.seen(), Forget::Selected(gone));
                        &&& pattern_error(pattern, Syntax::standard()) is None
                        &&& done.0 == id
                        &&& forall|p: Seq<SegmentView>|
                            #[trigger] after.subs_at(p) == if p == segments {
                                kept(before.subs_at(p), gone).push(added)
                            } else {
                                kept(before.subs_at(p), gone)
                            }
                        &&& after.clients() == before.clients()
                        &&& after.values() == before.values()
                        &&& after.ls_all() == before.ls_all()
                        &&& after.seen() == if unique && !live_only {
                            seen_entries(forgot, id, entries, entries.len())
                        } else {
                            forgot
                        }
                        &&& match done.1 {
                            Some(first) => !live_only && first@ == (DeliveryView {
                                subscription: id,
                                event: PStateEventView::KeyValuePairs(joined_pairs(entries)),
                            }),
                            None => live_only,
                        }
                    },
                    Err(e) => *after == *before && pattern_error(pattern, Syntax::standard())
                        == Some(e@),
                }
    }

    /// Subscribes to the keys that `pattern` matches.
    ///
    /// A subscription of the same name is replaced. Unless the subscription
    /// is live-only, the pairs that the pattern matches now are returned as
    /// the first event for it, and a unique subscription has then seen them.
    pub fn psubscribe(
        &mut self,
        client_id: u128,
        transaction_id: TransactionId,
        pattern: &str,
        unique: bool,
        live_only: bool,
    ) -> (r: Result<(SubscriptionId, Option<Delivery>), WorterbuchError>)
        requires
            old(self).wf(),
        ensures
            final(self).wf(),
            Self::psubscribe_post(
                old(self),
                final(self),
                client_id,
                transaction_id,
                pattern@,
                unique,
                live_only,
                r,
            ),
    {
        proof {
            reveal(Worterbuch::psubscribe_post);
        }
        let syntax = Syntax::default();
        let segments = parse_pattern(pattern, &syntax)?;
        let id = SubscriptionId::new(client_id, transaction_id);
        let gone = Selection::Subscription(id);
        let ghost before = *self;
        self.subscribers.remove_selected(&gone);
        self.memory.forget_selected(&gone);
        let ghost cleared = *self;
        let subscriber = Subscriber::new(id, copy_pattern(&segments), unique);
        proof {
            assert(!cleared.subscribers.has(id));
        }
        self.subscribers.add_subscriber(&segments, subscriber);
        proof {
            assert forall|p: Seq<SegmentView>| #[trigger]
                self.subs_at(p) == if p == pattern_view(segments@) {
                    kept(before.subs_at(p), gone).push(subscriber@)
                } else {
                    kept(before.subs_at(p), gone)
                } by {
                assert(cleared.subscribers.subs_at(p) == kept(before.subscribers.subs_at(p), gone));
            }
        }
        if live_only {
            return Ok((id, None));
        }
        let ghost added = *self;
        let found = self.store.pget(&segments);
        let pairs = join_found(&found);
        if unique {
            let ghost entries = entry_views(found@);
            let ghost forgot = self.memory@;
            let mut i: usize = 0;
            while i < found.len()
                invariant
                    i <= found.len(),
                    entries == entry_views(found@),
                    self.store == before.store,
                    self.ls_subscribers == before.ls_subscribers,
                    self.subscribers == added.subscribers,
                    self.clients == before.clients,
                    self.memory@ == seen_entries(forgot, id, entries, i as nat),
                decreases found.len() - i,
            {
                assert(entries[i as int] == (path_view(found[i as int].0@), found[i as int].1@));
                self.memory.observe(id, &found[i].0, &found[i].1);
                i += 1;
            }
        }
        let first = Delivery { subscription: id, event: PStateEvent::KeyValuePairs(pairs) };
        Ok((id, Some(first)))
    }

    /// Subscribes to `key`, which may be a pattern: the same as
    /// `psubscribe`.
    pub fn subscribe(
        &mut self,
        client_id: u128,
        transaction_id: TransactionId,
        key: &str,
        unique: bool,
        live_only: bool,
    ) -> (r: Result<(SubscriptionId, Option<Delivery>), WorterbuchError>)
        requires
            old(self).wf(),
        ensures
            final(self).wf(),
            Self::psubscribe_post(old(self),
                final(self),
                client_id,
                transaction_id,
                key@,
                unique,
                live_only,
                r,
            ),
    {
        self.psubscribe(client_id, transaction_id, key, unique, live_only)
    }

    /// What `unsubscribe` promises.
    #[verifier::opaque]
    pub open spec fn unsubscribe_post(
        before: &Worterbuch,
        after: &Worterbuch,
        client_id: u128,
        transaction_id: TransactionId,
        r: Result<(), WorterbuchError>,
    ) -> bool {
        &&& ({
                    let id = SubscriptionId { client_id, transaction_id };
                    let gone = Selection::Subscription(id);
                    &&& match r {
                        Ok(_) => before.has_selected(gone),
                        Err(e) => !before.has_selected(gone) && e@ == ErrorView::NotSubscribed,
                    }
                    &&& !after.has_selected(gone)
                    &&& forall|p: Seq<SegmentView>|
                        #[trigger] after.subs_at(p) == kept(before.subs_at(p), gone)
                    &&& after.seen() == forgotten(before.seen(), Forget::Selected(gone))
                    &&& after.clients() == before.clients()
                    &&& after.values() == before.values()
                    &&& after.ls_all() == before.ls_all()
                })
    }

    /// Ends the subscription of this name.
    pub fn unsubscribe(&mut self, client_id: u128, transaction_id: TransactionId) -> (r: Result<
        (),
        WorterbuchError,
    >)
        requires
            old(self).wf(),
        ensures
            final(self).wf(),
            Self::unsubscribe_post(old(self), final(self), client_id, transaction_id, r),
    {
        proof {
            reveal(Worterbuch::unsubscribe_post);
        }
        let id = SubscriptionId::new(client_id, transaction_id);
        let gone = Selection::Subscription(id);
        let any = self.subscribers.remove_selected(&gone);
        self.memory.forget_selected(&gone);
        if any {
            Ok(())
        } else {
            Err(WorterbuchError::NotSubscribed)
        }
    }

    /// What `subscribe_ls` promises.
    #[verifier::opaque]
    pub open spec fn subscribe_ls_post(
        before: &Worterbuch,
        after: &Worterbuch,
        client_id: u128,
        transaction_id: TransactionId,
        parent: &Option<Key>,
        r: Result<(SubscriptionId, LsDelivery), WorterbuchError>,
    ) -> bool {
        &&& match r {
                    Ok(done) => {
                        let id = SubscriptionId { client_id, transaction_id };
                        let path = match parent {
                            Some(p) => split(p@, '/'),
                            None => Seq::empty(),
                        };
                        &&& (parent matches Some(p) ==> key_error(p@, Syntax::standard()) is None)
                        &&& done.0 == id
                        &&& after.ls_all() == ls_kept(
                            before.ls_all(),
                            Selection::Subscription(id),
                        ).push(LsSubscriberView { parent: path, id })
                        &&& done.1@ == (LsDeliveryView {
                            subscription: id,
                            children: child_list(before.values(), path),
                        })
                        &&& is_child_list(path_view(done.1.children@), before.values(), path)
                        &&& after.clients() == before.clients()
                        &&& after.values() == before.values()
                        &&& after.seen() == before.seen()
                        &&& forall|p: Seq<SegmentView>| #[trigger]
                            after.subs_at(p) == before.subs_at(p)
                    },
                    Err(e) => {
                        &&& *after == *before
                        &&& parent matches Some(p)
                        &&& key_error(p@, Syntax::standard()) == Some(e@)
                    },
                }
    }

    /// Subscribes to the names of the children of `parent`, or of the root
    /// where no parent is given, and returns the list of the names now as
    /// the first event. A subscription to child names of the same name is
    /// replaced.
    pub fn subscribe_ls(
        &mut self,
        client_id: u128,
        transaction_id: TransactionId,
        parent: &Option<Key>,
    ) -> (r: Result<(SubscriptionId, LsDelivery), WorterbuchError>)
        requires
            old(self).wf(),
        ensures
            final(self).wf(),
            Self::subscribe_ls_post(old(self), final(self), client_id, transaction_id, parent, r),
    {
        proof {
            reveal(Worterbuch::subscribe_ls_post);
        }
        let syntax = Syntax::default();
        let path = match parent {
            Some(p) => parse_key(p.as_str(), &syntax)?,
            None => Vec::new(),
        };
        assert(parent is None ==> path_view(path@) =~= Seq::<Seq<char>>::empty());
        let id = SubscriptionId::new(client_id, transaction_id);
        let children = self.children_of(&path);
        self.ls_subscribers.remove_selected(&Selection::Subscription(id));
        self.ls_subscribers.add(LsSubscriber::new(id, clone_path(&path)));
        Ok((id, LsDelivery { subscription: id, children }))
    }

    /// The names of the children of `parent`, in ascending order; none
    /// where nothing is stored below it.
    fn children_of(&self, parent: &Vec<RegularKeySegment>) -> (children: Vec<RegularKeySegment>)
        requires
            self.wf(),
        ensures
            path_view(children@) == child_list(self.values(), path_view(parent@)),
            is_child_list(path_view(children@), self.values(), path_view(parent@)),
    {
        let ghost values = self.values();
        match self.store.ls(parent) {
            Some(children) => {
                proof {
                    lemma_child_list(path_view(children@), values, path_view(parent@));
                }
                children
            },
            None => {
                let children: Vec<RegularKeySegment> = Vec::new();
                proof {
                    let none = path_view(children@);
                    let above = path_view(parent@);
                    assert forall|name: Seq<char>| #[trigger]
                        none.contains(name) <==> reaches(values, above.push(name)) by {
                        if reaches(values, above.push(name)) {
                            let p = choose|p: Seq<Seq<char>>| #[trigger]
                                values.contains_key(p) && has_prefix(p, above.push(name));
                            assert(p.subrange(0, above.len() as int) =~= above.push(name).subrange(
                                0,
                                above.len() as int,
                            ));
                            assert(above.push(name).subrange(0, above.len() as int) =~= above);
                            assert(values.contains_key(p) && has_prefix(p, above));
                        }
                    }
                    lemma_child_list(none, values, above);
                }
                children
            },
        }
    }

    /// What `unsubscribe_ls` promises.
    #[verifier::opaque]
    pub open spec fn unsubscribe_ls_post(
        before: &Worterbuch,
        after: &Worterbuch,
        client_id: u128,
        transaction_id: TransactionId,
        r: Result<(), WorterbuchError>,
    ) -> bool {
        &&& ({
                    let id = SubscriptionId { client_id, transaction_id };
                    let gone = Selection::Subscription(id);
                    &&& match r {
                        Ok(_) => before.has_selected_ls(gone),
                        Err(e) => !before.has_selected_ls(gone) && e@ == ErrorView::NotSubscribed,
                    }
                    &&& !after.has_selected_ls(gone)
                    &&& after.ls_all() == ls_kept(before.ls_all(), gone)
                    &&& after.seen() == before.seen()
                    &&& after.clients() == before.clients()
                    &&& after.values() == before.values()
                    &&& forall|p: Seq<SegmentView>| #[trigger]
                        after.subs_at(p) == before.subs_at(p)
                })
    }

    /// Ends the subscription to child names of this name.
    pub fn unsubscribe_ls(&mut self, client_id: u128, transaction_id: TransactionId) -> (r: Result<
        (),
        WorterbuchError,
    >)
        requires
            old(self).wf(),
        ensures
            final(self).wf(),
            Self::unsubscribe_ls_post(old(self), final(self), client_id, transaction_id, r),
    {
        proof {
            reveal(Worterbuch::unsubscribe_ls_post);
        }
        let id = SubscriptionId::new(client_id, transaction_id);
        let gone = Selection::Subscription(id);
        if self.ls_subscribers.remove_selected(&gone) {
            Ok(())
        } else {
            Err(WorterbuchError::NotSubscribed)
        }
    }

    /// What `disconnected` promises.
    #[verifier::opaque]
    pub open spec fn disconnected_post(
        before: &Worterbuch,
        after: &Worterbuch,
        client_id: u128,
        departed: Option<Client>,
    ) -> bool {
        &&& !after.has_selected(Selection::Client(client_id))
        &&& !after.has_selected_ls(Selection::Client(client_id))
        &&& forall|p: Seq<SegmentView>|
            #[trigger] after.subs_at(p) == kept(before.subs_at(p), Selection::Client(client_id))
        &&& after.ls_all() == ls_kept(before.ls_all(), Selection::Client(client_id))
        &&& after.seen() == forgotten(
            before.seen(),
            Forget::Selected(Selection::Client(client_id)),
        )
        &&& after.clients() == other_clients(before.clients(), client_id)
        &&& departed == registered(before.clients(), client_id)
        &&& after.values() == before.values()
    }

    /// Removes all that belongs to a client that is gone: its
    /// subscriptions, its subscriptions to child names, what its unique
    /// subscriptions have seen, and its registration, which is returned.
    pub fn disconnected(&mut self, client_id: u128) -> (departed: Option<Client>)
        requires
            old(self).wf(),
        ensures
            final(self).wf(),
            Self::disconnected_post(old(self), final(self), client_id, departed),
    {
        proof {
            reveal(Worterbuch::disconnected_post);
        }
        let departed = self.unregister(client_id);
        let gone = Selection::Client(client_id);
        self.subscribers.remove_selected(&gone);
        self.ls_subscribers.remove_selected(&gone);
        self.memory.forget_selected(&gone);
        departed
    }
}

/// An outbox without deliveries.
pub fn empty_outbox() -> (outbox: Outbox)
    ensures
        outbox@ == OutboxView::nothing(),
{
    let outbox = Outbox { events: Vec::new(), ls_events: Vec::new() };
    assert(outbox@.events =~= Seq::<DeliveryView>::empty());
    assert(outbox@.ls_events =~= Seq::<LsDeliveryView>::empty());
    outbox
}

/// Moves the deliveries of `next` behind those of `outbox`.
pub fn append_outbox(outbox: &mut Outbox, next: Outbox)
    ensures
        final(outbox)@ == old(outbox)@.followed_by(next@),
{
    let ghost before = outbox@;
    let ghost added = next@;
    let mut next = next;
    outbox.events.append(&mut next.events);
    outbox.ls_events.append(&mut next.ls_events);
    assert(outbox@.events =~= before.events + added.events);
    assert(outbox@.ls_events =~= before.ls_events + added.ls_events);
}

/// The events of a deletion by pattern; none where it was refused.
pub open spec fn deleted_outbox(r: Result<(Vec<KeyValuePair>, Outbox), WorterbuchError>) -> OutboxView {
    match r {
        Ok(done) => done.1@,
        Err(_) => OutboxView::nothing(),
    }
}

/// The events of storing a value; none where it was refused.
pub open spec fn stored_outbox(r: Result<Outbox, WorterbuchError>) -> OutboxView {
    match r {
        Ok(done) => done@,
        Err(_) => OutboxView::nothing(),
    }
}

/// The first event in an outbox for a pattern subscription, if there is
/// one.
pub open spec fn first_of(outbox: Outbox) -> Option<Delivery> {
    if outbox.events@.len() == 0 {
        None
    } else {
        Some(outbox.events@[0])
    }
}

impl Worterbuch {
    /// The engine after the keys of the first `upto` of the patterns
    /// `goods` have been deleted, one pattern after the other in the name of
    /// the server itself, and the events of that. A pattern that is refused
    /// is passed over.
    pub open spec fn goods_deleted(
        before: &Worterbuch,
        after: &Worterbuch,
        goods: Seq<String>,
        upto: nat,
        outbox: OutboxView,
    ) -> bool
        decreases upto,
    {
        if upto == 0 {
            *after == *before && outbox == OutboxView::nothing()
        } else {
            exists|
                mid: Worterbuch,
                earlier: OutboxView,
                r: Result<(Vec<KeyValuePair>, Outbox), WorterbuchError>,
            |
                #![trigger
                    Self::pdelete_post(&mid, after, goods[upto - 1]@, internal_client(), r),
                    earlier.followed_by(deleted_outbox(r))
                ]
                {
                    &&& Self::goods_deleted(before, &mid, goods, (upto - 1) as nat, earlier)
                    &&& Self::pdelete_post(&mid, after, goods[upto - 1]@, internal_client(), r)
                    &&& outbox == earlier.followed_by(deleted_outbox(r))
                }
        }
    }

    /// The engine after the first `upto` of the pairs `will` have been
    /// stored, one after the other in the name of the server itself, and the
    /// events of that. A pair that is refused is passed over.
    pub open spec fn will_stored(
        before: &Worterbuch,
        after: &Worterbuch,
        will: Seq<KeyValuePair>,
        upto: nat,
        outbox: OutboxView,
    ) -> bool
        decreases upto,
    {
        if upto == 0 {
            *after == *before && outbox == OutboxView::nothing()
        } else {
            exists|mid: Worterbuch, earlier: OutboxView, r: Result<Outbox, WorterbuchError>|
                #![trigger
                    Self::set_post(
                        &mid,
                        after,
                        will[upto - 1].key@,
                        will[upto - 1].value,
                        internal_client(),
                        r,
                    ),
                    earlier.followed_by(stored_outbox(r))
                ]
                {
                    &&& Self::will_stored(before, &mid, will, (upto - 1) as nat, earlier)
                    &&& Self::set_post(
                        &mid,
                        after,
                        will[upto - 1].key@,
                        will[upto - 1].value,
                        internal_client(),
                        r,
                    )
                    &&& outbox == earlier.followed_by(stored_outbox(r))
                }
        }
    }

    /// Deleting by pattern leaves the subscriptions as they are.
    pub proof fn lemma_pdelete_keeps_subscriptions(
        before: &Worterbuch,
        after: &Worterbuch,
        pattern: Seq<char>,
        client_id: Seq<char>,
        r: Result<(Vec<KeyValuePair>, Outbox), WorterbuchError>,
    )
        requires
            Self::pdelete_post(before, after, pattern, client_id, r),
        ensures
            after.same_subscriptions(before),
    {
        reveal(Worterbuch::pdelete_post);
    }

    /// Storing a value leaves the subscriptions as they are.
    pub proof fn lemma_set_keeps_subscriptions(
        before: &Worterbuch,
        after: &Worterbuch,
        key: Seq<char>,
        value: Value,
        client_id: Seq<char>,
        r: Result<Outbox, WorterbuchError>,
    )
        requires
            Self::set_post(before, after, key, value, client_id, r),
        ensures
            after.same_subscriptions(before),
    {
        reveal(Worterbuch::set_post);
    }

    /// What `connected` promises.
    #[verifier::opaque]
    pub open spec fn connected_post(
        before: &Worterbuch,
        after: &Worterbuch,
        client_id: u128,
        last_will: Vec<KeyValuePair>,
        grave_goods: Vec<RequestPattern>,
    ) -> bool {
        &&& after.clients() == other_clients(before.clients(), client_id).push(
            Client { id: client_id, last_will, grave_goods },
        )
        &&& after.values() == before.values()
        &&& after.seen() == before.seen()
        &&& after.ls_all() == before.ls_all()
        &&& forall|p: Seq<SegmentView>| #[trigger] after.subs_at(p) == before.subs_at(p)
    }

    /// Registers a client with what it leaves for the time when it is
    /// gone. An earlier registration of the client is replaced.
    pub fn connected(
        &mut self,
        client_id: u128,
        last_will: Vec<KeyValuePair>,
        grave_goods: Vec<RequestPattern>,
    )
        requires
            old(self).wf(),
        ensures
            final(self).wf(),
            Self::connected_post(old(self), final(self), client_id, last_will, grave_goods),
    {
        proof {
            reveal(Worterbuch::connected_post);
        }
        self.unregister(client_id);
        self.clients.push(Client { id: client_id, last_will, grave_goods });
    }

    /// What `handshake` promises.
    pub open spec fn handshake_post(
        before: &Worterbuch,
        after: &Worterbuch,
        client_versions: Seq<ProtocolVersion>,
        last_will: Vec<KeyValuePair>,
        grave_goods: Vec<RequestPattern>,
        client_id: u128,
        r: Result<Handshake, WorterbuchError>,
    ) -> bool {
        let version = ProtocolVersion { major: 0, minor: 6 };
        match r {
            Ok(handshake) => {
                &&& client_versions.contains(version)
                &&& handshake == (Handshake {
                    protocol_version: version,
                    separator: '/',
                    wildcard: '?',
                    multi_wildcard: '#',
                })
                &&& Self::connected_post(before, after, client_id, last_will, grave_goods)
            },
            Err(e) => {
                &&& !client_versions.contains(version)
                &&& e@ == ErrorView::ProtocolNegotiationFailed
                &&& *after == *before
            },
        }
    }

    /// Agrees with a client on the version of the protocol and registers
    /// the client as `connected` does. The client names the versions that
    /// it speaks; where the version of the engine is not among them the
    /// negotiation fails and nothing is registered.
    pub fn handshake(
        &mut self,
        client_versions: &Vec<ProtocolVersion>,
        last_will: Vec<KeyValuePair>,
        grave_goods: Vec<RequestPattern>,
        client_id: u128,
    ) -> (r: Result<Handshake, WorterbuchError>)
        requires
            old(self).wf(),
        ensures
            final(self).wf(),
            Self::handshake_post(
                old(self),
                final(self),
                client_versions@,
                last_will,
                grave_goods,
                client_id,
                r,
            ),
    {
        let version = self.supported_protocol_version();
        let mut i: usize = 0;
        while i < client_versions.len()
            invariant
                i <= client_versions.len(),
                *self == *old(self),
                self.wf(),
                version == (ProtocolVersion { major: 0, minor: 6 }),
                forall|k: int| 0 <= k < i ==> client_versions[k] != version,
            decreases client_versions.len() - i,
        {
            let offered = &client_versions[i];
            if offered.major == version.major && offered.minor == version.minor {
                self.connected(client_id, last_will, grave_goods);
                return Ok(
                    Handshake {
                        protocol_version: version,
                        separator: '/',
                        wildcard: '?',
                        multi_wildcard: '#',
                    },
                );
            }
            i += 1;
        }
        Err(WorterbuchError::ProtocolNegotiationFailed)
    }

    /// Takes the registration of a client out of the registry and returns
    /// the last one.
    fn unregister(&mut self, client_id: u128) -> (client: Option<Client>)
        ensures
            final(self).store == old(self).store,
            final(self).subscribers == old(self).subscribers,
            final(self).ls_subscribers == old(self).ls_subscribers,
            final(self).memory == old(self).memory,
            final(self).clients@ == other_clients(old(self).clients@, client_id),
            client == registered(old(self).clients@, client_id),
    {
        let ghost before = self.clients@;
        let ghost mut done: int = 0;
        let mut client: Option<Client> = None;
        let mut i: usize = 0;
        assert(before.subrange(0, 0) =~= Seq::<Client>::empty());
        assert(self.clients@ =~= other_clients(before.subrange(0, 0), client_id) + before.subrange(
            0,
            before.len() as int,
        ));
        while i < self.clients.len()
            invariant
                0 <= done <= before.len(),
                i == other_clients(before.subrange(0, done), client_id).len(),
                self.clients.len() - i == before.len() - done,
                self.clients@ == other_clients(before.subrange(0, done), client_id)
                    + before.subrange(done, before.len() as int),
                client == registered(before.subrange(0, done), client_id),
                self.store == old(self).store,
                self.subscribers == old(self).subscribers,
                self.ls_subscribers == old(self).ls_subscribers,
                self.memory == old(self).memory,
            decreases self.clients.len() - i,
        {
            let ghost current = self.clients@;
            let ghost upto = before.subrange(0, done + 1);
            proof {
                assert(upto.drop_last() =~= before.subrange(0, done));
                assert(upto.last() == before[done]);
                assert(current[i as int] == before[done]);
            }
            if self.clients[i].id == client_id {
                let found = self.clients.remove(i);
                client = Some(found);
                proof {
                    assert(self.clients@ =~= other_clients(upto, client_id) + before.subrange(
                        done + 1,
                        before.len() as int,
                    ));
                }
            } else {
                i += 1;
                proof {
                    assert(current =~= other_clients(upto, client_id) + before.subrange(
                        done + 1,
                        before.len() as int,
                    ));
                }
            }
            proof {
                done = done + 1;
            }
        }
        proof {
            assert(before.subrange(0, done) =~= before);
            assert(before.subrange(done, before.len() as int) =~= Seq::<Client>::empty());
            assert(self.clients@ =~= other_clients(before, client_id));
        }
        client
    }

    /// Deletes the keys of the patterns `goods`, then stores the pairs
    /// `will`, all in the name of the server itself, and returns the events
    /// of that. What is refused is passed over.
    pub fn bequeath(&mut self, goods: &Vec<RequestPattern>, will: Vec<KeyValuePair>) -> (outbox: Outbox)
        requires
            old(self).wf(),
        ensures
            final(self).wf(),
            final(self).same_subscriptions(old(self)),
            exists|mid: Worterbuch, first: OutboxView, second: OutboxView|
                #![trigger
                    Self::goods_deleted(old(self), &mid, goods@, goods@.len(), first),
                    Self::will_stored(&mid, final(self), will@, will@.len(), second)
                ]
                {
                    &&& Self::goods_deleted(old(self), &mid, goods@, goods@.len(), first)
                    &&& Self::will_stored(&mid, final(self), will@, will@.len(), second)
                    &&& outbox@ == first.followed_by(second)
                },
    {
        let ghost before = *self;
        let mut outbox = empty_outbox();
        let mut i: usize = 0;
        while i < goods.len()
            invariant
                i <= goods.len(),
                self.wf(),
                self.same_subscriptions(&before),
                Self::goods_deleted(&before, self, goods@, i as nat, outbox@),
            decreases goods.len() - i,
        {
            let ghost mid = *self;
            let ghost earlier = outbox@;
            let r = self.pdelete(goods[i].as_str(), "internal_client_id");
            let ghost result = r;
            match r {
                Ok(done) => {
                    append_outbox(&mut outbox, done.1);
                },
                Err(_) => {
                    assert(outbox@.events =~= earlier.events + OutboxView::nothing().events);
                    assert(outbox@.ls_events =~= earlier.ls_events
                        + OutboxView::nothing().ls_events);
                },
            }
            proof {
                let upto = (i + 1) as nat;
                Self::lemma_pdelete_keeps_subscriptions(
                    &mid,
                    self,
                    goods@[i as int]@,
                    internal_client(),
                    result,
                );
                assert(Self::goods_deleted(&before, &mid, goods@, (upto - 1) as nat, earlier));
                assert(Self::pdelete_post(
                    &mid,
                    self,
                    goods@[upto - 1]@,
                    internal_client(),
                    result,
                ));
                assert(outbox@ == earlier.followed_by(deleted_outbox(result)));
                assert(Self::goods_deleted(&before, self, goods@, upto, outbox@));
            }
            i += 1;
        }
        let ghost middle = *self;
        let ghost first = outbox@;
        let mut rest = empty_outbox();
        let mut j: usize = 0;
        let ghost all = will@;
        for pair in it: will
            invariant
                it.seq() == all,
                self.wf(),
                self.same_subscriptions(&before),
                Self::will_stored(&middle, self, all, it.index() as nat, rest@),
        {
            let ghost mid = *self;
            let ghost earlier = rest@;
            let ghost value = pair.value;
            let r = self.set(pair.key.as_str(), pair.value, "internal_client_id");
            let ghost result = r;
            match r {
                Ok(done) => {
                    append_outbox(&mut rest, done);
                },
                Err(_) => {
                    assert(rest@.events =~= earlier.events + OutboxView::nothing().events);
                    assert(rest@.ls_events =~= earlier.ls_events + OutboxView::nothing().ls_events);
                },
            }
            proof {
                let k = it.index() as int;
                let upto = (k + 1) as nat;
                assert(all[k].key@ == pair.key@ && all[k].value == value);
                Self::lemma_set_keeps_subscriptions(
                    &mid,
                    self,
                    all[k].key@,
                    all[k].value,
                    internal_client(),
                    result,
                );
                assert(Self::will_stored(&middle, &mid, all, (upto - 1) as nat, earlier));
                assert(Self::set_post(
                    &mid,
                    self,
                    all[upto - 1].key@,
                    all[upto - 1].value,
                    internal_client(),
                    result,
                ));
                assert(rest@ == earlier.followed_by(stored_outbox(result)));
                assert(Self::will_stored(&middle, self, all, upto, rest@));
            }
        }
        let ghost second = rest@;
        append_outbox(&mut outbox, rest);
        proof {
            assert(Self::goods_deleted(&before, &middle, goods@, goods@.len(), first));
            assert(Self::will_stored(&middle, self, all, all.len(), second));
        }
        outbox
    }

    /// What `process` promises: what the function of the engine promises
    /// that the request stands for.
    pub open spec fn process_post(
        before: &Worterbuch,
        after: &Worterbuch,
        function: WbFunction,
        reply: WbReply,
    ) -> bool {
        match function {
            WbFunction::Get(key) => {
                &&& *after == *before
                &&& reply.outbox@ == OutboxView::nothing()
                &&& match reply.answer {
                    Ok(WbAnswer::Value(k, v)) => Self::get_post(before, key@, Ok((k, v))),
                    Err(e) => Self::get_post(before, key@, Err(e)),
                    _ => false,
                }
            },
            WbFunction::PGet(pattern) => {
                &&& *after == *before
                &&& reply.outbox@ == OutboxView::nothing()
                &&& match reply.answer {
                    Ok(WbAnswer::Pairs(pairs)) => Self::pget_post(before, pattern@, Ok(pairs)),
                    Err(e) => Self::pget_post(before, pattern@, Err(e)),
                    _ => false,
                }
            },
            WbFunction::Ls(parent) => {
                &&& *after == *before
                &&& reply.outbox@ == OutboxView::nothing()
                &&& match reply.answer {
                    Ok(WbAnswer::Children(names)) => Self::ls_post(before, &parent, Ok(names)),
                    Err(e) => Self::ls_post(before, &parent, Err(e)),
                    _ => false,
                }
            },
            WbFunction::SetValue(key, value, client_id) => match reply.answer {
                Ok(WbAnswer::Done) => Self::set_post(
                    before,
                    after,
                    key@,
                    value,
                    client_id@,
                    Ok(reply.outbox),
                ),
                Err(e) => reply.outbox@ == OutboxView::nothing() && Self::set_post(
                    before,
                    after,
                    key@,
                    value,
                    client_id@,
                    Err(e),
                ),
                _ => false,
            },
            WbFunction::Publish(key, value) => match reply.answer {
                Ok(WbAnswer::Done) => Self::publish_post(
                    before,
                    after,
                    key@,
                    value,
                    Ok(reply.outbox),
                ),
                Err(e) => reply.outbox@ == OutboxView::nothing() && Self::publish_post(
                    before,
                    after,
                    key@,
                    value,
                    Err(e),
                ),
                _ => false,
            },
            WbFunction::Delete(key, client_id) => match reply.answer {
                Ok(WbAnswer::Deleted(pair)) => Self::delete_post(
                    before,
                    after,
                    key@,
                    client_id@,
                    Ok((pair, reply.outbox)),
                ),
                Err(e) => reply.outbox@ == OutboxView::nothing() && Self::delete_post(
                    before,
                    after,
                    key@,
                    client_id@,
                    Err(e),
                ),
                _ => false,
            },
            WbFunction::PDelete(pattern, client_id) => match reply.answer {
                Ok(WbAnswer::Pairs(pairs)) => Self::pdelete_post(
                    before,
                    after,
                    pattern@,
                    client_id@,
                    Ok((pairs, reply.outbox)),
                ),
                Err(e) => reply.outbox@ == OutboxView::nothing() && Self::pdelete_post(
                    before,
                    after,
                    pattern@,
                    client_id@,
                    Err(e),
                ),
                _ => false,
            },
            WbFunction::Subscribe(client_id, transaction_id, pattern, unique, live_only) => {
                match reply.answer {
                    Ok(WbAnswer::Subscribed(id)) => {
                        &&& Self::psubscribe_post(
                            before,
                            after,
                            client_id,
                            transaction_id,
                            pattern@,
                            unique,
                            live_only,
                            Ok((id, first_of(reply.outbox))),
                        )
                        &&& reply.outbox.events@.len() <= 1
                        &&& reply.outbox.ls_events@.len() == 0
                    },
                    Err(e) => reply.outbox@ == OutboxView::nothing() && Self::psubscribe_post(
                        before,
                        after,
                        client_id,
                        transaction_id,
                        pattern@,
                        unique,
                        live_only,
                        Err(e),
                    ),
                    _ => false,
                }
            },
            WbFunction::PSubscribe(client_id, transaction_id, pattern, unique, live_only) => {
                match reply.answer {
                    Ok(WbAnswer::Subscribed(id)) => {
                        &&& Self::psubscribe_post(
                            before,
                            after,
                            client_id,
                            transaction_id,
                            pattern@,
                            unique,
                            live_only,
                            Ok((id, first_of(reply.outbox))),
                        )
                        &&& reply.outbox.events@.len() <= 1
                        &&& reply.outbox.ls_events@.len() == 0
                    },
                    Err(e) => reply.outbox@ == OutboxView::nothing() && Self::psubscribe_post(
                        before,
                        after,
                        client_id,
                        transaction_id,
                        pattern@,
                        unique,
                        live_only,
                        Err(e),
                    ),
                    _ => false,
                }
            },
            WbFunction::SubscribeLs(client_id, transaction_id, parent) => match reply.answer {
                Ok(WbAnswer::Subscribed(id)) => {
                    &&& reply.outbox.events@.len() == 0
                    &&& reply.outbox.ls_events@.len() == 1
                    &&& Self::subscribe_ls_post(
                        before,
                        after,
                        client_id,
                        transaction_id,
                        &parent,
                        Ok((id, reply.outbox.ls_events@[0])),
                    )
                },
                Err(e) => reply.outbox@ == OutboxView::nothing() && Self::subscribe_ls_post(
                    before,
                    after,
                    client_id,
                    transaction_id,
                    &parent,
                    Err(e),
                ),
                _ => false,
            },
            WbFunction::Unsubscribe(client_id, transaction_id) => {
                &&& reply.outbox@ == OutboxView::nothing()
                &&& match reply.answer {
                    Ok(WbAnswer::Done) => Self::unsubscribe_post(
                        before,
                        after,
                        client_id,
                        transaction_id,
                        Ok(()),
                    ),
                    Err(e) => Self::unsubscribe_post(
                        before,
                        after,
                        client_id,
                        transaction_id,
                        Err(e),
                    ),
                    _ => false,
                }
            },
            WbFunction::UnsubscribeLs(client_id, transaction_id) => {
                &&& reply.outbox@ == OutboxView::nothing()
                &&& match reply.answer {
                    Ok(WbAnswer::Done) => Self::unsubscribe_ls_post(
                        before,
                        after,
                        client_id,
                        transaction_id,
                        Ok(()),
                    ),
                    Err(e) => Self::unsubscribe_ls_post(
                        before,
                        after,
                        client_id,
                        transaction_id,
                        Err(e),
                    ),
                    _ => false,
                }
            },
            WbFunction::Connected(client_id, last_will, grave_goods) => {
                &&& reply.outbox@ == OutboxView::nothing()
                &&& reply.answer == Ok::<WbAnswer, WorterbuchError>(WbAnswer::Done)
                &&& Self::connected_post(before, after, client_id, last_will, grave_goods)
            },
            WbFunction::Disconnected(client_id) => {
                &&& reply.answer == Ok::<WbAnswer, WorterbuchError>(WbAnswer::Done)
                &&& !after.has_selected(Selection::Client(client_id))
                &&& !after.has_selected_ls(Selection::Client(client_id))
                &&& after.clients() == other_clients(before.clients(), client_id)
                &&& exists|cleared: Worterbuch, mid: Worterbuch, first: OutboxView, second: OutboxView|
                    #![trigger
                        Self::goods_deleted(
                            &cleared,
                            &mid,
                            Self::goods_of(before, client_id),
                            Self::goods_of(before, client_id).len(),
                            first,
                        ),
                        Self::will_stored(
                            &mid,
                            after,
                            Self::will_of(before, client_id),
                            Self::will_of(before, client_id).len(),
                            second,
                        )
                    ]
                    {
                        &&& Self::disconnected_post(
                            before,
                            &cleared,
                            client_id,
                            registered(before.clients(), client_id),
                        )
                        &&& Self::goods_deleted(
                            &cleared,
                            &mid,
                            Self::goods_of(before, client_id),
                            Self::goods_of(before, client_id).len(),
                            first,
                        )
                        &&& Self::will_stored(
                            &mid,
                            after,
                            Self::will_of(before, client_id),
                            Self::will_of(before, client_id).len(),
                            second,
                        )
                        &&& reply.outbox@ == first.followed_by(second)
                    }
            },
            WbFunction::Handshake(client_id, versions, last_will, grave_goods) => {
                &&& reply.outbox@ == OutboxView::nothing()
                &&& match reply.answer {
                    Ok(WbAnswer::Agreed(handshake)) => Self::handshake_post(
                        before,
                        after,
                        versions@,
                        last_will,
                        grave_goods,
                        client_id,
                        Ok(handshake),
                    ),
                    Err(e) => Self::handshake_post(
                        before,
                        after,
                        versions@,
                        last_will,
                        grave_goods,
                        client_id,
                        Err(e),
                    ),
                    _ => false,
                }
            },
            WbFunction::Export => {
                &&& *after == *before
                &&& reply.outbox@ == OutboxView::nothing()
                &&& match reply.answer {
                    Ok(WbAnswer::Pairs(pairs)) => Self::export_post(before, pairs),
                    _ => false,
                }
            },
            WbFunction::Len => {
                &&& *after == *before
                &&& reply.outbox@ == OutboxView::nothing()
                &&& before.values().dom().finite()
                &&& reply.answer == Ok::<WbAnswer, WorterbuchError>(
                    WbAnswer::Len(before.values().dom().len() as usize),
                )
            },
            WbFunction::SupportedProtocolVersion => {
                &&& *after == *before
                &&& reply.outbox@ == OutboxView::nothing()
                &&& reply.answer == Ok::<WbAnswer, WorterbuchError>(
                    WbAnswer::Version(ProtocolVersion { major: 0, minor: 6 }),
                )
            },
        }
    }

    /// The patterns that the client `id` wants deleted when it is gone.
    pub open spec fn goods_of(wb: &Worterbuch, id: u128) -> Seq<String> {
        match registered(wb.clients(), id) {
            Some(client) => client.grave_goods@,
            None => Seq::empty(),
        }
    }

    /// The pairs that the client `id` wants stored when it is gone.
    pub open spec fn will_of(wb: &Worterbuch, id: u128) -> Seq<KeyValuePair> {
        match registered(wb.clients(), id) {
            Some(client) => client.last_will@,
            None => Seq::empty(),
        }
    }

    /// Carries out one request. Requests are carried out one after the
    /// other: each sees the state that the one before it left.
    pub fn process(&mut self, function: WbFunction) -> (reply: WbReply)
        requires
            old(self).wf(),
        ensures
            final(self).wf(),
            Self::process_post(old(self), final(self), function, reply),
    {
        match function {
            WbFunction::Get(key) => {
                let answer = match self.get(key.as_str()) {
                    Ok(pair) => Ok(WbAnswer::Value(pair.0, pair.1)),
                    Err(e) => Err(e),
                };
                WbReply { answer, outbox: empty_outbox() }
            },
            WbFunction::PGet(pattern) => {
                let answer = match self.pget(pattern.as_str()) {
                    Ok(pairs) => Ok(WbAnswer::Pairs(pairs)),
                    Err(e) => Err(e),
                };
                WbReply { answer, outbox: empty_outbox() }
            },
            WbFunction::Ls(parent) => {
                let answer = match self.ls(&parent) {
                    Ok(names) => Ok(WbAnswer::Children(names)),
                    Err(e) => Err(e),
                };
                WbReply { answer, outbox: empty_outbox() }
            },
            WbFunction::SetValue(key, value, client_id) => {
                match self.set(key.as_str(), value, client_id.as_str()) {
                    Ok(outbox) => WbReply { answer: Ok(WbAnswer::Done), outbox },
                    Err(e) => WbReply { answer: Err(e), outbox: empty_outbox() },
                }
            },
            WbFunction::Publish(key, value) => {
                match self.publish(key.as_str(), value) {
                    Ok(outbox) => WbReply { answer: Ok(WbAnswer::Done), outbox },
                    Err(e) => WbReply { answer: Err(e), outbox: empty_outbox() },
                }
            },
            WbFunction::Delete(key, client_id) => {
                match self.delete(key.as_str(), client_id.as_str()) {
                    Ok(done) => WbReply { answer: Ok(WbAnswer::Deleted(done.0)), outbox: done.1 },
                    Err(e) => WbReply { answer: Err(e), outbox: empty_outbox() },
                }
            },
            WbFunction::PDelete(pattern, client_id) => {
                match self.pdelete(pattern.as_str(), client_id.as_str()) {
                    Ok(done) => WbReply { answer: Ok(WbAnswer::Pairs(done.0)), outbox: done.1 },
                    Err(e) => WbReply { answer: Err(e), outbox: empty_outbox() },
                }
            },
            WbFunction::Subscribe(client_id, transaction_id, pattern, unique, live_only) => {
                self.process_subscribe(client_id, transaction_id, pattern.as_str(), unique, live_only)
            },
            WbFunction::PSubscribe(client_id, transaction_id, pattern, unique, live_only) => {
                self.process_subscribe(client_id, transaction_id, pattern.as_str(), unique, live_only)
            },
            WbFunction::SubscribeLs(client_id, transaction_id, parent) => {
                match self.subscribe_ls(client_id, transaction_id, &parent) {
                    Ok(done) => {
                        let ghost first = done.1;
                        let mut ls_events: Vec<LsDelivery> = Vec::new();
                        ls_events.push(done.1);
                        let outbox = Outbox { events: Vec::new(), ls_events };
                        assert(outbox.ls_events@.len() == 1 && outbox.ls_events@[0] == first);
                        WbReply { answer: Ok(WbAnswer::Subscribed(done.0)), outbox }
                    },
                    Err(e) => WbReply { answer: Err(e), outbox: empty_outbox() },
                }
            },
            WbFunction::Unsubscribe(client_id, transaction_id) => {
                let r = self.unsubscribe(client_id, transaction_id);
                let answer = match r {
                    Ok(unit) => {
                        assert(r == Ok::<(), WorterbuchError>(()));
                        Ok(WbAnswer::Done)
                    },
                    Err(e) => Err(e),
                };
                WbReply { answer, outbox: empty_outbox() }
            },
            WbFunction::UnsubscribeLs(client_id, transaction_id) => {
                let r = self.unsubscribe_ls(client_id, transaction_id);
                let answer = match r {
                    Ok(unit) => {
                        assert(r == Ok::<(), WorterbuchError>(()));
                        Ok(WbAnswer::Done)
                    },
                    Err(e) => Err(e),
                };
                WbReply { answer, outbox: empty_outbox() }
            },
            WbFunction::Connected(client_id, last_will, grave_goods) => {
                self.connected(client_id, last_will, grave_goods);
                WbReply { answer: Ok(WbAnswer::Done), outbox: empty_outbox() }
            },
            WbFunction::Disconnected(client_id) => {
                let ghost before = *self;
                let departed = self.disconnected(client_id);
                let ghost cleared = *self;
                let (goods, will) = match departed {
                    Some(client) => (client.grave_goods, client.last_will),
                    None => (Vec::new(), Vec::new()),
                };
                let ghost goods_used = goods@;
                let ghost will_used = will@;
                let outbox = self.bequeath(&goods, will);
                proof {
                    self.lemma_same_subscriptions(&cleared);
                    assert(departed == registered(before.clients(), client_id)
                        && cleared.clients() == other_clients(before.clients(), client_id)
                        && !cleared.has_selected(Selection::Client(client_id))
                        && !cleared.has_selected_ls(Selection::Client(client_id))) by {
                        reveal(Worterbuch::disconnected_post);
                    }
                    assert(goods_used =~= Self::goods_of(&before, client_id));
                    assert(will_used =~= Self::will_of(&before, client_id));
                    assert(exists|c: Worterbuch, m: Worterbuch, x: OutboxView, y: OutboxView|
                        #![trigger
                            Self::goods_deleted(&c, &m, goods_used, goods_used.len(), x),
                            Self::will_stored(&m, self, will_used, will_used.len(), y)
                        ]
                        {
                            &&& Self::disconnected_post(
                                &before,
                                &c,
                                client_id,
                                registered(before.clients(), client_id),
                            )
                            &&& Self::goods_deleted(&c, &m, goods_used, goods_used.len(), x)
                            &&& Self::will_stored(&m, self, will_used, will_used.len(), y)
                            &&& outbox@ == x.followed_by(y)
                        });
                }
                WbReply { answer: Ok(WbAnswer::Done), outbox }
            },
            WbFunction::Handshake(client_id, versions, last_will, grave_goods) => {
                let answer = match self.handshake(&versions, last_will, grave_goods, client_id) {
                    Ok(handshake) => Ok(WbAnswer::Agreed(handshake)),
                    Err(e) => Err(e),
                };
                WbReply { answer, outbox: empty_outbox() }
            },
            WbFunction::Export => {
                let pairs = self.export();
                WbReply { answer: Ok(WbAnswer::Pairs(pairs)), outbox: empty_outbox() }
            },
            WbFunction::Len => {
                let n = self.len();
                WbReply { answer: Ok(WbAnswer::Len(n)), outbox: empty_outbox() }
            },
            WbFunction::SupportedProtocolVersion => {
                let version = self.supported_protocol_version();
                WbReply { answer: Ok(WbAnswer::Version(version)), outbox: empty_outbox() }
            },
        }
    }

    /// Carries out a request to subscribe.
    fn process_subscribe(
        &mut self,
        client_id: u128,
        transaction_id: TransactionId,
        pattern: &str,
        unique: bool,
        live_only: bool,
    ) -> (reply: WbReply)
        requires
            old(self).wf(),
        ensures
            final(self).wf(),
            match reply.answer {
                Ok(WbAnswer::Subscribed(id)) => {
                    &&& Self::psubscribe_post(
                        old(self),
                        final(self),
                        client_id,
                        transaction_id,
                        pattern@,
                        unique,
                        live_only,
                        Ok((id, first_of(reply.outbox))),
                    )
                    &&& reply.outbox.events@.len() <= 1
                    &&& reply.outbox.ls_events@.len() == 0
                },
                Err(e) => reply.outbox@ == OutboxView::nothing() && Self::psubscribe_post(
                    old(self),
                    final(self),
                    client_id,
                    transaction_id,
                    pattern@,
                    unique,
                    live_only,
                    Err(e),
                ),
                _ => false,
            },
    {
        match self.psubscribe(client_id, transaction_id, pattern, unique, live_only) {
            Ok(done) => {
                let mut events: Vec<Delivery> = Vec::new();
                match done.1 {
                    Some(delivery) => {
                        events.push(delivery);
                    },
                    None => {},
                }
                let outbox = Outbox { events, ls_events: Vec::new() };
                WbReply { answer: Ok(WbAnswer::Subscribed(done.0)), outbox }
            },
            Err(e) => WbReply { answer: Err(e), outbox: empty_outbox() },
        }
    }
}

} // verus!
