//! The subscriber index: a trie whose edges are pattern segments.
//!
//! A subscriber lives at the node that its pattern leads to, so the
//! subscribers that match a key are found by walking the key down the trie
//! along three kinds of edges at once: the segment itself, the wildcard and
//! the multi-wildcard.

use crate::key::{path_view, pattern_matches, pattern_view, KeySegment, RegularKeySegment, SegmentView};
use vstd::prelude::*;

verus! {

pub type TransactionId = u64;

/// The name of a subscription: the client that owns it and the transaction
/// that made it.
#[derive(Debug, Clone, Copy, PartialEq, Eq, Hash, Structural)]
pub struct SubscriptionId {
    pub client_id: u128,
    pub transaction_id: TransactionId,
}

impl SubscriptionId {
    pub fn new(client_id: u128, transaction_id: TransactionId) -> (id: Self)
        ensures
            id == (SubscriptionId { client_id, transaction_id }),
    {
        SubscriptionId { client_id, transaction_id }
    }
}

/// One subscription to a pattern.
#[derive(Debug)]
pub struct Subscriber {
    pattern: Vec<KeySegment>,
    id: SubscriptionId,
    unique: bool,
}

/// A subscriber as a mathematical value.
pub struct SubscriberView {
    pub pattern: Seq<SegmentView>,
    pub id: SubscriptionId,
    pub unique: bool,
}

impl View for Subscriber {
    type V = SubscriberView;

    closed spec fn view(&self) -> SubscriberView {
        SubscriberView { pattern: pattern_view(self.pattern@), id: self.id, unique: self.unique }
    }
}

/// A copy of a segment.
pub fn copy_segment(segment: &KeySegment) -> (copy: KeySegment)
    ensures
        copy@ == segment@,
{
    match segment {
        KeySegment::Regular(s) => KeySegment::Regular(s.clone()),
        KeySegment::Wildcard => KeySegment::Wildcard,
        KeySegment::MultiWildcard => KeySegment::MultiWildcard,
    }
}

/// A copy of a pattern.
pub fn copy_pattern(pattern: &Vec<KeySegment>) -> (copy: Vec<KeySegment>)
    ensures
        pattern_view(copy@) == pattern_view(pattern@),
{
    let mut copy: Vec<KeySegment> = Vec::new();
    let mut i: usize = 0;
    while i < pattern.len()
        invariant
            i <= pattern.len(),
            pattern_view(copy@) == pattern_view(pattern@).subrange(0, i as int),
        decreases pattern.len() - i,
    {
        let segment = copy_segment(&pattern[i]);
        let ghost before = pattern_view(copy@);
        copy.push(segment);
        assert(pattern_view(copy@) =~= before.push(pattern[i as int]@));
        i += 1;
        assert(pattern_view(copy@) =~= pattern_view(pattern@).subrange(0, i as int));
    }
    assert(pattern_view(pattern@).subrange(0, i as int) =~= pattern_view(pattern@));
    copy
}

/// Whether two segments are the same.
pub fn same_segment(a: &KeySegment, b: &KeySegment) -> (same: bool)
    ensures
        same == (a@ == b@),
{
    match (a, b) {
        (KeySegment::Regular(x), KeySegment::Regular(y)) => *x == *y,
        (KeySegment::Wildcard, KeySegment::Wildcard) => true,
        (KeySegment::MultiWildcard, KeySegment::MultiWildcard) => true,
        _ => false,
    }
}

impl Subscriber {
    pub fn new(id: SubscriptionId, pattern: Vec<KeySegment>, unique: bool) -> (subscriber: Subscriber)
        ensures
            subscriber@ == (SubscriberView { pattern: pattern_view(pattern@), id, unique }),
    {
        Subscriber { pattern, id, unique }
    }

    pub fn is_unique(&self) -> (unique: bool)
        ensures
            unique == self@.unique,
    {
        self.unique
    }

    pub fn id(&self) -> (id: SubscriptionId)
        ensures
            id == self@.id,
    {
        self.id
    }

    pub fn pattern(&self) -> (pattern: &Vec<KeySegment>)
        ensures
            pattern_view(pattern@) == self@.pattern,
    {
        &self.pattern
    }

    /// A copy of this subscriber.
    pub fn copy(&self) -> (copy: Subscriber)
        ensures
            copy@ == self@,
    {
        Subscriber { pattern: copy_pattern(&self.pattern), id: self.id, unique: self.unique }
    }
}

/// One subscription to the names of the children of a parent.
#[derive(Debug)]
pub struct LsSubscriber {
    pub parent: Vec<RegularKeySegment>,
    pub id: SubscriptionId,
}

impl LsSubscriber {
    pub fn new(id: SubscriptionId, parent: Vec<RegularKeySegment>) -> (subscriber: LsSubscriber)
        ensures
            subscriber.id == id,
            subscriber.parent == parent,
    {
        LsSubscriber { parent, id }
    }
}

/// A subtree and the segment under which its parent holds it.
pub struct Branch {
    pub segment: KeySegment,
    pub node: Node,
}

/// A node of the subscriber trie.
pub struct Node {
    pub subscribers: Vec<Subscriber>,
    pub tree: Vec<Branch>,
}

/// Which subscribers a removal takes away.
#[derive(Debug, Clone, Copy, PartialEq, Eq, Structural)]
pub enum Selection {
    /// The one subscription of this name.
    Subscription(SubscriptionId),
    /// Every subscription of this client.
    Client(u128),
}

impl Selection {
    /// Whether the removal takes the subscription of this name.
    pub open spec fn selects(self, id: SubscriptionId) -> bool {
        match self {
            Selection::Subscription(wanted) => id == wanted,
            Selection::Client(client_id) => id.client_id == client_id,
        }
    }

    pub fn picks(&self, id: SubscriptionId) -> (picked: bool)
        ensures
            picked == self.selects(id),
    {
        match self {
            Selection::Subscription(wanted) => id.client_id == wanted.client_id
                && id.transaction_id == wanted.transaction_id,
            Selection::Client(client_id) => id.client_id == *client_id,
        }
    }
}

/// The views of a list of subscribers, in order.
pub open spec fn subscriber_views(subscribers: Seq<Subscriber>) -> Seq<SubscriberView> {
    subscribers.map_values(|s: Subscriber| s@)
}

/// The subscribers that stay when `selection` is taken away, in their order.
pub open spec fn kept(subscribers: Seq<SubscriberView>, selection: Selection) -> Seq<
    SubscriberView,
>
    decreases subscribers.len(),
{
    if subscribers.len() == 0 {
        Seq::empty()
    } else if selection.selects(subscribers.last().id) {
        kept(subscribers.drop_last(), selection)
    } else {
        kept(subscribers.drop_last(), selection).push(subscribers.last())
    }
}

/// The first position of `segment` in `segments`.
pub open spec fn first_index(segments: Seq<SegmentView>, segment: SegmentView) -> Option<int>
    decreases segments.len(),
{
    if segments.len() == 0 {
        None
    } else if segments[0] == segment {
        Some(0)
    } else {
        match first_index(segments.drop_first(), segment) {
            Some(i) => Some(i + 1),
            None => None,
        }
    }
}

/// The first position is the one before which the segment does not occur.
pub proof fn lemma_first_index(segments: Seq<SegmentView>, segment: SegmentView, i: int)
    requires
        0 <= i <= segments.len(),
        forall|j: int| 0 <= j < i ==> segments[j] != segment,
        i < segments.len() ==> segments[i] == segment,
    ensures
        first_index(segments, segment) == (if i < segments.len() {
            Some(i)
        } else {
            None
        }),
    decreases segments.len(),
{
    if segments.len() > 0 && i > 0 {
        let rest = segments.drop_first();
        assert forall|j: int| 0 <= j < i - 1 implies rest[j] != segment by {
            assert(rest[j] == segments[j + 1]);
        }
        lemma_first_index(rest, segment, i - 1);
    }
}

/// The first position, where there is one, holds the segment.
pub proof fn lemma_first_index_holds(segments: Seq<SegmentView>, segment: SegmentView)
    ensures
        match first_index(segments, segment) {
            Some(i) => 0 <= i < segments.len() && segments[i] == segment,
            None => true,
        },
    decreases segments.len(),
{
    if segments.len() > 0 && segments[0] != segment {
        lemma_first_index_holds(segments.drop_first(), segment);
    }
}

impl Node {
    /// The segments of the branches, in the order of the branches.
    pub open spec fn segments(self) -> Seq<SegmentView> {
        self.tree@.map_values(|b: Branch| b.segment@)
    }

    /// The branch that `segment` leads to, if there is one.
    pub open spec fn branch(self, segment: SegmentView) -> Option<Node> {
        match first_index(self.segments(), segment) {
            Some(i) => Some(self.tree[i].node),
            None => None,
        }
    }

    /// The subscribers whose pattern is `pattern`, seen from this node, in
    /// the order in which they were added.
    pub open spec fn subs_at(self, pattern: Seq<SegmentView>) -> Seq<SubscriberView>
        decreases pattern.len(),
    {
        if pattern.len() == 0 {
            subscriber_views(self.subscribers@)
        } else {
            match first_index(self.segments(), pattern[0]) {
                Some(i) => self.tree[i].node.subs_at(pattern.drop_first()),
                None => Seq::empty(),
            }
        }
    }

    /// The subscribers that the walk of `key` down the trie comes by: below
    /// the wildcard branch those for the rest of the key, at the
    /// multi-wildcard branch those that live there, below the branch of the
    /// first segment those for the rest of the key, and at the end of the key
    /// those that live at the node reached.
    pub open spec fn matching(self, key: Seq<Seq<char>>) -> Seq<SubscriberView>
        decreases key.len(),
    {
        if key.len() == 0 {
            subscriber_views(self.subscribers@)
        } else {
            self.matching_wildcard(key) + self.matching_multi() + self.matching_regular(key)
        }
    }

    pub open spec fn matching_wildcard(self, key: Seq<Seq<char>>) -> Seq<SubscriberView>
        decreases key.len(), 0nat,
    {
        if key.len() == 0 {
            Seq::empty()
        } else {
            match first_index(self.segments(), SegmentView::Wildcard) {
                Some(i) => self.tree[i].node.matching(key.drop_first()),
                None => Seq::empty(),
            }
        }
    }

    pub open spec fn matching_multi(self) -> Seq<SubscriberView> {
        match first_index(self.segments(), SegmentView::MultiWildcard) {
            Some(i) => subscriber_views(self.tree[i].node.subscribers@),
            None => Seq::empty(),
        }
    }

    pub open spec fn matching_regular(self, key: Seq<Seq<char>>) -> Seq<SubscriberView>
        decreases key.len(), 0nat,
    {
        if key.len() == 0 {
            Seq::empty()
        } else {
            match first_index(self.segments(), SegmentView::Regular(key[0])) {
                Some(i) => self.tree[i].node.matching(key.drop_first()),
                None => Seq::empty(),
            }
        }
    }

    /// No two subscribers below this node have the same name.
    pub open spec fn unique_ids(self) -> bool {
        forall|p: Seq<SegmentView>, i: int, q: Seq<SegmentView>, j: int|
            0 <= i < self.subs_at(p).len() && 0 <= j < self.subs_at(q).len() && (
            #[trigger] self.subs_at(p)[i]).id == (#[trigger] self.subs_at(q)[j]).id ==> p == q && i
                == j
    }

    /// A node without subscribers and branches.
    pub fn new() -> (node: Node)
        ensures
            node.subscribers@.len() == 0,
            node.tree@.len() == 0,
    {
        Node { subscribers: Vec::new(), tree: Vec::new() }
    }

    /// The position of the branch that `segment` leads to.
    pub fn find(&self, segment: &KeySegment) -> (position: Option<usize>)
        ensures
            match position {
                Some(i) => first_index(self.segments(), segment@) == Some(i as int) && i
                    < self.tree.len(),
                None => first_index(self.segments(), segment@) is None,
            },
    {
        let mut i: usize = 0;
        while i < self.tree.len()
            invariant
                i <= self.tree.len(),
                forall|j: int| 0 <= j < i ==> self.segments()[j] != segment@,
            decreases self.tree.len() - i,
        {
            assert(self.segments()[i as int] == self.tree[i as int].segment@);
            if same_segment(&self.tree[i].segment, segment) {
                proof {
                    lemma_first_index(self.segments(), segment@, i as int);
                }
                return Some(i);
            }
            i += 1;
        }
        proof {
            lemma_first_index(self.segments(), segment@, i as int);
        }
        None
    }
}

/// Every subscriber that stays was there before and is not selected.
pub proof fn lemma_kept_sound(subscribers: Seq<SubscriberView>, selection: Selection, i: int)
    requires
        0 <= i < kept(subscribers, selection).len(),
    ensures
        subscribers.contains(kept(subscribers, selection)[i]),
        !selection.selects(kept(subscribers, selection)[i].id),
        kept(subscribers, selection).len() <= subscribers.len(),
    decreases subscribers.len(),
{
    let before = kept(subscribers.drop_last(), selection);
    lemma_kept_len(subscribers.drop_last(), selection);
    if i < before.len() {
        lemma_kept_sound(subscribers.drop_last(), selection, i);
        let j = choose|j: int|
            0 <= j < subscribers.drop_last().len() && subscribers.drop_last()[j] == before[i];
        assert(subscribers[j] == before[i]);
    } else {
        assert(subscribers[subscribers.len() - 1] == subscribers.last());
    }
}

pub proof fn lemma_kept_len(subscribers: Seq<SubscriberView>, selection: Selection)
    ensures
        kept(subscribers, selection).len() <= subscribers.len(),
    decreases subscribers.len(),
{
    if subscribers.len() > 0 {
        lemma_kept_len(subscribers.drop_last(), selection);
    }
}

/// Every subscriber that is not selected stays.
pub proof fn lemma_kept_complete(subscribers: Seq<SubscriberView>, selection: Selection, i: int)
    requires
        0 <= i < subscribers.len(),
        !selection.selects(subscribers[i].id),
    ensures
        kept(subscribers, selection).contains(subscribers[i]),
    decreases subscribers.len(),
{
    let before = kept(subscribers.drop_last(), selection);
    if i < subscribers.len() - 1 {
        lemma_kept_complete(subscribers.drop_last(), selection, i);
        let j = choose|j: int| 0 <= j < before.len() && before[j] == subscribers.drop_last()[i];
        assert(kept(subscribers, selection)[j] == subscribers[i]);
    } else {
        assert(kept(subscribers, selection)[before.len() as int] == subscribers[i]);
    }
}

/// Where nothing is selected, everything stays; else the list gets shorter.
pub proof fn lemma_kept_all(subscribers: Seq<SubscriberView>, selection: Selection)
    ensures
        (forall|i: int| 0 <= i < subscribers.len() ==> !selection.selects(subscribers[i].id))
            ==> kept(subscribers, selection) == subscribers,
        (exists|i: int| 0 <= i < subscribers.len() && selection.selects(subscribers[i].id)) ==> kept(
            subscribers,
            selection,
        ).len() < subscribers.len(),
    decreases subscribers.len(),
{
    if subscribers.len() > 0 {
        let init = subscribers.drop_last();
        lemma_kept_all(init, selection);
        lemma_kept_len(init, selection);
        if forall|i: int| 0 <= i < subscribers.len() ==> !selection.selects(subscribers[i].id) {
            assert forall|i: int| 0 <= i < init.len() implies !selection.selects(init[i].id) by {
                assert(init[i] == subscribers[i]);
            }
            assert(kept(subscribers, selection) =~= subscribers);
        }
        if exists|i: int| 0 <= i < subscribers.len() && selection.selects(subscribers[i].id) {
            let i = choose|i: int| 0 <= i < subscribers.len() && selection.selects(subscribers[i].id);
            if i < init.len() {
                assert(init[i] == subscribers[i]);
            }
        }
    }
}

/// Where no two subscribers of a list have the same name, the same holds
/// of those that stay.
pub proof fn lemma_kept_distinct(subscribers: Seq<SubscriberView>, selection: Selection)
    requires
        forall|i: int, j: int|
            0 <= i < j < subscribers.len() ==> subscribers[i].id != subscribers[j].id,
    ensures
        forall|i: int, j: int|
            0 <= i < j < kept(subscribers, selection).len() ==> kept(subscribers, selection)[i].id
                != kept(subscribers, selection)[j].id,
    decreases subscribers.len(),
{
    if subscribers.len() > 0 {
        let init = subscribers.drop_last();
        assert forall|i: int, j: int| 0 <= i < j < init.len() implies init[i].id != init[j].id by {
            assert(init[i] == subscribers[i] && init[j] == subscribers[j]);
        }
        lemma_kept_distinct(init, selection);
        let before = kept(init, selection);
        let after = kept(subscribers, selection);
        assert forall|i: int, j: int| 0 <= i < j < after.len() implies after[i].id
            != after[j].id by {
            if j >= before.len() {
                lemma_kept_sound(init, selection, i);
                let k = choose|k: int| 0 <= k < init.len() && init[k] == before[i];
                assert(subscribers[k] == init[k]);
            }
        }
    }
}

/// Where a segment stands after another one has been added at the end.
pub proof fn lemma_first_index_push(
    segments: Seq<SegmentView>,
    added: SegmentView,
    segment: SegmentView,
)
    ensures
        first_index(segments.push(added), segment) == match first_index(segments, segment) {
            Some(i) => Some(i),
            None => if segment == added {
                Some(segments.len() as int)
            } else {
                None
            },
        },
    decreases segments.len(),
{
    let after = segments.push(added);
    if segments.len() == 0 {
        assert(after.drop_first() =~= Seq::<SegmentView>::empty());
    } else {
        assert(after.drop_first() =~= segments.drop_first().push(added));
        lemma_first_index_push(segments.drop_first(), added, segment);
    }
}

/// Removes the selected subscribers from a list and says whether there were
/// any.
pub fn drop_selected(subscribers: &mut Vec<Subscriber>, selection: &Selection) -> (any: bool)
    ensures
        subscriber_views(final(subscribers)@) == kept(subscriber_views(old(subscribers)@), *selection),
        any == (exists|i: int|
            0 <= i < old(subscribers).len() && selection.selects(
                subscriber_views(old(subscribers)@)[i].id,
            )),
{
    let ghost before = subscriber_views(subscribers@);
    let ghost mut done: int = 0;
    let mut any = false;
    let mut i: usize = 0;
    assert(before.subrange(0, 0) =~= Seq::<SubscriberView>::empty());
    assert(subscriber_views(subscribers@) =~= kept(before.subrange(0, 0), *selection)
        + before.subrange(0, before.len() as int));
    while i < subscribers.len()
        invariant
            0 <= done <= before.len(),
            i == kept(before.subrange(0, done), *selection).len(),
            subscribers.len() - i == before.len() - done,
            subscriber_views(subscribers@) == kept(before.subrange(0, done), *selection)
                + before.subrange(done, before.len() as int),
            any == (exists|k: int| 0 <= k < done && selection.selects(before[k].id)),
        decreases subscribers.len() - i,
    {
        let ghost current = subscriber_views(subscribers@);
        let ghost upto = before.subrange(0, done + 1);
        proof {
            assert(upto.drop_last() =~= before.subrange(0, done));
            assert(upto.last() == before[done]);
            assert(current[i as int] == before[done]);
            assert(current[i as int] == subscribers[i as int]@);
        }
        if selection.picks(subscribers[i].id()) {
            subscribers.remove(i);
            any = true;
            proof {
                assert(subscriber_views(subscribers@) =~= current.remove(i as int));
                assert(current.remove(i as int) =~= kept(upto, *selection) + before.subrange(
                    done + 1,
                    before.len() as int,
                ));
                assert(selection.selects(before[done].id));
            }
        } else {
            i += 1;
            proof {
                assert(current =~= kept(upto, *selection) + before.subrange(
                    done + 1,
                    before.len() as int,
                ));
                if exists|k: int| 0 <= k < done + 1 && selection.selects(before[k].id) {
                    let k = choose|k: int| 0 <= k < done + 1 && selection.selects(before[k].id);
                    assert(0 <= k < done && selection.selects(before[k].id));
                }
            }
        }
        proof {
            done = done + 1;
        }
    }
    proof {
        assert(before.subrange(0, done) =~= before);
        assert(before.subrange(done, before.len() as int) =~= Seq::<SubscriberView>::empty());
        assert(subscriber_views(subscribers@) =~= kept(before, *selection));
    }
    any
}

/// No segment occurs twice.
pub open spec fn distinct(segments: Seq<SegmentView>) -> bool {
    forall|i: int, j: int| 0 <= i < j < segments.len() ==> segments[i] != segments[j]
}

/// Among distinct segments each is found where it stands.
pub proof fn lemma_first_index_distinct(segments: Seq<SegmentView>, i: int)
    requires
        distinct(segments),
        0 <= i < segments.len(),
    ensures
        first_index(segments, segments[i]) == Some(i),
{
    lemma_first_index(segments, segments[i], i);
}

impl Node {
    /// No two branches of a node have the same segment, here and below.
    pub open spec fn wf(self) -> bool
        decreases self,
    {
        &&& distinct(self.segments())
        &&& forall|i: int| 0 <= i < self.tree.len() ==> (#[trigger] self.tree[i]).node.wf()
    }

    /// A subscriber below this node is selected.
    pub open spec fn has_selected(self, selection: Selection) -> bool {
        exists|p: Seq<SegmentView>, i: int|
            0 <= i < self.subs_at(p).len() && selection.selects((#[trigger] self.subs_at(p)[i]).id)
    }

    /// Adds `subscriber` at the end of the rest of `pattern` from `depth`
    /// on.
    pub fn add(&mut self, pattern: &Vec<KeySegment>, depth: usize, subscriber: Subscriber)
        requires
            old(self).wf(),
            depth <= pattern.len(),
        ensures
            final(self).wf(),
            forall|p: Seq<SegmentView>|
                #[trigger] final(self).subs_at(p) == if p == pattern_view(pattern@).skip(
                    depth as int,
                ) {
                    old(self).subs_at(p).push(subscriber@)
                } else {
                    old(self).subs_at(p)
                },
        decreases pattern.len() - depth,
    {
        let ghost rest = pattern_view(pattern@).skip(depth as int);
        let ghost before = *self;
        let ghost added = subscriber@;
        if depth == pattern.len() {
            self.subscribers.push(subscriber);
            proof {
                assert(rest =~= Seq::<SegmentView>::empty());
                assert(subscriber_views(self.subscribers@) =~= subscriber_views(
                    before.subscribers@,
                ).push(added));
                assert(self.segments() =~= before.segments());
                assert forall|p: Seq<SegmentView>| #[trigger]
                    self.subs_at(p) == if p == rest {
                        before.subs_at(p).push(added)
                    } else {
                        before.subs_at(p)
                    } by {
                    if p.len() == 0 {
                        assert(p =~= rest);
                    }
                }
            }
        } else {
            let ghost segment = pattern[depth as int]@;
            let ghost below = pattern_view(pattern@).skip(depth + 1);
            proof {
                assert(rest[0] == segment);
                assert(rest.drop_first() =~= below);
            }
            match self.find(&pattern[depth]) {
                Some(i) => {
                    self.tree[i].node.add(pattern, depth + 1, subscriber);
                    proof {
                        assert(self.segments() =~= before.segments());
                        assert forall|k: int| 0 <= k < self.tree.len() implies (
                        #[trigger] self.tree[k]).node.wf() by {
                            if k != i {
                                assert(self.tree[k] == before.tree[k]);
                            }
                        }
                        assert forall|p: Seq<SegmentView>| #[trigger]
                            self.subs_at(p) == if p == rest {
                                before.subs_at(p).push(added)
                            } else {
                                before.subs_at(p)
                            } by {
                            if p.len() > 0 {
                                match first_index(before.segments(), p[0]) {
                                    Some(k) => {
                                        lemma_first_index_holds(before.segments(), p[0]);
                                        if k == i {
                                            let below_p = p.drop_first();
                                            assert(self.tree[i as int].node.subs_at(below_p) == (
                                            if below_p == below {
                                                before.tree[i as int].node.subs_at(below_p).push(
                                                    added,
                                                )
                                            } else {
                                                before.tree[i as int].node.subs_at(below_p)
                                            }));
                                            lemma_first_index_holds(before.segments(), segment);
                                            if below_p == below {
                                                lemma_same_pattern(p, rest);
                                            }
                                        } else {
                                            assert(self.tree[k] == before.tree[k]);
                                        }
                                    },
                                    None => {},
                                }
                            }
                        }
                    }
                },
                None => {
                    let mut node = Node::new();
                    let ghost fresh = node;
                    node.add(pattern, depth + 1, subscriber);
                    let branch = Branch { segment: copy_segment(&pattern[depth]), node };
                    self.tree.push(branch);
                    proof {
                        let segments = before.segments();
                        assert(self.segments() =~= segments.push(segment));
                        assert forall|a: int, b: int|
                            0 <= a < b < self.segments().len() implies self.segments()[a]
                            != self.segments()[b] by {
                            if b == segments.len() {
                                lemma_first_index_none(segments, segment, a);
                            }
                        }
                        assert forall|k: int| 0 <= k < self.tree.len() implies (
                        #[trigger] self.tree[k]).node.wf() by {
                            if k < before.tree.len() {
                                assert(self.tree[k] == before.tree[k]);
                            }
                        }
                        assert forall|p: Seq<SegmentView>| #[trigger]
                            self.subs_at(p) == if p == rest {
                                before.subs_at(p).push(added)
                            } else {
                                before.subs_at(p)
                            } by {
                            if p.len() > 0 {
                                lemma_first_index_push(segments, segment, p[0]);
                                match first_index(segments, p[0]) {
                                    Some(k) => {
                                        lemma_first_index_holds(segments, p[0]);
                                        assert(self.tree[k] == before.tree[k]);
                                    },
                                    None => {
                                        if p[0] == segment {
                                            let below_p = p.drop_first();
                                            let last = segments.len() as int;
                                            assert(self.tree[last].node.subs_at(below_p) == (
                                            if below_p == below {
                                                fresh.subs_at(below_p).push(added)
                                            } else {
                                                fresh.subs_at(below_p)
                                            }));
                                            assert(fresh.subs_at(below_p) =~= Seq::<
                                                SubscriberView,
                                            >::empty());
                                            if below_p == below {
                                                lemma_same_pattern(p, rest);
                                                assert(before.subs_at(p).push(added) =~= seq![
                                                    added,
                                                ]);
                                            }
                                        }
                                    },
                                }
                            }
                        }
                    }
                },
            }
        }
    }

    /// Removes the subscribers of the rest of `pattern` from `depth` on that
    /// `selection` selects, and says whether there were any.
    pub fn remove_at(&mut self, pattern: &Vec<KeySegment>, depth: usize, selection: &Selection) -> (any:
        bool)
        requires
            old(self).wf(),
            depth <= pattern.len(),
        ensures
            final(self).wf(),
            forall|p: Seq<SegmentView>|
                #[trigger] final(self).subs_at(p) == if p == pattern_view(pattern@).skip(
                    depth as int,
                ) {
                    kept(old(self).subs_at(p), *selection)
                } else {
                    old(self).subs_at(p)
                },
            any == (exists|i: int|
                0 <= i < old(self).subs_at(pattern_view(pattern@).skip(depth as int)).len()
                    && selection.selects(
                    (#[trigger] old(self).subs_at(pattern_view(pattern@).skip(depth as int))[i]).id,
                )),
        decreases pattern.len() - depth,
    {
        let ghost rest = pattern_view(pattern@).skip(depth as int);
        let ghost before = *self;
        if depth == pattern.len() {
            let any = drop_selected(&mut self.subscribers, selection);
            proof {
                assert(rest =~= Seq::<SegmentView>::empty());
                assert(before.subs_at(rest) == subscriber_views(before.subscribers@));
                assert(self.segments() =~= before.segments());
                assert forall|p: Seq<SegmentView>| #[trigger]
                    self.subs_at(p) == if p == rest {
                        kept(before.subs_at(p), *selection)
                    } else {
                        before.subs_at(p)
                    } by {
                    if p.len() == 0 {
                        assert(p =~= rest);
                    }
                }
            }
            any
        } else {
            let ghost segment = pattern[depth as int]@;
            let ghost below = pattern_view(pattern@).skip(depth + 1);
            proof {
                assert(rest[0] == segment);
                assert(rest.drop_first() =~= below);
            }
            match self.find(&pattern[depth]) {
                Some(i) => {
                    let any = self.tree[i].node.remove_at(pattern, depth + 1, selection);
                    proof {
                        assert(before.subs_at(rest) == before.tree[i as int].node.subs_at(below));
                        assert(self.segments() =~= before.segments());
                        assert forall|k: int| 0 <= k < self.tree.len() implies (
                        #[trigger] self.tree[k]).node.wf() by {
                            if k != i {
                                assert(self.tree[k] == before.tree[k]);
                            }
                        }
                        assert forall|p: Seq<SegmentView>| #[trigger]
                            self.subs_at(p) == if p == rest {
                                kept(before.subs_at(p), *selection)
                            } else {
                                before.subs_at(p)
                            } by {
                            if p.len() > 0 {
                                match first_index(before.segments(), p[0]) {
                                    Some(k) => {
                                        lemma_first_index_holds(before.segments(), p[0]);
                                        if k == i {
                                            let below_p = p.drop_first();
                                            assert(self.tree[i as int].node.subs_at(below_p) == (
                                            if below_p == below {
                                                kept(
                                                    before.tree[i as int].node.subs_at(below_p),
                                                    *selection,
                                                )
                                            } else {
                                                before.tree[i as int].node.subs_at(below_p)
                                            }));
                                            lemma_first_index_holds(before.segments(), segment);
                                            if below_p == below {
                                                lemma_same_pattern(p, rest);
                                            }
                                        } else {
                                            assert(self.tree[k] == before.tree[k]);
                                        }
                                    },
                                    None => {},
                                }
                            }
                        }
                    }
                    any
                },
                None => {
                    proof {
                        assert(before.subs_at(rest) =~= Seq::<SubscriberView>::empty());
                        assert forall|p: Seq<SegmentView>| #[trigger]
                            self.subs_at(p) == if p == rest {
                                kept(before.subs_at(p), *selection)
                            } else {
                                before.subs_at(p)
                            } by {}
                    }
                    false
                },
            }
        }
    }
}

/// Two patterns with the same first segment and the same rest are the same.
pub proof fn lemma_same_pattern(a: Seq<SegmentView>, b: Seq<SegmentView>)
    requires
        a.len() > 0,
        b.len() > 0,
        a[0] == b[0],
        a.drop_first() == b.drop_first(),
    ensures
        a == b,
{
    assert(a =~= seq![a[0]] + a.drop_first());
    assert(b =~= seq![b[0]] + b.drop_first());
}

/// A segment that is not found does not occur.
pub proof fn lemma_first_index_none(segments: Seq<SegmentView>, segment: SegmentView, i: int)
    requires
        first_index(segments, segment) is None,
        0 <= i < segments.len(),
    ensures
        segments[i] != segment,
    decreases segments.len(),
{
    if i > 0 {
        assert(segments.drop_first()[i - 1] == segments[i]);
        lemma_first_index_none(segments.drop_first(), segment, i - 1);
    }
}

/// The subscribers of a pattern that starts with the segment of a branch
/// are those of the rest of the pattern in that branch.
pub proof fn lemma_subs_at_branch(node: Node, segment: SegmentView, rest: Seq<SegmentView>)
    ensures
        node.subs_at(seq![segment] + rest) == match first_index(node.segments(), segment) {
            Some(k) => node.tree[k].node.subs_at(rest),
            None => Seq::empty(),
        },
{
    let pattern = seq![segment] + rest;
    assert(pattern[0] == segment);
    assert(pattern.drop_first() =~= rest);
}

/// Every subscriber that the walk of a key comes by lives at a pattern that
/// matches the key. The result is that pattern and the subscriber's place
/// there.
pub proof fn lemma_matching_sound(node: Node, key: Seq<Seq<char>>, i: int) -> (at: (
    Seq<SegmentView>,
    int,
))
    requires
        0 <= i < node.matching(key).len(),
    ensures
        pattern_matches(at.0, key),
        0 <= at.1 < node.subs_at(at.0).len(),
        node.subs_at(at.0)[at.1] == node.matching(key)[i],
        key.len() > 0 ==> at.0.len() > 0 && at.0[0] == (if i < node.matching_wildcard(key).len() {
            SegmentView::Wildcard
        } else if i < node.matching_wildcard(key).len() + node.matching_multi().len() {
            SegmentView::MultiWildcard
        } else {
            SegmentView::Regular(key[0])
        }),
    decreases key.len(),
{
    if key.len() == 0 {
        (Seq::empty(), i)
    } else {
        let w = node.matching_wildcard(key).len() as int;
        let m = node.matching_multi().len() as int;
        let rest = key.drop_first();
        if i < w {
            let k = first_index(node.segments(), SegmentView::Wildcard)->0;
            let below = lemma_matching_sound(node.tree[k].node, rest, i);
            let pattern = seq![SegmentView::Wildcard] + below.0;
            lemma_subs_at_branch(node, SegmentView::Wildcard, below.0);
            assert(pattern.drop_first() =~= below.0);
            (pattern, below.1)
        } else if i < w + m {
            let pattern = seq![SegmentView::MultiWildcard];
            lemma_subs_at_branch(node, SegmentView::MultiWildcard, Seq::empty());
            assert(pattern =~= seq![SegmentView::MultiWildcard] + Seq::<SegmentView>::empty());
            (pattern, i - w)
        } else {
            let segment = SegmentView::Regular(key[0]);
            let k = first_index(node.segments(), segment)->0;
            let below = lemma_matching_sound(node.tree[k].node, rest, i - w - m);
            let pattern = seq![segment] + below.0;
            lemma_subs_at_branch(node, segment, below.0);
            assert(pattern.drop_first() =~= below.0);
            (pattern, below.1)
        }
    }
}

/// Every subscriber that lives at a pattern that matches the key is among
/// those that the walk of the key comes by. The result is its place there.
pub proof fn lemma_matching_complete(
    node: Node,
    key: Seq<Seq<char>>,
    pattern: Seq<SegmentView>,
    j: int,
) -> (i: int)
    requires
        pattern_matches(pattern, key),
        0 <= j < node.subs_at(pattern).len(),
    ensures
        0 <= i < node.matching(key).len(),
        node.matching(key)[i] == node.subs_at(pattern)[j],
    decreases key.len(),
{
    if key.len() == 0 {
        j
    } else {
        let w = node.matching_wildcard(key).len() as int;
        let m = node.matching_multi().len() as int;
        let rest = key.drop_first();
        let below = pattern.drop_first();
        assert(pattern =~= seq![pattern[0]] + below);
        lemma_subs_at_branch(node, pattern[0], below);
        let k = first_index(node.segments(), pattern[0])->0;
        match pattern[0] {
            SegmentView::Wildcard => { lemma_matching_complete(node.tree[k].node, rest, below, j) },
            SegmentView::MultiWildcard => {
                assert(below =~= Seq::<SegmentView>::empty());
                w + j
            },
            SegmentView::Regular(s) => {
                w + m + lemma_matching_complete(node.tree[k].node, rest, below, j)
            },
        }
    }
}

/// Where no two subscribers below a node have the same name, the same
/// holds below each of its branches.
pub proof fn lemma_unique_ids_branch(node: Node, segment: SegmentView)
    requires
        node.unique_ids(),
        first_index(node.segments(), segment) is Some,
    ensures
        node.tree[first_index(node.segments(), segment)->0].node.unique_ids(),
{
    let k = first_index(node.segments(), segment)->0;
    let child = node.tree[k].node;
    assert forall|p: Seq<SegmentView>, i: int, q: Seq<SegmentView>, j: int|
        0 <= i < child.subs_at(p).len() && 0 <= j < child.subs_at(q).len() && (
        #[trigger] child.subs_at(p)[i]).id == (#[trigger] child.subs_at(q)[j]).id implies p == q
        && i == j by {
        let pp = seq![segment] + p;
        let qq = seq![segment] + q;
        lemma_subs_at_branch(node, segment, p);
        lemma_subs_at_branch(node, segment, q);
        assert(node.subs_at(pp)[i].id == node.subs_at(qq)[j].id);
        assert(pp.drop_first() =~= p);
        assert(qq.drop_first() =~= q);
    }
}

/// Where no two subscribers below a node have the same name, the walk of a
/// key comes by no name twice.
pub proof fn lemma_matching_distinct(node: Node, key: Seq<Seq<char>>, a: int, b: int)
    requires
        node.unique_ids(),
        0 <= a < b < node.matching(key).len(),
    ensures
        node.matching(key)[a].id != node.matching(key)[b].id,
    decreases key.len(),
{
    if key.len() == 0 {
        let top = Seq::<SegmentView>::empty();
        assert(node.subs_at(top)[a].id != node.subs_at(top)[b].id);
    } else {
        let w = node.matching_wildcard(key).len() as int;
        let m = node.matching_multi().len() as int;
        let rest = key.drop_first();
        let at_a = lemma_matching_sound(node, key, a);
        let at_b = lemma_matching_sound(node, key, b);
        if b < w {
            lemma_unique_ids_branch(node, SegmentView::Wildcard);
            let k = first_index(node.segments(), SegmentView::Wildcard)->0;
            lemma_matching_distinct(node.tree[k].node, rest, a, b);
        } else if a >= w + m {
            let segment = SegmentView::Regular(key[0]);
            lemma_unique_ids_branch(node, segment);
            let k = first_index(node.segments(), segment)->0;
            lemma_matching_distinct(node.tree[k].node, rest, a - w - m, b - w - m);
        } else if a >= w && b < w + m {
            let pattern = seq![SegmentView::MultiWildcard];
            lemma_subs_at_branch(node, SegmentView::MultiWildcard, Seq::empty());
            assert(pattern =~= seq![SegmentView::MultiWildcard] + Seq::<SegmentView>::empty());
            assert(node.subs_at(pattern)[a - w].id != node.subs_at(pattern)[b - w].id);
        } else {
            assert(at_a.0[0] != at_b.0[0]);
            assert(node.subs_at(at_a.0)[at_a.1].id != node.subs_at(at_b.0)[at_b.1].id);
        }
    }
}

/// Appends copies of `subscribers` to `found`.
pub fn append_copies(found: &mut Vec<Subscriber>, subscribers: &Vec<Subscriber>)
    ensures
        subscriber_views(final(found)@) == subscriber_views(old(found)@) + subscriber_views(
            subscribers@,
        ),
{
    let ghost start = subscriber_views(found@);
    let mut i: usize = 0;
    assert(subscriber_views(found@) =~= start + subscriber_views(subscribers@).subrange(0, 0));
    while i < subscribers.len()
        invariant
            i <= subscribers.len(),
            subscriber_views(found@) == start + subscriber_views(subscribers@).subrange(
                0,
                i as int,
            ),
        decreases subscribers.len() - i,
    {
        let copy = subscribers[i].copy();
        let ghost before = subscriber_views(found@);
        found.push(copy);
        assert(subscriber_views(found@) =~= before.push(subscribers[i as int]@));
        i += 1;
        assert(subscriber_views(found@) =~= start + subscriber_views(subscribers@).subrange(
            0,
            i as int,
        ));
    }
    assert(subscriber_views(subscribers@).subrange(0, i as int) =~= subscriber_views(
        subscribers@,
    ));
}

impl Node {
    /// Appends to `found` copies of the subscribers that the walk of the
    /// rest of `key` from `depth` on comes by.
    pub fn add_matches(&self, key: &Vec<RegularKeySegment>, depth: usize, found: &mut Vec<Subscriber>)
        requires
            depth <= key.len(),
        ensures
            subscriber_views(final(found)@) == subscriber_views(old(found)@) + self.matching(
                path_view(key@).skip(depth as int),
            ),
        decreases key.len() - depth,
    {
        let ghost rest = path_view(key@).skip(depth as int);
        let ghost start = subscriber_views(found@);
        if depth == key.len() {
            append_copies(found, &self.subscribers);
            assert(rest.len() == 0);
        } else {
            proof {
                assert(rest[0] == key[depth as int]@);
                assert(rest.drop_first() =~= path_view(key@).skip(depth + 1));
            }
            match self.find(&KeySegment::Wildcard) {
                Some(i) => {
                    self.tree[i].node.add_matches(key, depth + 1, found);
                },
                None => {},
            }
            assert(subscriber_views(found@) =~= start + self.matching_wildcard(rest));
            match self.find(&KeySegment::MultiWildcard) {
                Some(i) => {
                    append_copies(found, &self.tree[i].node.subscribers);
                },
                None => {},
            }
            assert(subscriber_views(found@) =~= start + self.matching_wildcard(rest)
                + self.matching_multi());
            let segment = KeySegment::Regular(key[depth].clone());
            match self.find(&segment) {
                Some(i) => {
                    self.tree[i].node.add_matches(key, depth + 1, found);
                },
                None => {},
            }
            assert(subscriber_views(found@) =~= start + (self.matching_wildcard(rest)
                + self.matching_multi() + self.matching_regular(rest)));
        }
    }

    /// Removes every subscriber below this node that `selection` selects,
    /// and says whether there was any.
    pub fn purge(&mut self, selection: &Selection) -> (any: bool)
        requires
            old(self).wf(),
        ensures
            final(self).wf(),
            forall|p: Seq<SegmentView>|
                #[trigger] final(self).subs_at(p) == kept(old(self).subs_at(p), *selection),
            any == old(self).has_selected(*selection),
        decreases *old(self),
    {
        let ghost before = *self;
        let ghost own = subscriber_views(before.subscribers@);
        let own_any = drop_selected(&mut self.subscribers, selection);
        let mut any = own_any;
        let mut i: usize = 0;
        assert(self.segments() =~= before.segments());
        while i < self.tree.len()
            invariant
                i <= self.tree.len(),
                before == *old(self),
                before.wf(),
                self.tree.len() == before.tree.len(),
                self.segments() == before.segments(),
                subscriber_views(self.subscribers@) == kept(own, *selection),
                own == subscriber_views(before.subscribers@),
                forall|k: int| i <= k < self.tree.len() ==> self.tree[k] == before.tree[k],
                forall|k: int|
                    0 <= k < i ==> (#[trigger] self.tree[k]).node.wf() && forall|
                        p: Seq<SegmentView>,
                    |
                        #[trigger] self.tree[k].node.subs_at(p) == kept(
                            before.tree[k].node.subs_at(p),
                            *selection,
                        ),
                any == (own_any || exists|k: int|
                    0 <= k < i && (#[trigger] before.tree[k]).node.has_selected(*selection)),
                own_any == (exists|j: int| 0 <= j < own.len() && selection.selects(own[j].id)),
            decreases self.tree.len() - i,
        {
            let ghost earlier = *self;
            assert(self.tree[i as int] == before.tree[i as int]);
            let below = self.tree[i].node.purge(selection);
            any = any || below;
            proof {
                assert(self.segments() =~= earlier.segments());
                assert forall|k: int| i + 1 <= k < self.tree.len() implies self.tree[k]
                    == before.tree[k] by {
                    assert(self.tree[k] == earlier.tree[k]);
                }
                assert forall|k: int| 0 <= k < i + 1 implies (#[trigger] self.tree[k]).node.wf()
                    && forall|p: Seq<SegmentView>|
                    #[trigger] self.tree[k].node.subs_at(p) == kept(
                        before.tree[k].node.subs_at(p),
                        *selection,
                    ) by {
                    if k < i {
                        assert(self.tree[k] == earlier.tree[k]);
                    }
                }
                if exists|k: int|
                    0 <= k < i + 1 && (#[trigger] before.tree[k]).node.has_selected(*selection) {
                    let k = choose|k: int|
                        0 <= k < i + 1 && (#[trigger] before.tree[k]).node.has_selected(
                            *selection,
                        );
                    if k < i {
                        assert(0 <= k < i && before.tree[k].node.has_selected(*selection));
                    }
                }
                if below {
                    assert(before.tree[i as int].node.has_selected(*selection));
                }
            }
            i += 1;
        }
        proof {
            assert forall|k: int| 0 <= k < self.tree.len() implies (#[trigger] self.tree[k]).node.wf() by {}
            assert forall|p: Seq<SegmentView>| #[trigger]
                self.subs_at(p) == kept(before.subs_at(p), *selection) by {
                if p.len() > 0 {
                    match first_index(before.segments(), p[0]) {
                        Some(k) => {
                            lemma_first_index_holds(before.segments(), p[0]);
                            let below_p = p.drop_first();
                            assert(self.tree[k].node.subs_at(below_p) == kept(
                                before.tree[k].node.subs_at(below_p),
                                *selection,
                            ));
                        },
                        None => {
                            assert(kept(Seq::<SubscriberView>::empty(), *selection) =~= Seq::<
                                SubscriberView,
                            >::empty());
                        },
                    }
                }
            }
            if any {
                if own_any {
                    let j = choose|j: int| 0 <= j < own.len() && selection.selects(own[j].id);
                    let top = Seq::<SegmentView>::empty();
                    assert(selection.selects(before.subs_at(top)[j].id));
                } else {
                    let k = choose|k: int|
                        0 <= k < i && (#[trigger] before.tree[k]).node.has_selected(*selection);
                    let child = before.tree[k].node;
                    let (q, j) = choose|q: Seq<SegmentView>, j: int|
                        0 <= j < child.subs_at(q).len() && selection.selects(
                            (#[trigger] child.subs_at(q)[j]).id,
                        );
                    let segment = before.segments()[k];
                    lemma_first_index_distinct(before.segments(), k);
                    lemma_subs_at_branch(before, segment, q);
                    assert(selection.selects(before.subs_at(seq![segment] + q)[j].id));
                }
            }
            if before.has_selected(*selection) {
                let (p, j) = choose|p: Seq<SegmentView>, j: int|
                    0 <= j < before.subs_at(p).len() && selection.selects(
                        (#[trigger] before.subs_at(p)[j]).id,
                    );
                if p.len() == 0 {
                    assert(selection.selects(own[j].id));
                } else {
                    let k = first_index(before.segments(), p[0])->0;
                    lemma_first_index_holds(before.segments(), p[0]);
                    let child = before.tree[k].node;
                    assert(selection.selects(child.subs_at(p.drop_first())[j].id));
                    assert(before.tree[k].node.has_selected(*selection));
                }
            }
        }
        any
    }
}

/// The subscriber index.
pub struct Subscribers {
    data: Node,
}

impl Subscribers {
    /// The invariant of the trie.
    pub closed spec fn wf(&self) -> bool {
        self.data.wf()
    }

    /// The subscribers that live at `pattern`, in the order in which they
    /// were added.
    pub closed spec fn subs_at(&self, pattern: Seq<SegmentView>) -> Seq<SubscriberView> {
        self.data.subs_at(pattern)
    }

    /// The subscribers that the walk of `key` down the trie comes by, in
    /// its order.
    pub closed spec fn matching(&self, key: Seq<Seq<char>>) -> Seq<SubscriberView> {
        self.data.matching(key)
    }

    /// No two subscribers have the same name.
    pub open spec fn unique_ids(&self) -> bool {
        forall|p: Seq<SegmentView>, i: int, q: Seq<SegmentView>, j: int|
            0 <= i < self.subs_at(p).len() && 0 <= j < self.subs_at(q).len() && (
            #[trigger] self.subs_at(p)[i]).id == (#[trigger] self.subs_at(q)[j]).id ==> p == q && i
                == j
    }

    /// A subscriber is selected.
    pub open spec fn has_selected(&self, selection: Selection) -> bool {
        exists|p: Seq<SegmentView>, i: int|
            0 <= i < self.subs_at(p).len() && selection.selects((#[trigger] self.subs_at(p)[i]).id)
    }

    /// There is a subscriber of this name.
    pub open spec fn has(&self, id: SubscriptionId) -> bool {
        self.has_selected(Selection::Subscription(id))
    }

    /// What the walk of a key comes by: every subscriber that lives at a
    /// pattern that matches the key, and no other; each once where names are
    /// unique.
    pub proof fn lemma_matching(&self, key: Seq<Seq<char>>)
        ensures
            forall|s: SubscriberView| #[trigger]
                self.matching(key).contains(s) <==> exists|p: Seq<SegmentView>|
                    pattern_matches(p, key) && #[trigger] self.subs_at(p).contains(s),
            self.unique_ids() ==> forall|a: int, b: int|
                0 <= a < b < self.matching(key).len() ==> (#[trigger] self.matching(key)[a]).id != (
                #[trigger] self.matching(key)[b]).id,
    {
        let found = self.matching(key);
        assert forall|s: SubscriberView| #[trigger]
            found.contains(s) <==> exists|p: Seq<SegmentView>|
                pattern_matches(p, key) && #[trigger] self.subs_at(p).contains(s) by {
            if found.contains(s) {
                let i = choose|i: int| 0 <= i < found.len() && found[i] == s;
                let at = lemma_matching_sound(self.data, key, i);
                assert(self.subs_at(at.0)[at.1] == s);
                assert(pattern_matches(at.0, key) && self.subs_at(at.0).contains(s));
            }
            if exists|p: Seq<SegmentView>|
                pattern_matches(p, key) && #[trigger] self.subs_at(p).contains(s) {
                let p = choose|p: Seq<SegmentView>|
                    pattern_matches(p, key) && #[trigger] self.subs_at(p).contains(s);
                let j = choose|j: int| 0 <= j < self.subs_at(p).len() && self.subs_at(p)[j] == s;
                let i = lemma_matching_complete(self.data, key, p, j);
                assert(found[i] == s);
            }
        }
        if self.unique_ids() {
            assert forall|p: Seq<SegmentView>, i: int, q: Seq<SegmentView>, j: int|
                0 <= i < self.data.subs_at(p).len() && 0 <= j < self.data.subs_at(q).len() && (
                #[trigger] self.data.subs_at(p)[i]).id == (#[trigger] self.data.subs_at(q)[j]).id implies p
                == q && i == j by {
                assert(self.subs_at(p)[i].id == self.subs_at(q)[j].id);
            }
            assert forall|a: int, b: int| 0 <= a < b < found.len() implies (#[trigger] found[a]).id
                != (#[trigger] found[b]).id by {
                lemma_matching_distinct(self.data, key, a, b);
            }
        }
    }

    /// Taking subscribers away leaves names unique, and leaves none that
    /// was selected.
    pub proof fn lemma_removed(before: Subscribers, after: Subscribers, selection: Selection)
        requires
            forall|p: Seq<SegmentView>|
                #[trigger] after.subs_at(p) == kept(before.subs_at(p), selection),
        ensures
            !after.has_selected(selection),
            before.unique_ids() ==> after.unique_ids(),
            forall|other: Selection|
                !before.has_selected(other) ==> !#[trigger] after.has_selected(other),
            forall|id: SubscriptionId|
                !selection.selects(id) ==> (#[trigger] after.has(id) <==> before.has(id)),
    {
        assert forall|p: Seq<SegmentView>, i: int| 0 <= i < after.subs_at(p).len() implies {
            &&& !selection.selects((#[trigger] after.subs_at(p)[i]).id)
            &&& before.subs_at(p).contains(after.subs_at(p)[i])
        } by {
            lemma_kept_sound(before.subs_at(p), selection, i);
        }
        assert forall|other: Selection| !before.has_selected(other) implies !#[trigger] after.has_selected(
            other,
        ) by {
            if after.has_selected(other) {
                let (p, i) = choose|p: Seq<SegmentView>, i: int|
                    0 <= i < after.subs_at(p).len() && other.selects(
                        (#[trigger] after.subs_at(p)[i]).id,
                    );
                let j = choose|j: int|
                    0 <= j < before.subs_at(p).len() && before.subs_at(p)[j] == after.subs_at(p)[i];
                assert(other.selects(before.subs_at(p)[j].id));
            }
        }
        assert forall|id: SubscriptionId| !selection.selects(id) implies (#[trigger] after.has(id)
            <==> before.has(id)) by {
            let other = Selection::Subscription(id);
            if before.has(id) {
                let (p, i) = choose|p: Seq<SegmentView>, i: int|
                    0 <= i < before.subs_at(p).len() && other.selects(
                        (#[trigger] before.subs_at(p)[i]).id,
                    );
                lemma_kept_complete(before.subs_at(p), selection, i);
                let j = choose|j: int|
                    0 <= j < after.subs_at(p).len() && after.subs_at(p)[j] == before.subs_at(p)[i];
                assert(other.selects(after.subs_at(p)[j].id));
            }
        }
        if before.unique_ids() {
            assert forall|p: Seq<SegmentView>, i: int, q: Seq<SegmentView>, j: int|
                0 <= i < after.subs_at(p).len() && 0 <= j < after.subs_at(q).len() && (
                #[trigger] after.subs_at(p)[i]).id == (#[trigger] after.subs_at(q)[j]).id implies p
                == q && i == j by {
                let a = choose|a: int|
                    0 <= a < before.subs_at(p).len() && before.subs_at(p)[a] == after.subs_at(p)[i];
                let b = choose|b: int|
                    0 <= b < before.subs_at(q).len() && before.subs_at(q)[b] == after.subs_at(q)[j];
                assert(before.subs_at(p)[a].id == before.subs_at(q)[b].id);
                assert(p == q);
                let list = before.subs_at(p);
                assert forall|x: int, y: int| 0 <= x < y < list.len() implies list[x].id
                    != list[y].id by {
                    assert(before.subs_at(p)[x].id != before.subs_at(p)[y].id);
                }
                lemma_kept_distinct(list, selection);
                if i < j {
                    assert(kept(list, selection)[i].id != kept(list, selection)[j].id);
                } else if j < i {
                    assert(kept(list, selection)[j].id != kept(list, selection)[i].id);
                }
            }
        }
    }

    /// An index without subscribers.
    pub fn new() -> (subscribers: Subscribers)
        ensures
            subscribers.wf(),
            subscribers.unique_ids(),
            forall|p: Seq<SegmentView>| #[trigger] subscribers.subs_at(p).len() == 0,
    {
        let subscribers = Subscribers { data: Node::new() };
        assert(subscribers.data.segments() =~= Seq::<SegmentView>::empty());
        assert forall|p: Seq<SegmentView>| #[trigger] subscribers.subs_at(p).len() == 0 by {}
        subscribers
    }

    /// Copies of the subscribers whose pattern matches `key`.
    pub fn get_subscribers(&self, key: &Vec<RegularKeySegment>) -> (found: Vec<Subscriber>)
        ensures
            subscriber_views(found@) == self.matching(path_view(key@)),
            forall|s: SubscriberView| #[trigger]
                subscriber_views(found@).contains(s) <==> exists|p: Seq<SegmentView>|
                    pattern_matches(p, path_view(key@)) && #[trigger] self.subs_at(p).contains(s),
            self.unique_ids() ==> forall|a: int, b: int|
                0 <= a < b < found.len() ==> (#[trigger] subscriber_views(found@)[a]).id != (
                #[trigger] subscriber_views(found@)[b]).id,
    {
        let mut all_subscribers: Vec<Subscriber> = Vec::new();
        assert(path_view(key@).skip(0) =~= path_view(key@));

        self.data.add_matches(key, 0, &mut all_subscribers);
        proof {
            assert(subscriber_views(all_subscribers@) =~= self.matching(path_view(key@)));
            self.lemma_matching(path_view(key@));
        }

        all_subscribers
    }

    /// Adds `subscriber` at `pattern`, behind those that live there.
    pub fn add_subscriber(&mut self, pattern: &Vec<KeySegment>, subscriber: Subscriber)
        requires
            old(self).wf(),
        ensures
            final(self).wf(),
            forall|p: Seq<SegmentView>|
                #[trigger] final(self).subs_at(p) == if p == pattern_view(pattern@) {
                    old(self).subs_at(p).push(subscriber@)
                } else {
                    old(self).subs_at(p)
                },
            old(self).unique_ids() && !old(self).has(subscriber@.id) ==> final(self).unique_ids(),
            final(self).has(subscriber@.id),
            forall|id: SubscriptionId|
                id != subscriber@.id ==> (#[trigger] final(self).has(id) <==> old(self).has(id)),
    {
        assert(pattern_view(pattern@).skip(0) =~= pattern_view(pattern@));
        let ghost before = *self;
        let ghost added = subscriber@;
        let ghost at = pattern_view(pattern@);
        self.data.add(pattern, 0, subscriber);
        proof {
            assert forall|p: Seq<SegmentView>| #[trigger]
                self.subs_at(p) == if p == at {
                    before.subs_at(p).push(added)
                } else {
                    before.subs_at(p)
                } by {}
            let last = before.subs_at(at).len() as int;
            assert(self.subs_at(at)[last] == added);
            assert(Selection::Subscription(added.id).selects(self.subs_at(at)[last].id));
            assert forall|id: SubscriptionId| id != added.id implies (#[trigger] self.has(id)
                <==> before.has(id)) by {
                let wanted = Selection::Subscription(id);
                if self.has(id) {
                    let (p, i) = choose|p: Seq<SegmentView>, i: int|
                        0 <= i < self.subs_at(p).len() && wanted.selects(
                            (#[trigger] self.subs_at(p)[i]).id,
                        );
                    assert(wanted.selects(before.subs_at(p)[i].id));
                }
                if before.has(id) {
                    let (p, i) = choose|p: Seq<SegmentView>, i: int|
                        0 <= i < before.subs_at(p).len() && wanted.selects(
                            (#[trigger] before.subs_at(p)[i]).id,
                        );
                    assert(wanted.selects(self.subs_at(p)[i].id));
                }
            }
            if before.unique_ids() && !before.has(added.id) {
                assert forall|p: Seq<SegmentView>, i: int, q: Seq<SegmentView>, j: int|
                    0 <= i < self.subs_at(p).len() && 0 <= j < self.subs_at(q).len() && (
                    #[trigger] self.subs_at(p)[i]).id == (#[trigger] self.subs_at(q)[j]).id implies p
                    == q && i == j by {
                    let new_i = p == at && i == last;
                    let new_j = q == at && j == last;
                    if !new_i {
                        assert(self.subs_at(p)[i] == before.subs_at(p)[i]);
                    }
                    if !new_j {
                        assert(self.subs_at(q)[j] == before.subs_at(q)[j]);
                    }
                    if new_i && !new_j {
                        assert(Selection::Subscription(added.id).selects(before.subs_at(q)[j].id));
                    }
                    if new_j && !new_i {
                        assert(Selection::Subscription(added.id).selects(before.subs_at(p)[i].id));
                    }
                }
            }
        }
    }

    /// Removes the subscribers at `pattern` that have the name
    /// `subscription`, and says whether there was one.
    pub fn unsubscribe(&mut self, pattern: &Vec<KeySegment>, subscription: &SubscriptionId) -> (removed:
        bool)
        requires
            old(self).wf(),
        ensures
            final(self).wf(),
            forall|p: Seq<SegmentView>|
                #[trigger] final(self).subs_at(p) == if p == pattern_view(pattern@) {
                    kept(old(self).subs_at(p), Selection::Subscription(*subscription))
                } else {
                    old(self).subs_at(p)
                },
            removed == (exists|i: int|
                0 <= i < old(self).subs_at(pattern_view(pattern@)).len() && (#[trigger] old(
                    self,
                ).subs_at(pattern_view(pattern@))[i]).id == *subscription),
    {
        assert(pattern_view(pattern@).skip(0) =~= pattern_view(pattern@));
        let ghost before = *self;
        let selection = Selection::Subscription(*subscription);
        let removed = self.data.remove_at(pattern, 0, &selection);
        proof {
            let at = pattern_view(pattern@);
            assert forall|p: Seq<SegmentView>| #[trigger]
                self.subs_at(p) == if p == at {
                    kept(before.subs_at(p), selection)
                } else {
                    before.subs_at(p)
                } by {}
            if removed {
                let i = choose|i: int|
                    0 <= i < before.data.subs_at(at).len() && selection.selects(
                        (#[trigger] before.data.subs_at(at)[i]).id,
                    );
                assert(before.subs_at(at)[i].id == *subscription);
            }
            if exists|i: int|
                0 <= i < before.subs_at(at).len() && (#[trigger] before.subs_at(at)[i]).id
                    == *subscription {
                let i = choose|i: int|
                    0 <= i < before.subs_at(at).len() && (#[trigger] before.subs_at(at)[i]).id
                        == *subscription;
                assert(selection.selects(before.data.subs_at(at)[i].id));
            }
        }
        removed
    }

    /// Removes `subscriber` from the pattern that it subscribed to.
    pub fn remove_subscriber(&mut self, subscriber: Subscriber)
        requires
            old(self).wf(),
        ensures
            final(self).wf(),
            forall|p: Seq<SegmentView>|
                #[trigger] final(self).subs_at(p) == if p == subscriber@.pattern {
                    kept(old(self).subs_at(p), Selection::Subscription(subscriber@.id))
                } else {
                    old(self).subs_at(p)
                },
    {
        let id = subscriber.id();
        self.unsubscribe(subscriber.pattern(), &id);
    }

    /// Removes every subscriber that `selection` selects, wherever it
    /// lives, and says whether there was any.
    pub fn remove_selected(&mut self, selection: &Selection) -> (any: bool)
        requires
            old(self).wf(),
        ensures
            final(self).wf(),
            forall|p: Seq<SegmentView>|
                #[trigger] final(self).subs_at(p) == kept(old(self).subs_at(p), *selection),
            any == old(self).has_selected(*selection),
            !final(self).has_selected(*selection),
            old(self).unique_ids() ==> final(self).unique_ids(),
            forall|id: SubscriptionId|
                !selection.selects(id) ==> (#[trigger] final(self).has(id) <==> old(self).has(id)),
    {
        let ghost before = *self;
        let any = self.data.purge(selection);
        proof {
            assert forall|p: Seq<SegmentView>| #[trigger]
                self.subs_at(p) == kept(before.subs_at(p), *selection) by {}
            Subscribers::lemma_removed(before, *self, *selection);
            assert(before.data.has_selected(*selection) == before.has_selected(*selection)) by {
                if before.data.has_selected(*selection) {
                    let (p, i) = choose|p: Seq<SegmentView>, i: int|
                        0 <= i < before.data.subs_at(p).len() && selection.selects(
                            (#[trigger] before.data.subs_at(p)[i]).id,
                        );
                    assert(selection.selects(before.subs_at(p)[i].id));
                }
                if before.has_selected(*selection) {
                    let (p, i) = choose|p: Seq<SegmentView>, i: int|
                        0 <= i < before.subs_at(p).len() && selection.selects(
                            (#[trigger] before.subs_at(p)[i]).id,
                        );
                    assert(selection.selects(before.data.subs_at(p)[i].id));
                }
            }
        }
        any
    }
}

impl Default for Subscribers {
    fn default() -> (subscribers: Self)
        ensures
            subscribers.wf(),
            subscribers.unique_ids(),
            forall|p: Seq<SegmentView>| #[trigger] subscribers.subs_at(p).len() == 0,
    {
        Subscribers::new()
    }
}

} // verus!
