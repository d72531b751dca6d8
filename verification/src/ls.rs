//! The index of the subscriptions to child names.
//!
//! A flat list: each entry names a parent path and the subscription that
//! wants to hear when the set of children of that parent changes.

use crate::key::{path_view, RegularKeySegment};
use crate::subscribers::{LsSubscriber, Selection, SubscriptionId};
use vstd::prelude::*;

verus! {

/// A subscription to child names as a mathematical value.
pub struct LsSubscriberView {
    pub parent: Seq<Seq<char>>,
    pub id: SubscriptionId,
}

impl View for LsSubscriber {
    type V = LsSubscriberView;

    open spec fn view(&self) -> LsSubscriberView {
        LsSubscriberView { parent: path_view(self.parent@), id: self.id }
    }
}

/// The views of a list of subscriptions, in order.
pub open spec fn ls_views(subscribers: Seq<LsSubscriber>) -> Seq<LsSubscriberView> {
    subscribers.map_values(|s: LsSubscriber| s@)
}

/// The subscriptions that stay when `selection` is taken away, in their
/// order.
pub open spec fn ls_kept(subscribers: Seq<LsSubscriberView>, selection: Selection) -> Seq<
    LsSubscriberView,
>
    decreases subscribers.len(),
{
    if subscribers.len() == 0 {
        Seq::empty()
    } else if selection.selects(subscribers.last().id) {
        ls_kept(subscribers.drop_last(), selection)
    } else {
        ls_kept(subscribers.drop_last(), selection).push(subscribers.last())
    }
}

/// The names of the subscriptions to the children of `parent`, in the
/// order in which they were made.
pub open spec fn watchers(subscribers: Seq<LsSubscriberView>, parent: Seq<Seq<char>>) -> Seq<
    SubscriptionId,
>
    decreases subscribers.len(),
{
    if subscribers.len() == 0 {
        Seq::empty()
    } else if subscribers.last().parent == parent {
        watchers(subscribers.drop_last(), parent).push(subscribers.last().id)
    } else {
        watchers(subscribers.drop_last(), parent)
    }
}

/// Every subscription that stays was there before and is not selected, and
/// every one that is not selected stays.
pub proof fn lemma_ls_kept(subscribers: Seq<LsSubscriberView>, selection: Selection)
    ensures
        forall|s: LsSubscriberView| #[trigger]
            ls_kept(subscribers, selection).contains(s) <==> subscribers.contains(s)
                && !selection.selects(s.id),
        ls_kept(subscribers, selection).len() <= subscribers.len(),
        (exists|i: int| 0 <= i < subscribers.len() && selection.selects(subscribers[i].id))
            <==> ls_kept(subscribers, selection).len() < subscribers.len(),
    decreases subscribers.len(),
{
    if subscribers.len() > 0 {
        let init = subscribers.drop_last();
        let last = subscribers.last();
        lemma_ls_kept(init, selection);
        let before = ls_kept(init, selection);
        let after = ls_kept(subscribers, selection);
        assert forall|s: LsSubscriberView| #[trigger]
            after.contains(s) <==> subscribers.contains(s) && !selection.selects(s.id) by {
            if after.contains(s) {
                let i = choose|i: int| 0 <= i < after.len() && after[i] == s;
                if i < before.len() {
                    assert(before[i] == s);
                    assert(before.contains(s));
                    assert(init.contains(s));
                    let j = choose|j: int| 0 <= j < init.len() && init[j] == s;
                    assert(subscribers[j] == s);
                } else {
                    assert(subscribers[subscribers.len() - 1] == s);
                }
            }
            if subscribers.contains(s) && !selection.selects(s.id) {
                let j = choose|j: int| 0 <= j < subscribers.len() && subscribers[j] == s;
                if j < init.len() {
                    assert(init[j] == s);
                    assert(init.contains(s));
                    assert(before.contains(s));
                    let i = choose|i: int| 0 <= i < before.len() && before[i] == s;
                    assert(after[i] == s);
                } else {
                    assert(after[before.len() as int] == s);
                }
            }
        }
        if exists|i: int| 0 <= i < subscribers.len() && selection.selects(subscribers[i].id) {
            let i = choose|i: int| 0 <= i < subscribers.len() && selection.selects(subscribers[i].id);
            if i < init.len() {
                assert(init[i] == subscribers[i]);
            }
        }
        if after.len() < subscribers.len() {
            if selection.selects(last.id) {
                assert(subscribers[subscribers.len() - 1] == last);
            } else {
                let i = choose|i: int| 0 <= i < init.len() && selection.selects(init[i].id);
                assert(subscribers[i] == init[i]);
            }
        }
    }
}

/// No two subscriptions have the same name.
pub open spec fn distinct_ids(subscribers: Seq<LsSubscriberView>) -> bool {
    forall|i: int, j: int|
        0 <= i < j < subscribers.len() ==> (#[trigger] subscribers[i]).id != (
        #[trigger] subscribers[j]).id
}

/// Taking subscriptions away leaves the names distinct.
pub proof fn lemma_ls_kept_distinct(subscribers: Seq<LsSubscriberView>, selection: Selection)
    requires
        distinct_ids(subscribers),
    ensures
        distinct_ids(ls_kept(subscribers, selection)),
    decreases subscribers.len(),
{
    if subscribers.len() > 0 {
        let init = subscribers.drop_last();
        assert forall|i: int, j: int| 0 <= i < j < init.len() implies (#[trigger] init[i]).id != (
        #[trigger] init[j]).id by {
            assert(init[i] == subscribers[i] && init[j] == subscribers[j]);
        }
        lemma_ls_kept_distinct(init, selection);
        lemma_ls_kept(init, selection);
        let before = ls_kept(init, selection);
        let after = ls_kept(subscribers, selection);
        assert forall|i: int, j: int| 0 <= i < j < after.len() implies (#[trigger] after[i]).id != (
        #[trigger] after[j]).id by {
            if j >= before.len() {
                assert(before[i] == after[i]);
                assert(before.contains(before[i]));
                assert(init.contains(before[i]));
                let k = choose|k: int| 0 <= k < init.len() && init[k] == before[i];
                assert(subscribers[k] == init[k]);
                assert(subscribers[k].id != subscribers[subscribers.len() - 1].id);
            } else {
                assert(before[i] == after[i] && before[j] == after[j]);
            }
        }
    }
}

/// Among subscriptions with distinct names, the watchers of a parent have
/// distinct names, and the name of a watcher of one parent is not the name
/// of a watcher of another.
pub proof fn lemma_watchers_distinct(
    subscribers: Seq<LsSubscriberView>,
    parent: Seq<Seq<char>>,
    other: Seq<Seq<char>>,
)
    requires
        distinct_ids(subscribers),
    ensures
        forall|i: int, j: int|
            0 <= i < j < watchers(subscribers, parent).len() ==> watchers(subscribers, parent)[i]
                != watchers(subscribers, parent)[j],
        parent != other ==> forall|i: int, j: int|
            0 <= i < watchers(subscribers, parent).len() && 0 <= j < watchers(
                subscribers,
                other,
            ).len() ==> watchers(subscribers, parent)[i] != watchers(subscribers, other)[j],
    decreases subscribers.len(),
{
    lemma_watchers(subscribers, parent);
    lemma_watchers(subscribers, other);
    let here = watchers(subscribers, parent);
    let there = watchers(subscribers, other);
    if parent != other {
        assert forall|i: int, j: int| 0 <= i < here.len() && 0 <= j < there.len() implies here[i]
            != there[j] by {
            if here[i] == there[j] {
                let id = here[i];
                assert(here.contains(id));
                assert(there.contains(id));
                let a = choose|a: int|
                    0 <= a < subscribers.len() && subscribers[a] == (LsSubscriberView {
                        parent,
                        id,
                    });
                let b = choose|b: int|
                    0 <= b < subscribers.len() && subscribers[b] == (LsSubscriberView {
                        parent: other,
                        id,
                    });
                if a < b {
                    assert(subscribers[a].id != subscribers[b].id);
                } else if b < a {
                    assert(subscribers[b].id != subscribers[a].id);
                }
            }
        }
    }
    if subscribers.len() > 0 {
        let init = subscribers.drop_last();
        let last = subscribers.last();
        assert forall|i: int, j: int| 0 <= i < j < init.len() implies (#[trigger] init[i]).id != (
        #[trigger] init[j]).id by {
            assert(init[i] == subscribers[i] && init[j] == subscribers[j]);
        }
        lemma_watchers_distinct(init, parent, other);
        lemma_watchers(init, parent);
        let before = watchers(init, parent);
        assert forall|i: int, j: int| 0 <= i < j < here.len() implies here[i] != here[j] by {
            if j >= before.len() {
                assert(before[i] == here[i]);
                assert(before.contains(here[i]));
                let k = choose|k: int|
                    0 <= k < init.len() && init[k] == (LsSubscriberView { parent, id: here[i] });
                assert(subscribers[k] == init[k]);
                assert(subscribers[k].id != subscribers[subscribers.len() - 1].id);
            } else {
                assert(before[i] == here[i] && before[j] == here[j]);
            }
        }
    }
}

/// The watchers of a parent are the names of the subscriptions to it.
pub proof fn lemma_watchers(subscribers: Seq<LsSubscriberView>, parent: Seq<Seq<char>>)
    ensures
        forall|id: SubscriptionId| #[trigger]
            watchers(subscribers, parent).contains(id) <==> subscribers.contains(
                LsSubscriberView { parent, id },
            ),
    decreases subscribers.len(),
{
    if subscribers.len() > 0 {
        let init = subscribers.drop_last();
        let last = subscribers.last();
        lemma_watchers(init, parent);
        let before = watchers(init, parent);
        let after = watchers(subscribers, parent);
        assert forall|id: SubscriptionId| #[trigger]
            after.contains(id) <==> subscribers.contains(LsSubscriberView { parent, id }) by {
            let wanted = LsSubscriberView { parent, id };
            if after.contains(id) {
                let i = choose|i: int| 0 <= i < after.len() && after[i] == id;
                if i < before.len() {
                    assert(before[i] == id);
                    assert(before.contains(id));
                    assert(init.contains(wanted));
                    let j = choose|j: int| 0 <= j < init.len() && init[j] == wanted;
                    assert(subscribers[j] == wanted);
                } else {
                    assert(subscribers[subscribers.len() - 1] == wanted);
                }
            }
            if subscribers.contains(wanted) {
                let j = choose|j: int| 0 <= j < subscribers.len() && subscribers[j] == wanted;
                if j < init.len() {
                    assert(init[j] == wanted);
                    assert(init.contains(wanted));
                    assert(before.contains(id));
                    let i = choose|i: int| 0 <= i < before.len() && before[i] == id;
                    assert(after[i] == id);
                } else {
                    assert(after[before.len() as int] == id);
                }
            }
        }
    }
}

/// Whether two paths are the same.
pub fn same_path(a: &Vec<RegularKeySegment>, b: &Vec<RegularKeySegment>) -> (same: bool)
    ensures
        same == (path_view(a@) == path_view(b@)),
{
    if a.len() != b.len() {
        assert(path_view(a@).len() != path_view(b@).len());
        return false;
    }
    let mut i: usize = 0;
    while i < a.len()
        invariant
            i <= a.len(),
            a.len() == b.len(),
            forall|j: int| 0 <= j < i ==> a[j]@ == b[j]@,
        decreases a.len() - i,
    {
        if a[i] != b[i] {
            assert(path_view(a@)[i as int] != path_view(b@)[i as int]);
            return false;
        }
        i += 1;
    }
    assert(path_view(a@) =~= path_view(b@));
    true
}

/// The index.
pub struct LsSubscribers {
    subscribers: Vec<LsSubscriber>,
}

impl LsSubscribers {
    /// The subscriptions, in the order in which they were made.
    pub closed spec fn all(&self) -> Seq<LsSubscriberView> {
        ls_views(self.subscribers@)
    }

    /// No two subscriptions have the same name.
    pub open spec fn distinct(&self) -> bool {
        distinct_ids(self.all())
    }

    /// A subscription is selected.
    pub open spec fn has_selected(&self, selection: Selection) -> bool {
        exists|i: int| 0 <= i < self.all().len() && selection.selects((#[trigger] self.all()[i]).id)
    }

    /// An index without subscriptions.
    pub fn new() -> (index: LsSubscribers)
        ensures
            index.all().len() == 0,
    {
        LsSubscribers { subscribers: Vec::new() }
    }

    /// Adds a subscription behind the others.
    pub fn add(&mut self, subscriber: LsSubscriber)
        ensures
            final(self).all() == old(self).all().push(subscriber@),
    {
        self.subscribers.push(subscriber);
        assert(self.all() =~= old(self).all().push(subscriber@));
    }

    /// Removes the subscriptions that `selection` selects and says whether
    /// there was any.
    pub fn remove_selected(&mut self, selection: &Selection) -> (any: bool)
        ensures
            final(self).all() == ls_kept(old(self).all(), *selection),
            any == old(self).has_selected(*selection),
            !final(self).has_selected(*selection),
            old(self).distinct() ==> final(self).distinct(),
            forall|s: LsSubscriberView| #[trigger]
                final(self).all().contains(s) <==> old(self).all().contains(s)
                    && !selection.selects(s.id),
    {
        let ghost before = self.all();
        let ghost mut done: int = 0;
        let mut any = false;
        let mut i: usize = 0;
        assert(before.subrange(0, 0) =~= Seq::<LsSubscriberView>::empty());
        assert(self.all() =~= ls_kept(before.subrange(0, 0), *selection) + before.subrange(
            0,
            before.len() as int,
        ));
        while i < self.subscribers.len()
            invariant
                0 <= done <= before.len(),
                i == ls_kept(before.subrange(0, done), *selection).len(),
                self.subscribers.len() - i == before.len() - done,
                self.all() == ls_kept(before.subrange(0, done), *selection) + before.subrange(
                    done,
                    before.len() as int,
                ),
                any == (exists|k: int| 0 <= k < done && selection.selects(before[k].id)),
            decreases self.subscribers.len() - i,
        {
            let ghost current = self.all();
            let ghost upto = before.subrange(0, done + 1);
            proof {
                assert(upto.drop_last() =~= before.subrange(0, done));
                assert(upto.last() == before[done]);
                assert(current[i as int] == before[done]);
                assert(current[i as int] == self.subscribers[i as int]@);
            }
            if selection.picks(self.subscribers[i].id) {
                self.subscribers.remove(i);
                any = true;
                proof {
                    assert(self.all() =~= current.remove(i as int));
                    assert(current.remove(i as int) =~= ls_kept(upto, *selection)
                        + before.subrange(done + 1, before.len() as int));
                    assert(selection.selects(before[done].id));
                }
            } else {
                i += 1;
                proof {
                    assert(current =~= ls_kept(upto, *selection) + before.subrange(
                        done + 1,
                        before.len() as int,
                    ));
                    if exists|k: int| 0 <= k < done + 1 && selection.selects(before[k].id) {
                        let k = choose|k: int| 0 <= k < done + 1 && selection.selects(before[k].id);
                        assert(0 <= k < done && selection.selects(before[k].id));
                    }
                }
            }
            proof {
                done = done + 1;
            }
        }
        proof {
            assert(before.subrange(0, done) =~= before);
            assert(before.subrange(done, before.len() as int) =~= Seq::<LsSubscriberView>::empty());
            assert(self.all() =~= ls_kept(before, *selection));
            lemma_ls_kept(before, *selection);
            if distinct_ids(before) {
                lemma_ls_kept_distinct(before, *selection);
            }
            if self.has_selected(*selection) {
                let k = choose|k: int|
                    0 <= k < self.all().len() && selection.selects((#[trigger] self.all()[k]).id);
                assert(self.all().contains(self.all()[k]));
            }
            if any {
                let k = choose|k: int| 0 <= k < done && selection.selects(before[k].id);
                assert(selection.selects(old(self).all()[k].id));
            }
        }
        any
    }

    /// The names of the subscriptions to the children of `parent`, in the
    /// order in which they were made.
    pub fn subscribers_of(&self, parent: &Vec<RegularKeySegment>) -> (ids: Vec<SubscriptionId>)
        ensures
            ids@ == watchers(self.all(), path_view(parent@)),
            forall|id: SubscriptionId| #[trigger]
                ids@.contains(id) <==> self.all().contains(
                    LsSubscriberView { parent: path_view(parent@), id },
                ),
    {
        let mut ids: Vec<SubscriptionId> = Vec::new();
        let mut i: usize = 0;
        assert(self.all().subrange(0, 0) =~= Seq::<LsSubscriberView>::empty());
        while i < self.subscribers.len()
            invariant
                i <= self.subscribers.len(),
                ids@ == watchers(self.all().subrange(0, i as int), path_view(parent@)),
            decreases self.subscribers.len() - i,
        {
            proof {
                let upto = self.all().subrange(0, i + 1);
                assert(upto.drop_last() =~= self.all().subrange(0, i as int));
                assert(upto.last() == self.subscribers[i as int]@);
            }
            if same_path(&self.subscribers[i].parent, parent) {
                ids.push(self.subscribers[i].id);
            }
            i += 1;
        }
        proof {
            assert(self.all().subrange(0, i as int) =~= self.all());
            lemma_watchers(self.all(), path_view(parent@));
        }
        ids
    }
}

} // verus!
