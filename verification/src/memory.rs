//! What unique subscriptions have seen.
//!
//! A unique subscription is told of a value only where it differs from the
//! value that the subscription saw last under the same key. This module
//! remembers that last value, for each subscription and key.

use crate::key::{path_view, RegularKeySegment};
use crate::ls::same_path;
use crate::subscribers::{Selection, SubscriptionId};
use crate::traversal::clone_path;
use vstd::prelude::*;

verus! {

pub type Value = String;

/// One thing remembered: the value that a subscription saw last under a
/// path.
pub struct Seen {
    pub id: SubscriptionId,
    pub path: Vec<RegularKeySegment>,
    pub value: Value,
}

/// One thing remembered, as a mathematical value.
pub struct SeenView {
    pub id: SubscriptionId,
    pub path: Seq<Seq<char>>,
    pub value: Seq<char>,
}

impl View for Seen {
    type V = SeenView;

    open spec fn view(&self) -> SeenView {
        SeenView { id: self.id, path: path_view(self.path@), value: self.value@ }
    }
}

/// What is to be forgotten.
pub enum Forget {
    /// What one subscription saw under one path.
    Entry(SubscriptionId, Seq<Seq<char>>),
    /// All that the selected subscriptions saw.
    Selected(Selection),
}

impl Forget {
    /// Whether what the subscription `id` saw under `path` is to be
    /// forgotten.
    pub open spec fn takes(self, id: SubscriptionId, path: Seq<Seq<char>>) -> bool {
        match self {
            Forget::Entry(i, p) => i == id && p == path,
            Forget::Selected(selection) => selection.selects(id),
        }
    }
}

/// The views of a list of things remembered, in order.
pub open spec fn seen_views(seen: Seq<Seen>) -> Seq<SeenView> {
    seen.map_values(|s: Seen| s@)
}

/// The value of the last entry for `id` and `path`.
pub open spec fn last_seen(seen: Seq<SeenView>, id: SubscriptionId, path: Seq<Seq<char>>) -> Option<
    Seq<char>,
>
    decreases seen.len(),
{
    if seen.len() == 0 {
        None
    } else if seen.last().id == id && seen.last().path == path {
        Some(seen.last().value)
    } else {
        last_seen(seen.drop_last(), id, path)
    }
}

/// The entries that stay when `rule` is applied, in their order.
pub open spec fn remembered(seen: Seq<SeenView>, rule: Forget) -> Seq<SeenView>
    decreases seen.len(),
{
    if seen.len() == 0 {
        Seq::empty()
    } else if rule.takes(seen.last().id, seen.last().path) {
        remembered(seen.drop_last(), rule)
    } else {
        remembered(seen.drop_last(), rule).push(seen.last())
    }
}

/// What is forgotten is gone, and nothing else changes.
pub proof fn lemma_remembered(
    seen: Seq<SeenView>,
    rule: Forget,
    id: SubscriptionId,
    path: Seq<Seq<char>>,
)
    ensures
        last_seen(remembered(seen, rule), id, path) == if rule.takes(id, path) {
            None
        } else {
            last_seen(seen, id, path)
        },
        remembered(seen, rule).len() <= seen.len(),
    decreases seen.len(),
{
    if seen.len() > 0 {
        lemma_remembered(seen.drop_last(), rule, id, path);
        let before = remembered(seen.drop_last(), rule);
        if !rule.takes(seen.last().id, seen.last().path) {
            assert(before.push(seen.last()).drop_last() =~= before);
        }
    }
}

/// The memory of the unique subscriptions.
pub struct Memory {
    seen: Vec<Seen>,
}

impl View for Memory {
    type V = Map<(SubscriptionId, Seq<Seq<char>>), Seq<char>>;

    closed spec fn view(&self) -> Map<(SubscriptionId, Seq<Seq<char>>), Seq<char>> {
        Map::new(
            |k: (SubscriptionId, Seq<Seq<char>>)| last_seen(seen_views(self.seen@), k.0, k.1) is Some,
            |k: (SubscriptionId, Seq<Seq<char>>)| last_seen(seen_views(self.seen@), k.0, k.1)->0,
        )
    }
}

/// A memory after `rule` has been applied: every entry that the rule takes
/// is gone.
pub open spec fn forgotten(
    memory: Map<(SubscriptionId, Seq<Seq<char>>), Seq<char>>,
    rule: Forget,
) -> Map<(SubscriptionId, Seq<Seq<char>>), Seq<char>> {
    Map::new(
        |k: (SubscriptionId, Seq<Seq<char>>)| memory.contains_key(k) && !rule.takes(k.0, k.1),
        |k: (SubscriptionId, Seq<Seq<char>>)| memory[k],
    )
}

impl Memory {
    /// An empty memory.
    pub fn new() -> (memory: Memory)
        ensures
            memory@ == Map::<(SubscriptionId, Seq<Seq<char>>), Seq<char>>::empty(),
    {
        let memory = Memory { seen: Vec::new() };
        assert(memory@ =~= Map::<(SubscriptionId, Seq<Seq<char>>), Seq<char>>::empty());
        memory
    }

    /// The value that the subscription `id` saw last under `path`.
    pub fn last(&self, id: SubscriptionId, path: &Vec<RegularKeySegment>) -> (value: Option<&Value>)
        ensures
            match value {
                Some(v) => self@.contains_pair((id, path_view(path@)), v@),
                None => !self@.contains_key((id, path_view(path@))),
            },
    {
        let ghost all = seen_views(self.seen@);
        let mut i: usize = self.seen.len();
        assert(all.subrange(0, i as int) =~= all);
        while i > 0
            invariant
                i <= self.seen.len(),
                all == seen_views(self.seen@),
                last_seen(all, id, path_view(path@)) == last_seen(
                    all.subrange(0, i as int),
                    id,
                    path_view(path@),
                ),
            decreases i,
        {
            let entry = &self.seen[i - 1];
            proof {
                let upto = all.subrange(0, i as int);
                assert(upto.last() == entry@);
                assert(upto.drop_last() =~= all.subrange(0, i - 1));
            }
            if entry.id.client_id == id.client_id && entry.id.transaction_id == id.transaction_id
                && same_path(&entry.path, path) {
                return Some(&entry.value);
            }
            i -= 1;
        }
        None
    }

    /// Forgets what `rule` takes. The exec form of the rule is given by
    /// `selection`, or by `id` and `path` where there is no selection.
    fn drop_entries(
        &mut self,
        selection: Option<&Selection>,
        id: SubscriptionId,
        path: &Vec<RegularKeySegment>,
    )
        ensures
            seen_views(final(self).seen@) == remembered(
                seen_views(old(self).seen@),
                rule_of(selection, id, path_view(path@)),
            ),
    {
        let ghost rule = rule_of(selection, id, path_view(path@));
        let ghost before = seen_views(self.seen@);
        let ghost mut done: int = 0;
        let mut i: usize = 0;
        assert(before.subrange(0, 0) =~= Seq::<SeenView>::empty());
        assert(seen_views(self.seen@) =~= remembered(before.subrange(0, 0), rule) + before.subrange(
            0,
            before.len() as int,
        ));
        while i < self.seen.len()
            invariant
                0 <= done <= before.len(),
                rule == rule_of(selection, id, path_view(path@)),
                i == remembered(before.subrange(0, done), rule).len(),
                self.seen.len() - i == before.len() - done,
                seen_views(self.seen@) == remembered(before.subrange(0, done), rule)
                    + before.subrange(done, before.len() as int),
            decreases self.seen.len() - i,
        {
            let ghost current = seen_views(self.seen@);
            let ghost upto = before.subrange(0, done + 1);
            proof {
                assert(upto.drop_last() =~= before.subrange(0, done));
                assert(upto.last() == before[done]);
                assert(current[i as int] == before[done]);
                assert(current[i as int] == self.seen[i as int]@);
            }
            let entry = &self.seen[i];
            let gone = match selection {
                Some(s) => s.picks(entry.id),
                None => entry.id.client_id == id.client_id && entry.id.transaction_id
                    == id.transaction_id && same_path(&entry.path, path),
            };
            if gone {
                self.seen.remove(i);
                proof {
                    assert(seen_views(self.seen@) =~= current.remove(i as int));
                    assert(current.remove(i as int) =~= remembered(upto, rule) + before.subrange(
                        done + 1,
                        before.len() as int,
                    ));
                }
            } else {
                i += 1;
                proof {
                    assert(current =~= remembered(upto, rule) + before.subrange(
                        done + 1,
                        before.len() as int,
                    ));
                }
            }
            proof {
                done = done + 1;
            }
        }
        proof {
            assert(before.subrange(0, done) =~= before);
            assert(before.subrange(done, before.len() as int) =~= Seq::<SeenView>::empty());
            assert(seen_views(self.seen@) =~= remembered(before, rule));
        }
    }

    /// Notes that the subscription `id` sees `value` under `path`, and says
    /// whether that differs from what it saw there last.
    pub fn observe(&mut self, id: SubscriptionId, path: &Vec<RegularKeySegment>, value: &Value) -> (changed:
        bool)
        ensures
            changed == !old(self)@.contains_pair((id, path_view(path@)), value@),
            final(self)@ == old(self)@.insert((id, path_view(path@)), value@),
    {
        let ghost before = *self;
        let changed = match self.last(id, path) {
            Some(v) => *v != *value,
            None => true,
        };
        if changed {
            self.drop_entries(None, id, path);
            let ghost kept = seen_views(self.seen@);
            self.seen.push(Seen { id, path: clone_path(path), value: value.clone() });
            proof {
                let rule = Forget::Entry(id, path_view(path@));
                let added = SeenView { id, path: path_view(path@), value: value@ };
                assert(seen_views(self.seen@) =~= kept.push(added));
                assert(seen_views(self.seen@).drop_last() =~= kept);
                assert forall|k: (SubscriptionId, Seq<Seq<char>>)|
                    last_seen(seen_views(self.seen@), k.0, k.1) == (if k == (id, path_view(path@)) {
                        Some(value@)
                    } else {
                        last_seen(seen_views(before.seen@), k.0, k.1)
                    }) by {
                    lemma_remembered(seen_views(before.seen@), rule, k.0, k.1);
                }
                assert(self@ =~= before@.insert((id, path_view(path@)), value@));
            }
        } else {
            assert(self@ =~= before@.insert((id, path_view(path@)), value@));
        }
        changed
    }

    /// Forgets what the subscription `id` saw under `path`.
    pub fn forget(&mut self, id: SubscriptionId, path: &Vec<RegularKeySegment>)
        ensures
            final(self)@ == old(self)@.remove((id, path_view(path@))),
    {
        let ghost before = *self;
        self.drop_entries(None, id, path);
        proof {
            let rule = Forget::Entry(id, path_view(path@));
            assert forall|k: (SubscriptionId, Seq<Seq<char>>)|
                last_seen(seen_views(self.seen@), k.0, k.1) == (if k == (id, path_view(path@)) {
                    None
                } else {
                    last_seen(seen_views(before.seen@), k.0, k.1)
                }) by {
                lemma_remembered(seen_views(before.seen@), rule, k.0, k.1);
            }
            assert(self@ =~= before@.remove((id, path_view(path@))));
        }
    }

    /// Forgets all that the selected subscriptions saw.
    pub fn forget_selected(&mut self, selection: &Selection)
        ensures
            final(self)@ == forgotten(old(self)@, Forget::Selected(*selection)),
    {
        let ghost before = *self;
        let nowhere: Vec<RegularKeySegment> = Vec::new();
        let nobody = SubscriptionId { client_id: 0, transaction_id: 0 };
        self.drop_entries(Some(selection), nobody, &nowhere);
        proof {
            let rule = Forget::Selected(*selection);
            assert forall|k: (SubscriptionId, Seq<Seq<char>>)|
                last_seen(seen_views(self.seen@), k.0, k.1) == (if rule.takes(k.0, k.1) {
                    None
                } else {
                    last_seen(seen_views(before.seen@), k.0, k.1)
                }) by {
                lemma_remembered(seen_views(before.seen@), rule, k.0, k.1);
            }
            assert(self@ =~= forgotten(before@, rule));
        }
    }
}

/// The rule that the arguments of a removal stand for.
pub open spec fn rule_of(selection: Option<&Selection>, id: SubscriptionId, path: Seq<Seq<char>>) -> Forget {
    match selection {
        Some(s) => Forget::Selected(*s),
        None => Forget::Entry(id, path),
    }
}

} // verus!
