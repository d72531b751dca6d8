//! The store: the authoritative map from keys to values.
//!
//! It is a trie of nodes. Seen from outside it is a map from paths to
//! values, and every operation says what it does to that map.

use crate::key::{path_view, pattern_matches, pattern_view, KeySegment, SegmentView};
use crate::node::{index_of, lemma_dead_lookup, lemma_index_of, value_of, Node, Value};
use crate::order::{
    ascending, lemma_segment_lt_irreflexive, lemma_segment_lt_transitive, segment_lt,
};
use crate::traversal::{
    entry_views, lemma_entries_complete, lemma_entries_distinct, lemma_entries_sound,
    lemma_lookup_child, Entry, Found, Walk,
};
use vstd::prelude::*;
use vstd::seq_lib::seq_to_set_is_finite;

verus! {

/// The store.
pub struct Store {
    root: Node,
}

/// `prefix` is the start of `path`, or all of it.
pub open spec fn has_prefix(path: Seq<Seq<char>>, prefix: Seq<Seq<char>>) -> bool {
    prefix.len() <= path.len() && path.subrange(0, prefix.len() as int) == prefix
}

/// A value is stored under `prefix` or under a path that starts with it.
pub open spec fn reaches(map: Map<Seq<Seq<char>>, Seq<char>>, prefix: Seq<Seq<char>>) -> bool {
    exists|path: Seq<Seq<char>>| #[trigger] map.contains_key(path) && has_prefix(path, prefix)
}

/// `names` are the names of the children of `parent`, in ascending order: a
/// name is a child where a value is stored under a path that goes on from
/// `parent` with that name.
pub open spec fn is_child_list(
    names: Seq<Seq<char>>,
    map: Map<Seq<Seq<char>>, Seq<char>>,
    parent: Seq<Seq<char>>,
) -> bool {
    &&& ascending(names)
    &&& forall|name: Seq<char>| #[trigger] names.contains(name) <==> reaches(map, parent.push(name))
}

/// The names of the children of `parent`, in ascending order.
pub open spec fn child_list(map: Map<Seq<Seq<char>>, Seq<char>>, parent: Seq<Seq<char>>) -> Seq<
    Seq<char>,
> {
    choose|names: Seq<Seq<char>>| is_child_list(names, map, parent)
}

/// Two ascending lists of the same names are the same list.
pub proof fn lemma_same_names(a: Seq<Seq<char>>, b: Seq<Seq<char>>)
    requires
        ascending(a),
        ascending(b),
        forall|name: Seq<char>| a.contains(name) <==> b.contains(name),
    ensures
        a == b,
    decreases a.len(),
{
    if a.len() == 0 {
        if b.len() > 0 {
            assert(b.contains(b[0]));
        }
        assert(a =~= b);
    } else {
        assert(a.contains(a[0]));
        let j = choose|j: int| 0 <= j < b.len() && b[j] == a[0];
        assert(b.contains(b[0]));
        let i = choose|i: int| 0 <= i < a.len() && a[i] == b[0];
        if j > 0 {
            lemma_segment_lt_irreflexive(a[0]);
            if i > 0 {
                lemma_segment_lt_transitive(b[0], a[0], b[0]);
                lemma_segment_lt_irreflexive(b[0]);
            }
        }
        assert(a[0] == b[0]);
        let x = a.drop_first();
        let y = b.drop_first();
        assert forall|name: Seq<char>| x.contains(name) <==> y.contains(name) by {
            if x.contains(name) {
                let k = choose|k: int| 0 <= k < x.len() && x[k] == name;
                assert(a[k + 1] == name);
                assert(a.contains(name));
                let m = choose|m: int| 0 <= m < b.len() && b[m] == name;
                if m == 0 {
                    lemma_segment_lt_irreflexive(a[0]);
                }
                assert(y[m - 1] == name);
            }
            if y.contains(name) {
                let k = choose|k: int| 0 <= k < y.len() && y[k] == name;
                assert(b[k + 1] == name);
                assert(b.contains(name));
                let m = choose|m: int| 0 <= m < a.len() && a[m] == name;
                if m == 0 {
                    lemma_segment_lt_irreflexive(b[0]);
                }
                assert(x[m - 1] == name);
            }
        }
        assert forall|p: int, q: int| 0 <= p < q < x.len() implies segment_lt(
            #[trigger] x[p],
            #[trigger] x[q],
        ) by {
            assert(x[p] == a[p + 1] && x[q] == a[q + 1]);
        }
        assert forall|p: int, q: int| 0 <= p < q < y.len() implies segment_lt(
            #[trigger] y[p],
            #[trigger] y[q],
        ) by {
            assert(y[p] == b[p + 1] && y[q] == b[q + 1]);
        }
        lemma_same_names(x, y);
        assert(a =~= seq![a[0]] + x);
        assert(b =~= seq![b[0]] + y);
    }
}

/// A list of the names of the children of a parent is the list of them.
pub proof fn lemma_child_list(
    names: Seq<Seq<char>>,
    map: Map<Seq<Seq<char>>, Seq<char>>,
    parent: Seq<Seq<char>>,
)
    requires
        is_child_list(names, map, parent),
    ensures
        names == child_list(map, parent),
{
    let chosen = child_list(map, parent);
    assert(is_child_list(chosen, map, parent));
    assert forall|name: Seq<char>| names.contains(name) <==> chosen.contains(name) by {
        assert(names.contains(name) <==> reaches(map, parent.push(name)));
        assert(chosen.contains(name) <==> reaches(map, parent.push(name)));
    }
    lemma_same_names(names, chosen);
}

/// What following a path does to a lookup: the node at the end of `path`
/// answers for all that lies below it, and where there is no such node
/// nothing is stored below.
pub proof fn lemma_descend_lookup(node: Node, path: Seq<Seq<char>>, rest: Seq<Seq<char>>)
    ensures
        node.lookup(path + rest) == match node.descend(path) {
            Some(end) => end.lookup(rest),
            None => None,
        },
    decreases path.len(),
{
    if path.len() == 0 {
        assert(path + rest =~= rest);
    } else {
        let whole = path + rest;
        assert(whole[0] == path[0]);
        assert(whole.drop_first() =~= path.drop_first() + rest);
        match index_of(node.segments(), path[0]) {
            Some(i) => {
                lemma_descend_lookup(node.children[i].node, path.drop_first(), rest);
            },
            None => {},
        }
    }
}

/// Every node below a well-formed node is well-formed and live.
pub proof fn lemma_descend_wf(node: Node, path: Seq<Seq<char>>)
    requires
        node.wf(),
        node.descend(path) is Some,
    ensures
        node.descend(path)->0.wf(),
        path.len() > 0 ==> node.descend(path)->0.live(),
    decreases path.len(),
{
    if path.len() > 0 {
        let i = index_of(node.segments(), path[0])->0;
        let child = node.children[i];
        lemma_descend_wf(child.node, path.drop_first());
    }
}

/// Following a path and then another is following both in a row.
pub proof fn lemma_descend_concat(node: Node, path: Seq<Seq<char>>, rest: Seq<Seq<char>>)
    ensures
        node.descend(path + rest) == match node.descend(path) {
            Some(end) => end.descend(rest),
            None => None,
        },
    decreases path.len(),
{
    if path.len() == 0 {
        assert(path + rest =~= rest);
    } else {
        let whole = path + rest;
        assert(whole[0] == path[0]);
        assert(whole.drop_first() =~= path.drop_first() + rest);
        match index_of(node.segments(), path[0]) {
            Some(i) => {
                lemma_descend_concat(node.children[i].node, path.drop_first(), rest);
            },
            None => {},
        }
    }
}

/// A single segment leads to the child of that name.
pub proof fn lemma_descend_one(node: Node, segment: Seq<char>)
    ensures
        node.descend(seq![segment]) == match index_of(node.segments(), segment) {
            Some(i) => Some(node.children[i].node),
            None => None,
        },
{
    let step = seq![segment];
    assert(step.drop_first() =~= Seq::<Seq<char>>::empty());
    match index_of(node.segments(), segment) {
        Some(i) => {
            assert(node.children[i].node.descend(Seq::empty()) == Some(node.children[i].node));
        },
        None => {},
    }
}

/// A live node holds a value somewhere. The result is a path to one.
pub proof fn lemma_live_witness(node: Node) -> (path: Seq<Seq<char>>)
    requires
        node.wf(),
        node.live(),
    ensures
        node.lookup(path) is Some,
    decreases node,
{
    if node.value is Some {
        Seq::empty()
    } else {
        let child = node.children[0];
        let below = lemma_live_witness(child.node);
        lemma_lookup_child(node, 0, below);
        seq![child.segment@] + below
    }
}

impl View for Store {
    type V = Map<Seq<Seq<char>>, Seq<char>>;

    closed spec fn view(&self) -> Map<Seq<Seq<char>>, Seq<char>> {
        Map::new(
            |path: Seq<Seq<char>>| self.root.lookup(path) is Some,
            |path: Seq<Seq<char>>| self.root.lookup(path)->0,
        )
    }
}

impl Store {
    /// The invariant of the trie.
    pub closed spec fn wf(&self) -> bool {
        self.root.wf()
    }

    /// The entries of a traversal of the whole store by `pattern`, in its
    /// order.
    pub closed spec fn traversal(&self, pattern: Seq<SegmentView>) -> Seq<Entry> {
        self.root.entries(Walk::Pattern(pattern), Seq::empty())
    }

    /// A prefix is reached where a node stands at its end.
    proof fn lemma_reaches(&self, prefix: Seq<Seq<char>>)
        requires
            self.wf(),
            prefix.len() > 0,
        ensures
            reaches(self@, prefix) == self.root.descend(prefix) is Some,
    {
        if self.root.descend(prefix) is Some {
            let end = self.root.descend(prefix)->0;
            lemma_descend_wf(self.root, prefix);
            let below = lemma_live_witness(end);
            lemma_descend_lookup(self.root, prefix, below);
            let path = prefix + below;
            assert(path.subrange(0, prefix.len() as int) =~= prefix);
            assert(self@.contains_key(path) && has_prefix(path, prefix));
        } else {
            assert forall|path: Seq<Seq<char>>| #[trigger]
                self@.contains_key(path) implies !has_prefix(path, prefix) by {
                if has_prefix(path, prefix) {
                    let rest = path.skip(prefix.len() as int);
                    assert(path =~= prefix + rest);
                    lemma_descend_lookup(self.root, prefix, rest);
                }
            }
        }
    }

    /// What the entries of a traversal by pattern are: every stored pair
    /// whose path the pattern matches, each once.
    pub proof fn lemma_traversal(&self, pattern: Seq<SegmentView>)
        requires
            self.wf(),
        ensures
            forall|path: Seq<Seq<char>>, value: Seq<char>|
                #[trigger] self.traversal(pattern).contains((path, value)) <==> self@.contains_pair(
                    path,
                    value,
                ) && pattern_matches(pattern, path),
            forall|i: int, j: int|
                0 <= i < j < self.traversal(pattern).len() ==> (#[trigger] self.traversal(
                    pattern,
                )[i]).0 != (#[trigger] self.traversal(pattern)[j]).0,
    {
        let walk = Walk::Pattern(pattern);
        let top = Seq::<Seq<char>>::empty();
        let entries = self.traversal(pattern);
        assert forall|path: Seq<Seq<char>>, value: Seq<char>| #[trigger]
            entries.contains((path, value)) <==> self@.contains_pair(path, value)
                && pattern_matches(pattern, path) by {
            if entries.contains((path, value)) {
                let i = choose|i: int| 0 <= i < entries.len() && entries[i] == (path, value);
                let rest = lemma_entries_sound(self.root, walk, top, i);
                assert(top + rest =~= rest);
            }
            if self@.contains_pair(path, value) && pattern_matches(pattern, path) {
                let i = lemma_entries_complete(self.root, walk, top, path);
                assert(top + path =~= path);
                assert(entries[i] == (path, value));
            }
        }
        assert forall|i: int, j: int| 0 <= i < j < entries.len() implies (#[trigger] entries[i]).0
            != (#[trigger] entries[j]).0 by {
            lemma_entries_distinct(self.root, walk, top, i, j);
        }
    }

    /// The list of the children of `parent` is what its name says: it
    /// holds each name under which a value is stored at or below `parent`,
    /// once, in ascending order.
    pub proof fn lemma_children(&self, parent: Seq<Seq<char>>)
        requires
            self.wf(),
        ensures
            is_child_list(child_list(self@, parent), self@, parent),
    {
        let end = self.root.descend(parent);
        let names = match end {
            Some(node) => node.segments(),
            None => Seq::empty(),
        };
        if end is Some {
            lemma_descend_wf(self.root, parent);
        }
        assert forall|name: Seq<char>| #[trigger]
            names.contains(name) <==> reaches(self@, parent.push(name)) by {
            let step = seq![name];
            assert(parent.push(name) =~= parent + step);
            lemma_descend_concat(self.root, parent, step);
            self.lemma_reaches(parent.push(name));
            match end {
                Some(node) => {
                    lemma_descend_one(node, name);
                    if names.contains(name) {
                        let c = choose|c: int|
                            0 <= c < node.segments().len() && node.segments()[c] == name;
                        lemma_index_of(node.segments(), c);
                    }
                },
                None => {},
            }
        }
        assert(is_child_list(names, self@, parent));
    }

    /// The entries of a walk through the whole store, in its order.
    pub closed spec fn everything(&self) -> Seq<Entry> {
        self.root.entries(Walk::Subtree, Seq::empty())
    }

    /// A walk through the whole store finds every stored pair, each once.
    pub proof fn lemma_everything(&self)
        requires
            self.wf(),
        ensures
            forall|path: Seq<Seq<char>>, value: Seq<char>|
                #[trigger] self.everything().contains((path, value)) <==> self@.contains_pair(
                    path,
                    value,
                ),
            forall|i: int, j: int|
                0 <= i < j < self.everything().len() ==> (#[trigger] self.everything()[i]).0 != (
                #[trigger] self.everything()[j]).0,
    {
        let top = Seq::<Seq<char>>::empty();
        let entries = self.everything();
        assert forall|path: Seq<Seq<char>>, value: Seq<char>| #[trigger]
            entries.contains((path, value)) <==> self@.contains_pair(path, value) by {
            if entries.contains((path, value)) {
                let i = choose|i: int| 0 <= i < entries.len() && entries[i] == (path, value);
                let rest = lemma_entries_sound(self.root, Walk::Subtree, top, i);
                assert(top + rest =~= rest);
            }
            if self@.contains_pair(path, value) {
                let i = lemma_entries_complete(self.root, Walk::Subtree, top, path);
                assert(top + path =~= path);
                assert(entries[i] == (path, value));
            }
        }
        assert forall|i: int, j: int| 0 <= i < j < entries.len() implies (#[trigger] entries[i]).0
            != (#[trigger] entries[j]).0 by {
            lemma_entries_distinct(self.root, Walk::Subtree, top, i, j);
        }
    }

    /// An empty store.
    pub fn new() -> (store: Store)
        ensures
            store.wf(),
            store@ == Map::<Seq<Seq<char>>, Seq<char>>::empty(),
    {
        let store = Store { root: Node::new() };
        proof {
            assert forall|path: Seq<Seq<char>>| store.root.lookup(path) is None by {
                lemma_dead_lookup(store.root, path);
            }
            assert(store@ =~= Map::<Seq<Seq<char>>, Seq<char>>::empty());
        }
        store
    }

    /// The value that is stored under `path`.
    pub fn get(&self, path: &Vec<String>) -> (value: Option<&Value>)
        requires
            self.wf(),
        ensures
            match value {
                Some(v) => self@.contains_pair(path_view(path@), v@),
                None => !self@.contains_key(path_view(path@)),
            },
    {
        self.root.find(path)
    }

    /// Stores `value` under `path` and returns the value that it replaces.
    pub fn set(&mut self, path: &Vec<String>, value: Value) -> (previous: Option<Value>)
        requires
            old(self).wf(),
        ensures
            final(self).wf(),
            final(self)@ == old(self)@.insert(path_view(path@), value@),
            match previous {
                Some(v) => old(self)@.contains_pair(path_view(path@), v@),
                None => !old(self)@.contains_key(path_view(path@)),
            },
    {
        assert(path_view(path@).skip(0) =~= path_view(path@));
        let ghost before = *self;
        let previous = self.root.insert(path, 0, value);
        proof {
            assert forall|k: Seq<Seq<char>>| #[trigger]
                self.root.lookup(k) == if k == path_view(path@) {
                    Some(value@)
                } else {
                    before.root.lookup(k)
                } by {}
            assert(self@ =~= before@.insert(path_view(path@), value@));
        }
        previous
    }

    /// Removes the value that is stored under `path` and returns it.
    pub fn delete(&mut self, path: &Vec<String>) -> (removed: Option<Value>)
        requires
            old(self).wf(),
        ensures
            final(self).wf(),
            final(self)@ == old(self)@.remove(path_view(path@)),
            match removed {
                Some(v) => old(self)@.contains_pair(path_view(path@), v@),
                None => !old(self)@.contains_key(path_view(path@)),
            },
    {
        assert(path_view(path@).skip(0) =~= path_view(path@));
        let ghost before = *self;
        let removed = self.root.remove(path, 0);
        proof {
            assert forall|k: Seq<Seq<char>>| #[trigger]
                self.root.lookup(k) == if k == path_view(path@) {
                    None
                } else {
                    before.root.lookup(k)
                } by {}
            assert(self@ =~= before@.remove(path_view(path@)));
        }
        removed
    }

    /// Every stored pair whose path `pattern` matches, each once, in the
    /// order of a depth-first walk that takes children in ascending order.
    pub fn pget(&self, pattern: &Vec<KeySegment>) -> (found: Found)
        requires
            self.wf(),
        ensures
            entry_views(found@) == self.traversal(pattern_view(pattern@)),
            forall|path: Seq<Seq<char>>, value: Seq<char>|
                #[trigger] entry_views(found@).contains((path, value)) <==> self@.contains_pair(
                    path,
                    value,
                ) && pattern_matches(pattern_view(pattern@), path),
            forall|i: int, j: int|
                0 <= i < j < found.len() ==> (#[trigger] entry_views(found@)[i]).0 != (
                #[trigger] entry_views(found@)[j]).0,
    {
        let mut prefix: Vec<String> = Vec::new();
        let mut found: Found = Vec::new();
        assert(pattern_view(pattern@).skip(0) =~= pattern_view(pattern@));
        assert(path_view(prefix@) =~= Seq::<Seq<char>>::empty());
        self.root.collect(pattern, 0, false, &mut prefix, &mut found);
        proof {
            assert(entry_views(found@) =~= self.traversal(pattern_view(pattern@)));
            self.lemma_traversal(pattern_view(pattern@));
        }
        found
    }

    /// Every stored pair, each once, in the order of a depth-first walk
    /// that takes children in ascending order.
    pub fn export(&self) -> (found: Found)
        requires
            self.wf(),
        ensures
            entry_views(found@) == self.everything(),
            forall|path: Seq<Seq<char>>, value: Seq<char>|
                #[trigger] entry_views(found@).contains((path, value)) <==> self@.contains_pair(
                    path,
                    value,
                ),
            forall|i: int, j: int|
                0 <= i < j < found.len() ==> (#[trigger] entry_views(found@)[i]).0 != (
                #[trigger] entry_views(found@)[j]).0,
    {
        let mut prefix: Vec<String> = Vec::new();
        let mut found: Found = Vec::new();
        let pattern: Vec<KeySegment> = Vec::new();
        assert(path_view(prefix@) =~= Seq::<Seq<char>>::empty());
        self.root.collect(&pattern, 0, true, &mut prefix, &mut found);
        proof {
            assert(entry_views(found@) =~= self.everything());
            self.lemma_everything();
        }
        found
    }

    /// Removes every pair whose path `pattern` matches and returns them, in
    /// the order of `pget`.
    pub fn pdelete(&mut self, pattern: &Vec<KeySegment>) -> (removed: Found)
        requires
            old(self).wf(),
        ensures
            final(self).wf(),
            entry_views(removed@) == old(self).traversal(pattern_view(pattern@)),
            forall|path: Seq<Seq<char>>, value: Seq<char>|
                #[trigger] entry_views(removed@).contains((path, value)) <==> old(
                    self,
                )@.contains_pair(path, value) && pattern_matches(pattern_view(pattern@), path),
            forall|i: int, j: int|
                0 <= i < j < removed.len() ==> (#[trigger] entry_views(removed@)[i]).0 != (
                #[trigger] entry_views(removed@)[j]).0,
            forall|path: Seq<Seq<char>>| #[trigger]
                final(self)@.contains_key(path) <==> old(self)@.contains_key(path)
                    && !pattern_matches(pattern_view(pattern@), path),
            forall|path: Seq<Seq<char>>| #[trigger]
                final(self)@.contains_key(path) ==> final(self)@[path] == old(self)@[path],
    {
        let removed = self.pget(pattern);
        let ghost before = *self;
        let ghost entries = entry_views(removed@);
        let mut i: usize = 0;
        while i < removed.len()
            invariant
                i <= removed.len(),
                self.wf(),
                entries == entry_views(removed@),
                forall|path: Seq<Seq<char>>| #[trigger]
                    self@.contains_key(path) <==> before@.contains_key(path) && !(exists|j: int|
                        0 <= j < i && (#[trigger] entries[j]).0 == path),
                forall|path: Seq<Seq<char>>| #[trigger]
                    self@.contains_key(path) ==> self@[path] == before@[path],
            decreases removed.len() - i,
        {
            let ghost earlier = *self;
            self.delete(&removed[i].0);
            proof {
                let gone = entries[i as int].0;
                assert(gone == path_view(removed[i as int].0@));
                assert forall|path: Seq<Seq<char>>| #[trigger]
                    self@.contains_key(path) <==> before@.contains_key(path) && !(exists|j: int|
                        0 <= j < i + 1 && (#[trigger] entries[j]).0 == path) by {
                    if path == gone {
                        assert(entries[i as int].0 == path);
                    } else {
                        if exists|j: int| 0 <= j < i + 1 && (#[trigger] entries[j]).0 == path {
                            let j = choose|j: int|
                                0 <= j < i + 1 && (#[trigger] entries[j]).0 == path;
                            assert(0 <= j < i && entries[j].0 == path);
                        }
                    }
                }
            }
            i += 1;
        }
        proof {
            assert forall|path: Seq<Seq<char>>| #[trigger]
                self@.contains_key(path) <==> before@.contains_key(path) && !pattern_matches(
                    pattern_view(pattern@),
                    path,
                ) by {
                if before@.contains_key(path) {
                    let value = before@[path];
                    if pattern_matches(pattern_view(pattern@), path) {
                        assert(entries.contains((path, value)));
                        let j = choose|j: int| 0 <= j < entries.len() && entries[j] == (path, value);
                        assert(entries[j].0 == path);
                    } else {
                        if exists|j: int| 0 <= j < i && (#[trigger] entries[j]).0 == path {
                            let j = choose|j: int| 0 <= j < i && (#[trigger] entries[j]).0 == path;
                            assert(entries.contains(entries[j]));
                            assert(entries.contains((path, entries[j].1)));
                        }
                    }
                }
            }
        }
        removed
    }

    /// The names of the children of `parent`, in ascending order; the
    /// children of the root where `parent` is empty.
    ///
    /// A name is a child of `parent` where a value is stored under a path
    /// that goes on from `parent` with that name. There is no answer where
    /// `parent` is not empty and nothing is stored at or below it.
    pub fn ls(&self, parent: &Vec<String>) -> (children: Option<Vec<String>>)
        requires
            self.wf(),
        ensures
            match children {
                Some(names) => {
                    &&& parent.len() == 0 || reaches(self@, path_view(parent@))
                    &&& ascending(path_view(names@))
                    &&& forall|name: Seq<char>| #[trigger]
                        path_view(names@).contains(name) <==> reaches(
                            self@,
                            path_view(parent@).push(name),
                        )
                },
                None => parent.len() > 0 && !reaches(self@, path_view(parent@)),
            },
    {
        let ghost whole = path_view(parent@);
        let mut node = &self.root;
        let mut depth: usize = 0;
        proof {
            assert(whole.subrange(0, 0) =~= Seq::<Seq<char>>::empty());
        }
        while depth < parent.len()
            invariant
                depth <= parent.len(),
                whole == path_view(parent@),
                self.wf(),
                node.wf(),
                self.root.descend(whole.subrange(0, depth as int)) == Some(*node),
            decreases parent.len() - depth,
        {
            proof {
                let upto = whole.subrange(0, depth as int);
                let step = seq![parent[depth as int]@];
                assert(whole.subrange(0, depth + 1) =~= upto + step);
                lemma_descend_concat(self.root, upto, step);
                lemma_descend_one(*node, parent[depth as int]@);
            }
            let (pos, found) = node.locate(parent[depth].as_str());
            if !found {
                proof {
                    let here = whole.subrange(0, depth + 1);
                    let rest = whole.skip(depth + 1);
                    assert(whole =~= here + rest);
                    lemma_descend_concat(self.root, here, rest);
                    self.lemma_reaches(whole);
                }
                return None;
            }
            node = &node.children[pos].node;
            depth += 1;
        }
        assert(whole.subrange(0, depth as int) =~= whole);
        let mut names: Vec<String> = Vec::new();
        let mut i: usize = 0;
        while i < node.children.len()
            invariant
                i <= node.children.len(),
                path_view(names@) == node.segments().subrange(0, i as int),
            decreases node.children.len() - i,
        {
            let name = node.children[i].segment.clone();
            let ghost before = path_view(names@);
            names.push(name);
            assert(path_view(names@) =~= before.push(node.children[i as int].segment@));
            i += 1;
            assert(path_view(names@) =~= node.segments().subrange(0, i as int));
        }
        proof {
            assert(node.segments().subrange(0, i as int) =~= node.segments());
            if parent.len() > 0 {
                self.lemma_reaches(whole);
            }
            assert forall|name: Seq<char>| #[trigger]
                path_view(names@).contains(name) <==> reaches(self@, whole.push(name)) by {
                let step = seq![name];
                assert(whole.push(name) =~= whole + step);
                lemma_descend_concat(self.root, whole, step);
                lemma_descend_one(*node, name);
                self.lemma_reaches(whole.push(name));
                if path_view(names@).contains(name) {
                    let c = choose|c: int|
                        0 <= c < node.segments().len() && node.segments()[c] == name;
                    lemma_index_of(node.segments(), c);
                }
            }
        }
        Some(names)
    }

    /// How many leading segments of `path` lead along stored keys: the
    /// length of the longest start of `path` that is also the start of the
    /// path of a stored value.
    pub fn known_prefix(&self, path: &Vec<String>) -> (n: usize)
        requires
            self.wf(),
        ensures
            n <= path.len(),
            forall|d: int|
                1 <= d <= path.len() ==> (#[trigger] reaches(
                    self@,
                    path_view(path@).subrange(0, d),
                ) <==> d <= n),
    {
        let ghost whole = path_view(path@);
        let mut node = &self.root;
        let mut depth: usize = 0;
        proof {
            assert(whole.subrange(0, 0) =~= Seq::<Seq<char>>::empty());
        }
        while depth < path.len()
            invariant
                depth <= path.len(),
                whole == path_view(path@),
                self.wf(),
                node.wf(),
                self.root.descend(whole.subrange(0, depth as int)) == Some(*node),
            ensures
                depth == path.len() || self.root.descend(whole.subrange(0, depth + 1)) is None,
            decreases path.len() - depth,
        {
            proof {
                let upto = whole.subrange(0, depth as int);
                let step = seq![path[depth as int]@];
                assert(whole.subrange(0, depth + 1) =~= upto + step);
                lemma_descend_concat(self.root, upto, step);
                lemma_descend_one(*node, path[depth as int]@);
            }
            let (pos, found) = node.locate(path[depth].as_str());
            if !found {
                break;
            }
            node = &node.children[pos].node;
            depth += 1;
        }
        proof {
            assert forall|d: int| 1 <= d <= path.len() implies (#[trigger] reaches(
                self@,
                whole.subrange(0, d),
            ) <==> d <= depth) by {
                let start = whole.subrange(0, d);
                self.lemma_reaches(start);
                if d <= depth {
                    let known = whole.subrange(0, depth as int);
                    assert(known =~= start + known.skip(d));
                    lemma_descend_concat(self.root, start, known.skip(d));
                } else {
                    let next = whole.subrange(0, depth + 1);
                    assert(start =~= next + start.skip(depth + 1));
                    lemma_descend_concat(self.root, next, start.skip(depth + 1));
                }
            }
        }
        depth
    }

    /// The number of stored values.
    pub fn len(&self) -> (n: usize)
        requires
            self.wf(),
        ensures
            self@.dom().finite(),
            n == self@.dom().len(),
    {
        let mut prefix: Vec<String> = Vec::new();
        let mut found: Found = Vec::new();
        let pattern: Vec<KeySegment> = Vec::new();
        assert(path_view(prefix@) =~= Seq::<Seq<char>>::empty());
        self.root.collect(&pattern, 0, true, &mut prefix, &mut found);
        proof {
            let top = Seq::<Seq<char>>::empty();
            let entries = self.root.entries(Walk::Subtree, top);
            assert(entry_views(found@) =~= entries);
            let paths = entries.map_values(|e: Entry| e.0);
            assert forall|i: int, j: int|
                0 <= i < paths.len() && 0 <= j < paths.len() && i != j implies paths[i]
                != paths[j] by {
                if i < j {
                    lemma_entries_distinct(self.root, Walk::Subtree, top, i, j);
                } else {
                    lemma_entries_distinct(self.root, Walk::Subtree, top, j, i);
                }
            }
            paths.unique_seq_to_set();
            seq_to_set_is_finite(paths);
            assert forall|path: Seq<Seq<char>>| paths.to_set().contains(path)
                <==> self@.dom().contains(path) by {
                if paths.contains(path) {
                    let i = choose|i: int| 0 <= i < paths.len() && paths[i] == path;
                    let rest = lemma_entries_sound(self.root, Walk::Subtree, top, i);
                    assert(top + rest =~= rest);
                }
                if self@.dom().contains(path) {
                    let i = lemma_entries_complete(self.root, Walk::Subtree, top, path);
                    assert(top + path =~= path);
                    assert(paths[i] == path);
                }
            }
            assert(paths.to_set() =~= self@.dom());
        }
        found.len()
    }
}

} // verus!
