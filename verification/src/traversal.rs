//! Reading the trie by pattern.
//!
//! A traversal walks the trie depth first, children in their order, and is
//! bounded by its pattern: under a regular segment it descends into the
//! child of that name only, under the wildcard into every child, and from the
//! multi-wildcard on it takes every value of the subtree.

use crate::key::{path_view, pattern_matches, pattern_view, KeySegment, SegmentView};
use crate::order::lemma_ascending_distinct;
use crate::node::{index_of, lemma_index_of, Child, Node, Value};
use vstd::prelude::*;

verus! {

/// A path with the value that is stored under it.
pub type Entry = (Seq<Seq<char>>, Seq<char>);

/// What a traversal still asks of the paths below the node it stands at.
pub enum Walk {
    /// The rest of the path has to match the rest of the pattern.
    Pattern(Seq<SegmentView>),
    /// Every path is taken.
    Subtree,
}

impl Walk {
    /// Whether the traversal takes the value under `path`, counted from the
    /// node it stands at.
    pub open spec fn accepts(self, path: Seq<Seq<char>>) -> bool {
        match self {
            Walk::Pattern(pattern) => pattern_matches(pattern, path),
            Walk::Subtree => true,
        }
    }

    /// Whether the traversal takes the value of the node it stands at.
    pub open spec fn here(self) -> bool {
        match self {
            Walk::Pattern(pattern) => pattern.len() == 0,
            Walk::Subtree => true,
        }
    }

    /// What the traversal asks below the child `segment`, if it descends
    /// into that child at all.
    pub open spec fn step(self, segment: Seq<char>) -> Option<Walk> {
        match self {
            Walk::Subtree => Some(Walk::Subtree),
            Walk::Pattern(pattern) => if pattern.len() == 0 {
                None
            } else {
                match pattern[0] {
                    SegmentView::MultiWildcard => if pattern.len() == 1 {
                        Some(Walk::Subtree)
                    } else {
                        None
                    },
                    SegmentView::Wildcard => Some(Walk::Pattern(pattern.drop_first())),
                    SegmentView::Regular(s) => if s == segment {
                        Some(Walk::Pattern(pattern.drop_first()))
                    } else {
                        None
                    },
                }
            },
        }
    }
}

/// A path is accepted where the step into its first segment is taken and the
/// rest is accepted from there.
pub proof fn lemma_walk_step(walk: Walk, path: Seq<Seq<char>>)
    requires
        path.len() > 0,
    ensures
        walk.accepts(path) == match walk.step(path[0]) {
            Some(next) => next.accepts(path.drop_first()),
            None => false,
        },
        walk.here() == walk.accepts(Seq::empty()),
{
}

impl Node {
    /// What a traversal that stands at this node finds at the node itself.
    pub open spec fn own_entry(self, walk: Walk, prefix: Seq<Seq<char>>) -> Seq<Entry> {
        if walk.here() && self.value is Some {
            seq![(prefix, self.value->0@)]
        } else {
            Seq::empty()
        }
    }

    /// What a traversal that stands at this node finds, in its order: the
    /// node's own value first, then what it finds below each child.
    /// `prefix` is the path of this node.
    pub open spec fn entries(self, walk: Walk, prefix: Seq<Seq<char>>) -> Seq<Entry>
        decreases self, self.children.len() + 1,
    {
        self.own_entry(walk, prefix) + self.child_entries(
            walk,
            prefix,
            self.children.len() as nat,
        )
    }

    /// What the traversal finds below the first `upto` children.
    pub open spec fn child_entries(self, walk: Walk, prefix: Seq<Seq<char>>, upto: nat) -> Seq<
        Entry,
    >
        decreases self, upto,
    {
        if upto == 0 || upto > self.children.len() {
            Seq::empty()
        } else {
            self.child_entries(walk, prefix, (upto - 1) as nat) + self.below(
                walk,
                prefix,
                upto - 1,
            )
        }
    }

    /// What the traversal finds below the child at `index`.
    pub open spec fn below(self, walk: Walk, prefix: Seq<Seq<char>>, index: int) -> Seq<Entry>
        decreases self, 0nat,
    {
        if 0 <= index < self.children.len() {
            match walk.step(self.children[index].segment@) {
                Some(next) => self.children[index].node.entries(
                    next,
                    prefix.push(self.children[index].segment@),
                ),
                None => Seq::empty(),
            }
        } else {
            Seq::empty()
        }
    }
}

/// Looking up a path that starts with the segment of a child is looking up
/// the rest in that child.
pub proof fn lemma_lookup_child(node: Node, index: int, rest: Seq<Seq<char>>)
    requires
        node.wf(),
        0 <= index < node.children.len(),
    ensures
        node.lookup(seq![node.children[index].segment@] + rest) == node.children[index].node.lookup(
            rest,
        ),
{
    let path = seq![node.children[index].segment@] + rest;
    assert(node.segments()[index] == node.children[index].segment@);
    lemma_index_of(node.segments(), index);
    assert(path.drop_first() =~= rest);
}

/// Every entry that a traversal finds is stored under its path, and the
/// traversal accepts the part of the path below the node. The result is that
/// part.
pub proof fn lemma_entries_sound(node: Node, walk: Walk, prefix: Seq<Seq<char>>, i: int) -> (rest:
    Seq<Seq<char>>)
    requires
        node.wf(),
        0 <= i < node.entries(walk, prefix).len(),
    ensures
        node.entries(walk, prefix)[i].0 == prefix + rest,
        walk.accepts(rest),
        node.lookup(rest) == Some(node.entries(walk, prefix)[i].1),
    decreases node, node.children.len() + 1,
{
    let own = node.own_entry(walk, prefix);
    assert(node.entries(walk, prefix) == own + node.child_entries(
        walk,
        prefix,
        node.children.len() as nat,
    ));
    if i < own.len() {
        let rest = Seq::<Seq<char>>::empty();
        assert(prefix + rest =~= prefix);
        rest
    } else {
        lemma_child_entries_sound(node, walk, prefix, node.children.len() as nat, i - own.len())
    }
}

/// The same for what is found below the first `upto` children; the path
/// below the node then starts with the segment of one of them.
pub proof fn lemma_child_entries_sound(
    node: Node,
    walk: Walk,
    prefix: Seq<Seq<char>>,
    upto: nat,
    i: int,
) -> (rest: Seq<Seq<char>>)
    requires
        node.wf(),
        upto <= node.children.len(),
        0 <= i < node.child_entries(walk, prefix, upto).len(),
    ensures
        node.child_entries(walk, prefix, upto)[i].0 == prefix + rest,
        walk.accepts(rest),
        node.lookup(rest) == Some(node.child_entries(walk, prefix, upto)[i].1),
        rest.len() > 0,
        exists|c: int| 0 <= c < upto && node.children[c].segment@ == rest[0],
    decreases node, upto,
{
    let earlier = node.child_entries(walk, prefix, (upto - 1) as nat);
    let last = node.below(walk, prefix, upto - 1);
    assert(node.child_entries(walk, prefix, upto) == earlier + last);
    if i < earlier.len() {
        let rest = lemma_child_entries_sound(node, walk, prefix, (upto - 1) as nat, i);
        let c = choose|c: int| 0 <= c < upto - 1 && node.children[c].segment@ == rest[0];
        assert(0 <= c < upto && node.children[c].segment@ == rest[0]);
        rest
    } else {
        let index = upto - 1;
        let child = node.children[index];
        let next = walk.step(child.segment@)->0;
        let inner = lemma_entries_sound(
            child.node,
            next,
            prefix.push(child.segment@),
            i - earlier.len(),
        );
        let rest = seq![child.segment@] + inner;
        assert(prefix.push(child.segment@) + inner =~= prefix + rest);
        lemma_lookup_child(node, index, inner);
        lemma_walk_step(walk, rest);
        assert(rest.drop_first() =~= inner);
        assert(0 <= index < upto && node.children[index].segment@ == rest[0]);
        rest
    }
}

/// Every value that is stored below the node under a path that the traversal
/// accepts is among the entries. The result is its place.
pub proof fn lemma_entries_complete(
    node: Node,
    walk: Walk,
    prefix: Seq<Seq<char>>,
    rest: Seq<Seq<char>>,
) -> (i: int)
    requires
        node.wf(),
        walk.accepts(rest),
        node.lookup(rest) is Some,
    ensures
        0 <= i < node.entries(walk, prefix).len(),
        node.entries(walk, prefix)[i] == (prefix + rest, node.lookup(rest)->0),
    decreases node, node.children.len() + 1,
{
    let own = node.own_entry(walk, prefix);
    assert(node.entries(walk, prefix) == own + node.child_entries(
        walk,
        prefix,
        node.children.len() as nat,
    ));
    if rest.len() == 0 {
        assert(rest =~= Seq::<Seq<char>>::empty());
        assert(prefix + rest =~= prefix);
        0
    } else {
        let c = index_of(node.segments(), rest[0])->0;
        assert(node.segments()[c] == node.children[c].segment@);
        let j = lemma_child_entries_complete(
            node,
            walk,
            prefix,
            node.children.len() as nat,
            rest,
            c,
        );
        own.len() + j
    }
}

/// The same for a path that leads into the child at `c`, one of the first
/// `upto`.
pub proof fn lemma_child_entries_complete(
    node: Node,
    walk: Walk,
    prefix: Seq<Seq<char>>,
    upto: nat,
    rest: Seq<Seq<char>>,
    c: int,
) -> (i: int)
    requires
        node.wf(),
        upto <= node.children.len(),
        walk.accepts(rest),
        node.lookup(rest) is Some,
        rest.len() > 0,
        0 <= c < upto,
        node.children[c].segment@ == rest[0],
    ensures
        0 <= i < node.child_entries(walk, prefix, upto).len(),
        node.child_entries(walk, prefix, upto)[i] == (prefix + rest, node.lookup(rest)->0),
    decreases node, upto,
{
    let earlier = node.child_entries(walk, prefix, (upto - 1) as nat);
    let last = node.below(walk, prefix, upto - 1);
    assert(node.child_entries(walk, prefix, upto) == earlier + last);
    if c < upto - 1 {
        lemma_child_entries_complete(node, walk, prefix, (upto - 1) as nat, rest, c)
    } else {
        let child = node.children[c];
        let inner = rest.drop_first();
        assert(rest =~= seq![child.segment@] + inner);
        lemma_lookup_child(node, c, inner);
        lemma_walk_step(walk, rest);
        let next = walk.step(child.segment@)->0;
        let j = lemma_entries_complete(child.node, next, prefix.push(child.segment@), inner);
        assert(prefix.push(child.segment@) + inner =~= prefix + rest);
        earlier.len() + j
    }
}

/// No path occurs twice among the entries of a traversal.
pub proof fn lemma_entries_distinct(node: Node, walk: Walk, prefix: Seq<Seq<char>>, i: int, j: int)
    requires
        node.wf(),
        0 <= i < j < node.entries(walk, prefix).len(),
    ensures
        node.entries(walk, prefix)[i].0 != node.entries(walk, prefix)[j].0,
    decreases node, node.children.len() + 1,
{
    let own = node.own_entry(walk, prefix);
    let n = node.children.len() as nat;
    assert(node.entries(walk, prefix) == own + node.child_entries(walk, prefix, n));
    if i < own.len() {
        let rest = lemma_child_entries_sound(node, walk, prefix, n, j - own.len());
        assert((prefix + rest).len() != prefix.len());
    } else {
        lemma_child_entries_distinct(node, walk, prefix, n, i - own.len(), j - own.len());
    }
}

/// The same for what is found below the first `upto` children.
pub proof fn lemma_child_entries_distinct(
    node: Node,
    walk: Walk,
    prefix: Seq<Seq<char>>,
    upto: nat,
    i: int,
    j: int,
)
    requires
        node.wf(),
        upto <= node.children.len(),
        0 <= i < j < node.child_entries(walk, prefix, upto).len(),
    ensures
        node.child_entries(walk, prefix, upto)[i].0 != node.child_entries(walk, prefix, upto)[j].0,
    decreases node, upto,
{
    let earlier = node.child_entries(walk, prefix, (upto - 1) as nat);
    let last = node.below(walk, prefix, upto - 1);
    assert(node.child_entries(walk, prefix, upto) == earlier + last);
    if j < earlier.len() {
        lemma_child_entries_distinct(node, walk, prefix, (upto - 1) as nat, i, j);
    } else {
        let index = upto - 1;
        let child = node.children[index];
        let next = walk.step(child.segment@)->0;
        let inside = prefix.push(child.segment@);
        if i >= earlier.len() {
            lemma_entries_distinct(child.node, next, inside, i - earlier.len(), j - earlier.len());
        } else {
            let rest_i = lemma_child_entries_sound(node, walk, prefix, (upto - 1) as nat, i);
            let c = choose|c: int| 0 <= c < upto - 1 && node.children[c].segment@ == rest_i[0];
            let inner = lemma_entries_sound(child.node, next, inside, j - earlier.len());
            let path_i = prefix + rest_i;
            let path_j = inside + inner;
            assert(path_i[prefix.len() as int] == rest_i[0]);
            assert(path_j[prefix.len() as int] == child.segment@);
            assert(node.segments()[c] == node.children[c].segment@);
            assert(node.segments()[index] == child.segment@);
            if rest_i[0] == child.segment@ {
                lemma_ascending_distinct(node.segments(), c, index);
            }
        }
    }
}

/// What was found: each path with a copy of its value.
pub type Found = Vec<(Vec<String>, Value)>;

/// The entries that a list of found pairs stands for.
pub open spec fn entry_views(found: Seq<(Vec<String>, Value)>) -> Seq<Entry> {
    found.map_values(|e: (Vec<String>, Value)| (path_view(e.0@), e.1@))
}

/// The state of a traversal that has come `depth` segments into `pattern`,
/// or has passed a multi-wildcard and takes the whole subtree.
pub open spec fn walk_of(pattern: Seq<KeySegment>, depth: int, subtree: bool) -> Walk {
    if subtree {
        Walk::Subtree
    } else {
        Walk::Pattern(pattern_view(pattern).skip(depth))
    }
}

/// A copy of a path.
pub fn clone_path(path: &Vec<String>) -> (copy: Vec<String>)
    ensures
        path_view(copy@) == path_view(path@),
{
    let mut copy: Vec<String> = Vec::new();
    let mut i: usize = 0;
    while i < path.len()
        invariant
            i <= path.len(),
            path_view(copy@) == path_view(path@).subrange(0, i as int),
        decreases path.len() - i,
    {
        let segment = path[i].clone();
        let ghost before = path_view(copy@);
        copy.push(segment);
        assert(path_view(copy@) =~= before.push(path[i as int]@));
        i += 1;
        assert(path_view(copy@) =~= path_view(path@).subrange(0, i as int));
    }
    assert(path_view(path@).subrange(0, i as int) =~= path_view(path@));
    copy
}

/// The step of a traversal into the child `segment`: where it stands in the
/// pattern afterwards, or nothing where it does not descend.
pub fn walk_step(pattern: &Vec<KeySegment>, depth: usize, subtree: bool, segment: &String) -> (r:
    Option<(usize, bool)>)
    requires
        depth <= pattern.len(),
    ensures
        match (walk_of(pattern@, depth as int, subtree).step(segment@), r) {
            (Some(next), Some((d, t))) => d <= pattern.len() && walk_of(pattern@, d as int, t)
                == next,
            (None, None) => true,
            _ => false,
        },
{
    let ghost rest = pattern_view(pattern@).skip(depth as int);
    if subtree {
        Some((depth, true))
    } else if depth == pattern.len() {
        None
    } else {
        proof {
            assert(rest[0] == pattern[depth as int]@);
            assert(rest.drop_first() =~= pattern_view(pattern@).skip(depth + 1));
        }
        match &pattern[depth] {
            KeySegment::MultiWildcard => {
                if depth + 1 == pattern.len() {
                    Some((depth + 1, true))
                } else {
                    None
                }
            },
            KeySegment::Wildcard => Some((depth + 1, false)),
            KeySegment::Regular(s) => {
                if *s == *segment {
                    Some((depth + 1, false))
                } else {
                    None
                }
            },
        }
    }
}

impl Node {
    /// Appends to `found` what a traversal finds that stands at this node,
    /// `depth` segments into `pattern`. `prefix` holds the path of this node
    /// and is handed back as it was.
    pub fn collect(
        &self,
        pattern: &Vec<KeySegment>,
        depth: usize,
        subtree: bool,
        prefix: &mut Vec<String>,
        found: &mut Found,
    )
        requires
            depth <= pattern.len(),
        ensures
            path_view(final(prefix)@) == path_view(old(prefix)@),
            entry_views(final(found)@) == entry_views(old(found)@) + self.entries(
                walk_of(pattern@, depth as int, subtree),
                path_view(old(prefix)@),
            ),
        decreases self,
    {
        let ghost walk = walk_of(pattern@, depth as int, subtree);
        let ghost here = path_view(prefix@);
        let ghost start = entry_views(found@);
        if subtree || depth == pattern.len() {
            match &self.value {
                Some(v) => {
                    let path = clone_path(prefix);
                    found.push((path, v.clone()));
                    assert(entry_views(found@) =~= start + self.own_entry(walk, here));
                },
                None => {
                    assert(entry_views(found@) =~= start + self.own_entry(walk, here));
                },
            }
        } else {
            assert(entry_views(found@) =~= start + self.own_entry(walk, here));
        }
        let mut i: usize = 0;
        assert(entry_views(found@) =~= start + self.own_entry(walk, here) + self.child_entries(
            walk,
            here,
            0,
        ));
        while i < self.children.len()
            invariant
                i <= self.children.len(),
                depth <= pattern.len(),
                walk == walk_of(pattern@, depth as int, subtree),
                path_view(prefix@) == here,
                entry_views(found@) == start + self.own_entry(walk, here) + self.child_entries(
                    walk,
                    here,
                    i as nat,
                ),
            decreases self.children.len() - i,
        {
            let child = &self.children[i];
            let ghost earlier = entry_views(found@);
            let ghost last = self.below(walk, here, i as int);
            assert(self.child_entries(walk, here, (i + 1) as nat) == self.child_entries(
                walk,
                here,
                i as nat,
            ) + last);
            match walk_step(pattern, depth, subtree, &child.segment) {
                Some((next_depth, next_subtree)) => {
                    prefix.push(child.segment.clone());
                    assert(path_view(prefix@) =~= here.push(child.segment@));
                    child.node.collect(pattern, next_depth, next_subtree, prefix, found);
                    let ghost inside = prefix@;
                    prefix.pop();
                    assert(prefix@ =~= inside.drop_last());
                    assert(path_view(inside.drop_last()) =~= path_view(inside).drop_last());
                    assert(path_view(prefix@) =~= here);
                    assert(entry_views(found@) == earlier + last);
                },
                None => {
                    assert(last =~= Seq::<Entry>::empty());
                    assert(entry_views(found@) =~= earlier + last);
                },
            }
            i += 1;
            assert(entry_views(found@) =~= start + self.own_entry(walk, here) + self.child_entries(
                walk,
                here,
                i as nat,
            ));
        }
        assert(self.entries(walk, here) == self.own_entry(walk, here) + self.child_entries(
            walk,
            here,
            self.children.len() as nat,
        ));
        assert(entry_views(found@) =~= start + self.entries(walk, here));
    }
}

} // verus!
