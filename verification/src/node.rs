//! The nodes of the store: a trie of values, one level for each segment of a
//! key.
//!
//! Every node may hold a value and has a list of children, each under the
//! segment that leads to it. The children of a node are kept in ascending
//! order of their segments, and a node that holds no value and has no
//! children does not stay in the trie.

use crate::key::{pattern_matches, path_view, pattern_view, KeySegment, SegmentView};
use crate::order::{
    ascending, lemma_ascending_distinct, lemma_segment_lt_irreflexive, lemma_segment_lt_total,
    lemma_segment_lt_transitive, segment_lt, str_lt,
};
use vstd::prelude::*;

verus! {

pub type Value = String;

/// A subtree and the segment under which its parent holds it.
pub struct Child {
    pub segment: String,
    pub node: Node,
}

/// A node of the trie.
pub struct Node {
    pub value: Option<Value>,
    pub children: Vec<Child>,
}

/// The position of `segment` in `segments`, if it occurs there.
pub open spec fn index_of(segments: Seq<Seq<char>>, segment: Seq<char>) -> Option<int> {
    if exists|i: int| 0 <= i < segments.len() && segments[i] == segment {
        Some(choose|i: int| 0 <= i < segments.len() && segments[i] == segment)
    } else {
        None
    }
}

/// In an ascending sequence each segment is found where it stands.
pub proof fn lemma_index_of(segments: Seq<Seq<char>>, i: int)
    requires
        ascending(segments),
        0 <= i < segments.len(),
    ensures
        index_of(segments, segments[i]) == Some(i),
{
    let j = choose|j: int| 0 <= j < segments.len() && segments[j] == segments[i];
    lemma_ascending_distinct(segments, i, j);
}

impl Node {
    /// The segments of the children, in the order of the children.
    pub open spec fn segments(self) -> Seq<Seq<char>> {
        self.children@.map_values(|c: Child| c.segment@)
    }

    /// The value of this node as a sequence of characters.
    pub open spec fn value_view(self) -> Option<Seq<char>> {
        match self.value {
            Some(v) => Some(v@),
            None => None,
        }
    }

    /// The node holds a value or has a child.
    pub open spec fn live(self) -> bool {
        self.value is Some || self.children.len() > 0
    }

    /// The children stand in ascending order, and each of them is live and
    /// well-formed itself.
    pub open spec fn wf(self) -> bool
        decreases self,
    {
        &&& ascending(self.segments())
        &&& forall|i: int|
            0 <= i < self.children.len() ==> (#[trigger] self.children[i]).node.live()
                && self.children[i].node.wf()
    }

    /// The value that is stored under `path`, seen from this node.
    pub open spec fn lookup(self, path: Seq<Seq<char>>) -> Option<Seq<char>>
        decreases path.len(),
    {
        if path.len() == 0 {
            self.value_view()
        } else {
            match index_of(self.segments(), path[0]) {
                Some(i) => self.children[i].node.lookup(path.drop_first()),
                None => None,
            }
        }
    }

    /// The node that `path` leads to from this one.
    pub open spec fn descend(self, path: Seq<Seq<char>>) -> Option<Node>
        decreases path.len(),
    {
        if path.len() == 0 {
            Some(self)
        } else {
            match index_of(self.segments(), path[0]) {
                Some(i) => self.children[i].node.descend(path.drop_first()),
                None => None,
            }
        }
    }

    /// A node without value and children.
    pub fn new() -> (node: Node)
        ensures
            node.wf(),
            !node.live(),
            node.value is None,
            node.children@.len() == 0,
    {
        Node { value: None, children: Vec::new() }
    }

    /// Where `segment` stands among the children, or would have to stand,
    /// and whether it is there.
    pub fn locate(&self, segment: &str) -> (r: (usize, bool))
        requires
            ascending(self.segments()),
        ensures
            r.0 <= self.children.len(),
            forall|i: int| 0 <= i < r.0 ==> segment_lt(#[trigger] self.segments()[i], segment@),
            forall|i: int|
                r.0 + (if r.1 { 1int } else { 0int }) <= i < self.children.len() ==> segment_lt(
                    segment@,
                    #[trigger] self.segments()[i],
                ),
            r.1 ==> r.0 < self.children.len() && self.segments()[r.0 as int] == segment@,
            index_of(self.segments(), segment@) == (if r.1 { Some(r.0 as int) } else { None }),
    {
        let mut pos: usize = 0;
        while pos < self.children.len() && str_lt(self.children[pos].segment.as_str(), segment)
            invariant
                pos <= self.children.len(),
                forall|i: int| 0 <= i < pos ==> segment_lt(#[trigger] self.segments()[i], segment@),
            decreases self.children.len() - pos,
        {
            assert(self.segments()[pos as int] == self.children[pos as int].segment@);
            pos += 1;
        }
        let found = pos < self.children.len() && !str_lt(
            segment,
            self.children[pos].segment.as_str(),
        );
        proof {
            let segments = self.segments();
            if pos < segments.len() {
                assert(segments[pos as int] == self.children[pos as int].segment@);
                lemma_segment_lt_total(segments[pos as int], segment@);
                lemma_segment_lt_irreflexive(segment@);
            }
            assert forall|i: int|
                pos + (if found { 1int } else { 0int }) <= i < segments.len() implies segment_lt(
                segment@,
                #[trigger] segments[i],
            ) by {
                if i > pos {
                    if found {
                    } else {
                        lemma_segment_lt_transitive(segment@, segments[pos as int], segments[i]);
                    }
                }
            }
            if found {
                lemma_index_of(segments, pos as int);
            } else {
                assert forall|i: int| 0 <= i < segments.len() implies segments[i] != segment@ by {
                    lemma_segment_lt_irreflexive(segment@);
                }
            }
        }
        (pos, found)
    }
}

/// Where a segment stands after another one has been put in at `pos`.
pub proof fn lemma_index_of_insert(
    segments: Seq<Seq<char>>,
    pos: int,
    segment: Seq<char>,
    other: Seq<char>,
)
    requires
        0 <= pos <= segments.len(),
        ascending(segments),
        ascending(segments.insert(pos, segment)),
    ensures
        other != segment ==> index_of(segments.insert(pos, segment), other) == match index_of(
            segments,
            other,
        ) {
            Some(i) => Some(if i < pos { i } else { i + 1 }),
            None => None,
        },
        index_of(segments.insert(pos, segment), segment) == Some(pos),
{
    let after = segments.insert(pos, segment);
    lemma_index_of(after, pos);
    if other != segment {
        match index_of(segments, other) {
            Some(i) => {
                let j = if i < pos { i } else { i + 1 };
                assert(after[j] == other);
                lemma_index_of(after, j);
            },
            None => {
                assert forall|j: int| 0 <= j < after.len() implies after[j] != other by {
                    if j < pos {
                        assert(after[j] == segments[j]);
                    } else if j > pos {
                        assert(after[j] == segments[j - 1]);
                    }
                }
            },
        }
    }
}

/// Two paths with the same first segment and the same rest are the same.
pub proof fn lemma_same_path(a: Seq<Seq<char>>, b: Seq<Seq<char>>)
    requires
        a.len() > 0,
        b.len() > 0,
        a[0] == b[0],
        a.drop_first() == b.drop_first(),
    ensures
        a == b,
{
    assert(a =~= seq![a[0]] + a.drop_first());
    assert(b =~= seq![b[0]] + b.drop_first());
}

/// Where a segment stands after the one at `pos` has been taken out.
pub proof fn lemma_index_of_remove(segments: Seq<Seq<char>>, pos: int, other: Seq<char>)
    requires
        0 <= pos < segments.len(),
        ascending(segments),
    ensures
        ascending(segments.remove(pos)),
        index_of(segments.remove(pos), segments[pos]) is None,
        other != segments[pos] ==> index_of(segments.remove(pos), other) == match index_of(
            segments,
            other,
        ) {
            Some(i) => Some(if i < pos { i } else { i - 1 }),
            None => None,
        },
{
    let after = segments.remove(pos);
    assert forall|i: int, j: int| 0 <= i < j < after.len() implies segment_lt(
        #[trigger] after[i],
        #[trigger] after[j],
    ) by {
        let i0 = if i < pos { i } else { i + 1 };
        let j0 = if j < pos { j } else { j + 1 };
        assert(after[i] == segments[i0] && after[j] == segments[j0]);
    }
    assert forall|j: int| 0 <= j < after.len() implies after[j] != segments[pos] by {
        let j0 = if j < pos { j } else { j + 1 };
        assert(after[j] == segments[j0]);
        if segments[j0] == segments[pos] {
            lemma_ascending_distinct(segments, j0, pos);
        }
    }
    if other != segments[pos] {
        match index_of(segments, other) {
            Some(i) => {
                let j = if i < pos { i } else { i - 1 };
                assert(after[j] == other);
                lemma_index_of(after, j);
            },
            None => {
                assert forall|j: int| 0 <= j < after.len() implies after[j] != other by {
                    let j0 = if j < pos { j } else { j + 1 };
                    assert(after[j] == segments[j0]);
                }
            },
        }
    }
}

/// A node that is not live holds nothing.
pub proof fn lemma_dead_lookup(node: Node, path: Seq<Seq<char>>)
    requires
        !node.live(),
    ensures
        node.lookup(path) is None,
{
}

/// The view of an optional value.
pub open spec fn value_of(value: Option<Value>) -> Option<Seq<char>> {
    match value {
        Some(v) => Some(v@),
        None => None,
    }
}

impl Node {
    /// Whether the node holds a value or has a child.
    pub fn is_live(&self) -> (live: bool)
        ensures
            live == self.live(),
    {
        self.value.is_some() || self.children.len() > 0
    }

    /// Stores `value` under the rest of `path` from `depth` on and returns
    /// what was stored there before.
    pub fn insert(&mut self, path: &Vec<String>, depth: usize, value: Value) -> (previous: Option<
        Value,
    >)
        requires
            old(self).wf(),
            depth <= path.len(),
        ensures
            final(self).wf(),
            final(self).live(),
            value_of(previous) == old(self).lookup(path_view(path@).skip(depth as int)),
            forall|k: Seq<Seq<char>>|
                #[trigger] final(self).lookup(k) == if k == path_view(path@).skip(depth as int) {
                    Some(value@)
                } else {
                    old(self).lookup(k)
                },
        decreases path.len() - depth,
    {
        let ghost rest = path_view(path@).skip(depth as int);
        let ghost before = *self;
        if depth == path.len() {
            let previous = self.value.take();
            self.value = Some(value);
            proof {
                assert(rest =~= Seq::<Seq<char>>::empty());
                assert forall|k: Seq<Seq<char>>| #[trigger]
                    self.lookup(k) == if k == rest {
                        Some(value@)
                    } else {
                        before.lookup(k)
                    } by {
                    if k.len() == 0 {
                        assert(k =~= rest);
                    }
                }
            }
            previous
        } else {
            let ghost segment = path[depth as int]@;
            let ghost below = path_view(path@).skip(depth + 1);
            proof {
                assert(rest[0] == segment);
                assert(rest.drop_first() =~= below);
            }
            let (pos, found) = self.locate(path[depth].as_str());
            if found {
                let previous = self.children[pos].node.insert(path, depth + 1, value);
                proof {
                    assert(self.segments() =~= before.segments());
                    assert forall|i: int| 0 <= i < self.children.len() implies (
                    #[trigger] self.children[i]).node.live() && self.children[i].node.wf() by {
                        if i != pos {
                            assert(self.children[i] == before.children[i]);
                        }
                    }
                    assert forall|k: Seq<Seq<char>>| #[trigger]
                        self.lookup(k) == if k == rest {
                            Some(value@)
                        } else {
                            before.lookup(k)
                        } by {
                        if k.len() > 0 {
                            match index_of(before.segments(), k[0]) {
                                Some(i) => {
                                    if i == pos {
                                        assert(before.segments()[pos as int] == k[0]);
                                        let below_k = k.drop_first();
                                        assert(self.children[pos as int].node.lookup(below_k) == (
                                        if below_k == below {
                                            Some(value@)
                                        } else {
                                            before.children[pos as int].node.lookup(below_k)
                                        }));
                                        if below_k == below {
                                            lemma_same_path(k, rest);
                                        }
                                    } else {
                                        assert(self.children[i] == before.children[i]);
                                        lemma_index_of(before.segments(), pos as int);
                                    }
                                },
                                None => {},
                            }
                        }
                    }
                }
                previous
            } else {
                let mut node = Node::new();
                let ghost fresh = node;
                node.insert(path, depth + 1, value);
                let child = Child { segment: path[depth].clone(), node };
                self.children.insert(pos, child);
                proof {
                    let segments = before.segments();
                    assert(self.segments() =~= segments.insert(pos as int, segment));
                    assert forall|i: int, j: int|
                        0 <= i < j < self.segments().len() implies segment_lt(
                        #[trigger] self.segments()[i],
                        #[trigger] self.segments()[j],
                    ) by {
                        let i0 = if i < pos { i } else { i - 1 };
                        let j0 = if j < pos { j } else { j - 1 };
                        if i != pos && j != pos {
                            assert(self.segments()[i] == segments[i0]);
                            assert(self.segments()[j] == segments[j0]);
                        } else if i == pos {
                            assert(self.segments()[j] == segments[j0]);
                        } else {
                            assert(self.segments()[i] == segments[i0]);
                        }
                    }
                    assert forall|i: int| 0 <= i < self.children.len() implies (
                    #[trigger] self.children[i]).node.live() && self.children[i].node.wf() by {
                        if i < pos {
                            assert(self.children[i] == before.children[i]);
                        } else if i > pos {
                            assert(self.children[i] == before.children[i - 1]);
                        }
                    }
                    assert forall|k: Seq<Seq<char>>| #[trigger]
                        self.lookup(k) == if k == rest {
                            Some(value@)
                        } else {
                            before.lookup(k)
                        } by {
                        if k.len() > 0 {
                            if k[0] == segment {
                                lemma_index_of_insert(segments, pos as int, segment, segment);
                                let below_k = k.drop_first();
                                lemma_dead_lookup(fresh, below_k);
                                assert(self.children[pos as int].node.lookup(below_k) == (
                                if below_k == below {
                                    Some(value@)
                                } else {
                                    fresh.lookup(below_k)
                                }));
                                if below_k == below {
                                    lemma_same_path(k, rest);
                                }
                            } else {
                                lemma_index_of_insert(segments, pos as int, segment, k[0]);
                                match index_of(segments, k[0]) {
                                    Some(i) => {
                                        let j = if i < pos { i } else { i + 1 };
                                        assert(self.children[j] == before.children[i]);
                                    },
                                    None => {},
                                }
                            }
                        }
                    }
                }
                None
            }
        }
    }

    /// Takes away what is stored under the rest of `path` from `depth` on
    /// and returns it. Children that are left without any value are dropped.
    pub fn remove(&mut self, path: &Vec<String>, depth: usize) -> (removed: Option<Value>)
        requires
            old(self).wf(),
            depth <= path.len(),
        ensures
            final(self).wf(),
            value_of(removed) == old(self).lookup(path_view(path@).skip(depth as int)),
            forall|k: Seq<Seq<char>>|
                #[trigger] final(self).lookup(k) == if k == path_view(path@).skip(depth as int) {
                    None
                } else {
                    old(self).lookup(k)
                },
        decreases path.len() - depth,
    {
        let ghost rest = path_view(path@).skip(depth as int);
        let ghost before = *self;
        if depth == path.len() {
            let removed = self.value.take();
            proof {
                assert(rest =~= Seq::<Seq<char>>::empty());
                assert forall|k: Seq<Seq<char>>| #[trigger]
                    self.lookup(k) == if k == rest {
                        None
                    } else {
                        before.lookup(k)
                    } by {
                    if k.len() == 0 {
                        assert(k =~= rest);
                    }
                }
            }
            removed
        } else {
            let ghost segment = path[depth as int]@;
            let ghost below = path_view(path@).skip(depth + 1);
            proof {
                assert(rest[0] == segment);
                assert(rest.drop_first() =~= below);
            }
            let (pos, found) = self.locate(path[depth].as_str());
            if found {
                let removed = self.children[pos].node.remove(path, depth + 1);
                let ghost changed = *self;
                proof {
                    assert(changed.segments() =~= before.segments());
                    assert forall|k: Seq<Seq<char>>| #[trigger]
                        changed.lookup(k) == if k == rest {
                            None
                        } else {
                            before.lookup(k)
                        } by {
                        if k.len() > 0 {
                            match index_of(before.segments(), k[0]) {
                                Some(i) => {
                                    if i == pos {
                                        assert(before.segments()[pos as int] == k[0]);
                                        let below_k = k.drop_first();
                                        assert(changed.children[pos as int].node.lookup(below_k)
                                            == (if below_k == below {
                                            None
                                        } else {
                                            before.children[pos as int].node.lookup(below_k)
                                        }));
                                        if below_k == below {
                                            lemma_same_path(k, rest);
                                        }
                                    } else {
                                        assert(changed.children[i] == before.children[i]);
                                        lemma_index_of(before.segments(), pos as int);
                                    }
                                },
                                None => {},
                            }
                        }
                    }
                }
                if !self.children[pos].node.is_live() {
                    self.children.remove(pos);
                    proof {
                        let segments = changed.segments();
                        assert(self.segments() =~= segments.remove(pos as int));
                        lemma_index_of_remove(segments, pos as int, segment);
                        assert forall|i: int| 0 <= i < self.children.len() implies (
                        #[trigger] self.children[i]).node.live()
                            && self.children[i].node.wf() by {
                            if i < pos {
                                assert(self.children[i] == before.children[i]);
                            } else {
                                assert(self.children[i] == before.children[i + 1]);
                            }
                        }
                        assert forall|k: Seq<Seq<char>>| #[trigger]
                            self.lookup(k) == changed.lookup(k) by {
                            if k.len() > 0 {
                                lemma_index_of_remove(segments, pos as int, k[0]);
                                if k[0] == segments[pos as int] {
                                    lemma_index_of(segments, pos as int);
                                    lemma_dead_lookup(
                                        changed.children[pos as int].node,
                                        k.drop_first(),
                                    );
                                } else {
                                    match index_of(segments, k[0]) {
                                        Some(i) => {
                                            let j = if i < pos { i } else { i - 1 };
                                            assert(self.children[j] == changed.children[i]);
                                        },
                                        None => {},
                                    }
                                }
                            }
                        }
                    }
                } else {
                    proof {
                        assert forall|i: int| 0 <= i < self.children.len() implies (
                        #[trigger] self.children[i]).node.live()
                            && self.children[i].node.wf() by {
                            if i != pos {
                                assert(self.children[i] == before.children[i]);
                            }
                        }
                    }
                }
                removed
            } else {
                proof {
                    assert forall|k: Seq<Seq<char>>| #[trigger]
                        self.lookup(k) == if k == rest {
                            None
                        } else {
                            before.lookup(k)
                        } by {}
                }
                None
            }
        }
    }

    /// The value that is stored under `path`.
    pub fn find(&self, path: &Vec<String>) -> (value: Option<&Value>)
        requires
            self.wf(),
        ensures
            match value {
                Some(v) => self.lookup(path_view(path@)) == Some(v@),
                None => self.lookup(path_view(path@)) is None,
            },
    {
        let mut node = self;
        let mut depth: usize = 0;
        assert(path_view(path@).skip(0) =~= path_view(path@));
        while depth < path.len()
            invariant
                depth <= path.len(),
                node.wf(),
                self.lookup(path_view(path@)) == node.lookup(path_view(path@).skip(depth as int)),
            decreases path.len() - depth,
        {
            proof {
                let rest = path_view(path@).skip(depth as int);
                assert(rest[0] == path[depth as int]@);
                assert(rest.drop_first() =~= path_view(path@).skip(depth + 1));
            }
            let (pos, found) = node.locate(path[depth].as_str());
            if !found {
                return None;
            }
            node = &node.children[pos].node;
            depth += 1;
        }
        assert(path_view(path@).skip(depth as int).len() == 0);
        node.value.as_ref()
    }
}

} // verus!
