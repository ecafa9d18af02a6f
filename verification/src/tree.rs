//! The topic tree and history engine: an arena of topic nodes
//! addressed by stable integer identifiers, holding per-topic message
//! history, plus a full-topic-string index for direct lookup.
//!
//! Children of every node are unique by leaf name and kept strictly
//! sorted by leaf name; the index and the tree are kept consistent on
//! every insertion.

use crate::items::{Meta, TreeItemData};
use crate::payload::{HistoryEntry, Payload};
use crate::text::{
    has_char, join_char, lemma_join_push, lemma_join_split, lemma_lex_trans, lemma_lex_trichotomy,
    lemma_split_join, lemma_split_props, lemma_strictly_sorted_same_members, lex_lt, opt_views,
    query_keeps, split_char, split_topic, views,
};
use vstd::prelude::*;
use vstd::string::StrSliceExecFns;

verus! {

broadcast use vstd::string::group_string_axioms;

/// The segment paths of a topic and of all its ancestors: every
/// non-empty prefix of the topic's segment sequence.
pub open spec fn prefix_paths(segs: Seq<Seq<char>>) -> Set<Seq<Seq<char>>> {
    Set::new(|p: Seq<Seq<char>>| exists|k: int| 1 <= k <= segs.len() && p == #[trigger] segs.take(k))
}

/// One segment of a slash-delimited topic name, with the history of
/// the messages published exactly to it.
pub struct Topic {
    /// Topic `foo/bar` would have the leaf `bar`.
    pub leaf: String,
    /// Chronological, append-only message history.
    pub history: Vec<HistoryEntry>,
}

impl Topic {
    /// A fresh topic node with the given leaf and no history.
    pub fn new(leaf: String) -> (t: Topic)
        ensures
            t.leaf == leaf,
            t.history@ == Seq::<HistoryEntry>::empty(),
    {
        Topic { leaf, history: Vec::new() }
    }
}

/// One arena slot: the topic it holds, its parent, and its children
/// in strictly ascending leaf order.
struct Node {
    value: Topic,
    parent: usize,
    children: Vec<usize>,
}

/// The topic tree: an arena of nodes (slot 0 is the root, which has an
/// empty leaf and is never published to) and the topic-string index.
pub struct MqttHistory {
    nodes: Vec<Node>,
    ids: Vec<(String, usize)>,
}

impl MqttHistory {
    /// Number of arena slots, the root included.
    pub closed spec fn node_count(self) -> int {
        self.nodes@.len() as int
    }

    /// Identifiers of real (non-root) nodes.
    pub closed spec fn valid_id(self, i: int) -> bool {
        0 < i < self.node_count()
    }

    /// The leaf name of node `i`.
    pub closed spec fn leaf_of(self, i: int) -> Seq<char> {
        self.nodes@[i].value.leaf@
    }

    /// The message history of node `i`.
    pub closed spec fn history_of_node(self, i: int) -> Seq<HistoryEntry> {
        self.nodes@[i].value.history@
    }

    /// The parent identifier of node `i`.
    pub closed spec fn parent_of(self, i: int) -> int {
        self.nodes@[i].parent as int
    }

    /// The child identifiers of node `i`, in leaf order.
    spec fn kids(self, i: int) -> Seq<usize> {
        self.nodes@[i].children@
    }

    /// The full topic name of node `i`: the leaves from the root
    /// (excluded) down to `i`, joined by the separator.
    pub closed spec fn topic_of(self, i: int) -> Seq<char>
        decreases i,
    {
        if i <= 0 || i >= self.node_count() {
            Seq::empty()
        } else if self.parent_of(i) <= 0 || self.parent_of(i) >= i {
            self.leaf_of(i)
        } else {
            self.topic_of(self.parent_of(i)) + seq!['/'] + self.leaf_of(i)
        }
    }

    /// The segments of the full topic name of node `i`, from the root
    /// (excluded) down to `i`.
    pub closed spec fn path_of(self, i: int) -> Seq<Seq<char>>
        decreases i,
    {
        if i <= 0 || i >= self.node_count() {
            Seq::empty()
        } else if self.parent_of(i) <= 0 || self.parent_of(i) >= i {
            seq![self.leaf_of(i)]
        } else {
            self.path_of(self.parent_of(i)).push(self.leaf_of(i))
        }
    }

    spec fn wf_root(self) -> bool {
        &&& self.node_count() >= 1
        &&& self.leaf_of(0) == Seq::<char>::empty()
        &&& self.history_of_node(0).len() == 0
        &&& self.parent_of(0) == 0
    }

    spec fn wf_parents(self) -> bool {
        forall|i: int| 1 <= i < self.node_count() ==> 0 <= #[trigger] self.parent_of(i) < i
    }

    spec fn wf_leaves(self) -> bool {
        forall|i: int|
            0 <= i < self.node_count() ==> !has_char(#[trigger] self.leaf_of(i), '/')
    }

    spec fn wf_children(self) -> bool {
        &&& forall|i: int, j: int|
            0 <= i < self.node_count() && 0 <= j < self.kids(i).len() ==> i < #[trigger] self.kids(
                i,
            )[j] < self.node_count()
        &&& forall|i: int, j: int|
            0 <= i < self.node_count() && 0 <= j < self.kids(i).len() ==> self.parent_of(
                #[trigger] self.kids(i)[j] as int,
            ) == i
        &&& forall|i: int, j1: int, j2: int|
            0 <= i < self.node_count() && 0 <= j1 < j2 < self.kids(i).len() ==> lex_lt(
                self.leaf_of(#[trigger] self.kids(i)[j1] as int),
                self.leaf_of(#[trigger] self.kids(i)[j2] as int),
            )
        &&& forall|i: int|
            1 <= i < self.node_count() ==> self.kids(#[trigger] self.parent_of(i)).contains(
                i as usize,
            )
    }

    /// Node `i` stands in the index.
    pub closed spec fn indexed(self, i: int) -> bool {
        exists|k: int| 0 <= k < self.ids@.len() && (#[trigger] self.ids@[k]).1 as int == i
    }

    spec fn wf_index(self) -> bool {
        &&& forall|k: int|
            0 <= k < self.ids@.len() ==> self.valid_id((#[trigger] self.ids@[k]).1 as int)
        &&& forall|k: int|
            0 <= k < self.ids@.len() ==> self.topic_of((#[trigger] self.ids@[k]).1 as int)
                == self.ids@[k].0@
        &&& forall|k1: int, k2: int|
            0 <= k1 < k2 < self.ids@.len() ==> (#[trigger] self.ids@[k1]).0@ != (
            #[trigger] self.ids@[k2]).0@
    }

    spec fn wf_history_indexed(self) -> bool {
        forall|i: int|
            1 <= i < self.node_count() && (#[trigger] self.history_of_node(i)).len() > 0
                ==> self.indexed(i)
    }

    /// The tree's well-formedness: sorted unique children, acyclic
    /// parent links, separator-free leaves, and an index that is
    /// consistent with the structure.
    pub closed spec fn wf(self) -> bool {
        &&& self.wf_root()
        &&& self.wf_parents()
        &&& self.wf_leaves()
        &&& self.wf_children()
        &&& self.wf_index()
        &&& self.wf_history_indexed()
    }

    /// Index scan, from entry `k` on.
    spec fn index_lookup_from(self, t: Seq<char>, k: int) -> Option<int>
        decreases self.ids@.len() - k,
    {
        if k < 0 || k >= self.ids@.len() {
            None
        } else if self.ids@[k].0@ == t {
            Some(self.ids@[k].1 as int)
        } else {
            self.index_lookup_from(t, k + 1)
        }
    }

    /// The node identifier the index holds for a full topic name.
    pub closed spec fn index_lookup(self, t: Seq<char>) -> Option<int> {
        self.index_lookup_from(t, 0)
    }

    /// Whether this exact topic was ever inserted. The index is the
    /// authority for this question.
    pub open spec fn has_topic(self, t: Seq<char>) -> bool {
        self.index_lookup(t) is Some
    }

    /// The message history recorded for a full topic name; empty when
    /// the topic was never inserted.
    pub open spec fn history_at(self, t: Seq<char>) -> Seq<HistoryEntry> {
        match self.index_lookup(t) {
            Some(id) => self.history_of_node(id),
            None => Seq::empty(),
        }
    }

    /// All topics ever inserted.
    pub open spec fn topics(self) -> Set<Seq<char>> {
        Set::new(|t: Seq<char>| self.has_topic(t))
    }

    /// The set of segment paths of all nodes in the tree.
    pub closed spec fn paths(self) -> Set<Seq<Seq<char>>> {
        Set::new(|p: Seq<Seq<char>>| exists|i: int| self.valid_id(i) && #[trigger] self.path_of(i) == p)
    }

    /// What the index promises: a hit names a real node whose
    /// reconstructed full topic is exactly the key.
    proof fn lemma_index_lookup_from(self, t: Seq<char>, k: int)
        requires
            self.wf(),
            0 <= k,
        ensures
            match self.index_lookup_from(t, k) {
                Some(id) => self.valid_id(id) && self.topic_of(id) == t && self.indexed(id),
                None => forall|kk: int|
                    k <= kk < self.ids@.len() ==> (#[trigger] self.ids@[kk]).0@ != t,
            },
        decreases self.ids@.len() - k,
    {
        if k < self.ids@.len() {
            if self.ids@[k].0@ == t {
            } else {
                self.lemma_index_lookup_from(t, k + 1);
            }
        }
    }

    /// The index scan reads the index alone.
    proof fn lemma_lookup_same_ids(t1: MqttHistory, t2: MqttHistory, t: Seq<char>, k: int)
        requires
            t1.ids@ == t2.ids@,
        ensures
            t1.index_lookup_from(t, k) == t2.index_lookup_from(t, k),
        decreases t1.ids@.len() - k,
    {
        if 0 <= k < t1.ids@.len() {
            Self::lemma_lookup_same_ids(t1, t2, t, k + 1);
        }
    }

    /// How the index scan answers after one entry is appended.
    proof fn lemma_lookup_after_push(t1: MqttHistory, t2: MqttHistory, t: Seq<char>, k: int)
        requires
            t2.ids@.len() == t1.ids@.len() + 1,
            forall|j: int| 0 <= j < t1.ids@.len() ==> #[trigger] t2.ids@[j] == t1.ids@[j],
            0 <= k <= t1.ids@.len(),
        ensures
            t != t2.ids@[t1.ids@.len() as int].0@ ==> t2.index_lookup_from(t, k)
                == t1.index_lookup_from(t, k),
            t1.index_lookup_from(t, k) is Some ==> t2.index_lookup_from(t, k)
                == t1.index_lookup_from(t, k),
            t == t2.ids@[t1.ids@.len() as int].0@ && t1.index_lookup_from(t, k) is None
                ==> t2.index_lookup_from(t, k) == Some(t2.ids@[t1.ids@.len() as int].1 as int),
        decreases t1.ids@.len() - k,
    {
        let last = t1.ids@.len() as int;
        if k < t1.ids@.len() {
            Self::lemma_lookup_after_push(t1, t2, t, k + 1);
        } else {
            assert(t1.index_lookup_from(t, k) is None);
            if t2.ids@[last].0@ == t {
                assert(t2.index_lookup_from(t, k) == Some(t2.ids@[last].1 as int));
            } else {
                assert(t2.index_lookup_from(t, k + 1) is None);
            }
        }
    }

    /// Reconstructed paths of existing nodes do not change when nodes
    /// are only appended and existing parents and leaves are kept.
    proof fn lemma_path_frame(t1: MqttHistory, t2: MqttHistory, i: int)
        requires
            t1.node_count() <= t2.node_count(),
            forall|j: int| 0 < j < t1.node_count() ==> #[trigger] t2.parent_of(j) == t1.parent_of(
                j,
            ),
            forall|j: int| 0 < j < t1.node_count() ==> #[trigger] t2.leaf_of(j) == t1.leaf_of(j),
            forall|j: int| 1 <= j < t1.node_count() ==> 0 <= #[trigger] t1.parent_of(j) < j,
            0 < i < t1.node_count(),
        ensures
            t2.path_of(i) == t1.path_of(i),
            t2.topic_of(i) == t1.topic_of(i),
        decreases i,
    {
        if t1.parent_of(i) > 0 {
            Self::lemma_path_frame(t1, t2, t1.parent_of(i));
        }
    }

    /// A node's topic is its segment path joined with the separator;
    /// that path is non-empty and free of separators.
    pub proof fn lemma_topic_is_join(self, i: int)
        requires
            self.wf(),
            self.valid_id(i),
        ensures
            self.topic_of(i) == join_char(self.path_of(i), '/'),
            self.path_of(i).len() >= 1,
            forall|k: int|
                0 <= k < self.path_of(i).len() ==> !has_char(#[trigger] self.path_of(i)[k], '/'),
        decreases i,
    {
        if self.parent_of(i) <= 0 {
            assert(self.path_of(i) =~= seq![self.leaf_of(i)]);
        } else {
            let p = self.parent_of(i);
            self.lemma_topic_is_join(p);
            lemma_join_push(self.path_of(p), self.leaf_of(i), '/');
            assert forall|k: int| 0 <= k < self.path_of(i).len() implies !has_char(
                #[trigger] self.path_of(i)[k],
                '/',
            ) by {
                if k < self.path_of(p).len() {
                    assert(self.path_of(i)[k] == self.path_of(p)[k]);
                } else {
                    assert(self.path_of(i)[k] == self.leaf_of(i));
                }
            }
        }
    }

    /// Every non-empty prefix of an existing node's path is itself the
    /// path of an existing node: one of its ancestors.
    proof fn lemma_ancestor_paths(self, i: int)
        requires
            self.wf(),
            0 < i < self.node_count(),
        ensures
            forall|k: int|
                1 <= k <= self.path_of(i).len() ==> self.paths().contains(
                    #[trigger] self.path_of(i).take(k),
                ),
        decreases i,
    {
        let pa = self.path_of(i);
        if self.parent_of(i) <= 0 {
            assert forall|k: int| 1 <= k <= pa.len() implies self.paths().contains(
                #[trigger] pa.take(k),
            ) by {
                assert(pa =~= seq![self.leaf_of(i)]);
                assert(pa.take(k) =~= pa);
                assert(self.valid_id(i) && self.path_of(i) == pa.take(k));
            }
        } else {
            let p = self.parent_of(i);
            self.lemma_ancestor_paths(p);
            assert forall|k: int| 1 <= k <= pa.len() implies self.paths().contains(
                #[trigger] pa.take(k),
            ) by {
                if k <= self.path_of(p).len() {
                    assert(pa.take(k) =~= self.path_of(p).take(k));
                } else {
                    assert(pa.take(k) =~= pa);
                    assert(self.valid_id(i) && self.path_of(i) == pa.take(k));
                }
            }
        }
    }

    /// Public form of the index guarantee.
    pub proof fn lemma_index_valid(self, t: Seq<char>)
        requires
            self.wf(),
        ensures
            match self.index_lookup(t) {
                Some(id) => self.valid_id(id) && self.topic_of(id) == t,
                None => true,
            },
    {
        self.lemma_index_lookup_from(t, 0);
    }

    /// A fresh tree: only the root, nothing indexed.
    pub fn new() -> (r: MqttHistory)
        ensures
            r.wf(),
            forall|t: Seq<char>| !(#[trigger] r.has_topic(t)),
            forall|t: Seq<char>| #[trigger] r.history_at(t) == Seq::<HistoryEntry>::empty(),
            r.paths() == Set::<Seq<Seq<char>>>::empty(),
    {
        let root = Node { value: Topic::new(String::new()), parent: 0, children: Vec::new() };
        let mut nodes: Vec<Node> = Vec::new();
        nodes.push(root);
        let r = MqttHistory { nodes, ids: Vec::new() };
        proof {
            assert(r.node_count() == 1);
            assert(r.wf());
            assert(r.paths() =~= Set::<Seq<Seq<char>>>::empty());
        }
        r
    }

    /// The index entry for a topic name, scanned in insertion order.
    fn lookup_id(&self, topic: &str) -> (r: Option<usize>)
        ensures
            match r {
                Some(id) => self.index_lookup(topic@) == Some(id as int),
                None => self.index_lookup(topic@) is None,
            },
    {
        let n = self.ids.len();
        let mut k: usize = 0;
        while k < n
            invariant
                k <= n,
                n == self.ids@.len(),
                self.index_lookup(topic@) == self.index_lookup_from(topic@, k as int),
            decreases n - k,
        {
            if crate::text::str_eq(self.ids[k].0.as_str(), topic) {
                return Some(self.ids[k].1);
            }
            k += 1;
        }
        None
    }

    /// Direct read access to the history of an exact topic; absent
    /// exactly when the topic was never inserted.
    pub fn get(&self, topic: &str) -> (r: Option<&Vec<HistoryEntry>>)
        requires
            self.wf(),
        ensures
            r is Some <==> self.has_topic(topic@),
            r matches Some(h) ==> h@ == self.history_at(topic@),
    {
        proof {
            self.lemma_index_valid(topic@);
        }
        match self.lookup_id(topic) {
            Some(id) => Some(&self.nodes[id].value.history),
            None => None,
        }
    }

    /// The most recent entry of an exact topic, when there is one.
    pub fn get_last(&self, topic: &str) -> (r: Option<&HistoryEntry>)
        requires
            self.wf(),
        ensures
            r is Some <==> self.has_topic(topic@) && self.history_at(topic@).len() > 0,
            r matches Some(e) ==> *e == self.history_at(topic@).last(),
    {
        proof {
            self.lemma_index_valid(topic@);
        }
        match self.lookup_id(topic) {
            Some(id) => {
                let h = &self.nodes[id].value.history;
                if h.len() > 0 {
                    Some(&h[h.len() - 1])
                } else {
                    None
                }
            },
            None => None,
        }
    }

    /// The sorted insertion point for `seg` among the children of
    /// `cur`: the first position whose leaf is not lexicographically
    /// smaller than `seg`.
    fn find_insert_pos(&self, cur: usize, seg: &String) -> (j: usize)
        requires
            self.wf(),
            (cur as int) < self.node_count(),
        ensures
            j <= self.kids(cur as int).len(),
            forall|jj: int|
                0 <= jj < j ==> lex_lt(
                    self.leaf_of(#[trigger] self.kids(cur as int)[jj] as int),
                    seg@,
                ),
            (j as int) < self.kids(cur as int).len() ==> !lex_lt(
                self.leaf_of(self.kids(cur as int)[j as int] as int),
                seg@,
            ),
    {
        let clen = self.nodes[cur].children.len();
        let mut j: usize = 0;
        while j < clen
            invariant
                self.wf(),
                (cur as int) < self.node_count(),
                j <= clen,
                clen == self.kids(cur as int).len(),
                forall|jj: int|
                    0 <= jj < j ==> lex_lt(
                        self.leaf_of(#[trigger] self.kids(cur as int)[jj] as int),
                        seg@,
                    ),
            decreases clen - j,
        {
            let c = self.nodes[cur].children[j];
            proof {
                assert(self.kids(cur as int)[j as int] == c);
            }
            if !crate::text::str_lt(self.nodes[c].value.leaf.as_str(), seg.as_str()) {
                return j;
            }
            j += 1;
        }
        j
    }

    /// Paths and topics of nodes depend on the node arena alone.
    proof fn lemma_same_nodes_at(t1: MqttHistory, t2: MqttHistory, i: int)
        requires
            t1.nodes@ == t2.nodes@,
        ensures
            t2.path_of(i) == t1.path_of(i),
            t2.topic_of(i) == t1.topic_of(i),
        decreases (if i > 0 { i } else { 0 }),
    {
        if 0 < i && i < t1.node_count() {
            if !(t1.parent_of(i) <= 0 || t1.parent_of(i) >= i) {
                Self::lemma_same_nodes_at(t1, t2, t1.parent_of(i));
            }
        }
    }

    /// Two trees with the same node arena have the same paths.
    proof fn lemma_same_nodes(t1: MqttHistory, t2: MqttHistory)
        requires
            t1.nodes@ == t2.nodes@,
        ensures
            forall|i: int| #[trigger] t2.path_of(i) == t1.path_of(i),
            forall|i: int| #[trigger] t2.topic_of(i) == t1.topic_of(i),
            t2.paths() == t1.paths(),
    {
        assert forall|i: int| #[trigger] t2.path_of(i) == t1.path_of(i) by {
            Self::lemma_same_nodes_at(t1, t2, i);
        }
        assert forall|i: int| #[trigger] t2.topic_of(i) == t1.topic_of(i) by {
            Self::lemma_same_nodes_at(t1, t2, i);
        }
        assert forall|p: Seq<Seq<char>>|
            t2.paths().contains(p) == t1.paths().contains(p) by {
            if t2.paths().contains(p) {
                let i = choose|i: int| t2.valid_id(i) && #[trigger] t2.path_of(i) == p;
                assert(t1.valid_id(i) && t1.path_of(i) == p);
            }
            if t1.paths().contains(p) {
                let i = choose|i: int| t1.valid_id(i) && #[trigger] t1.path_of(i) == p;
                assert(t2.valid_id(i) && t2.path_of(i) == p);
            }
        }
        assert(t2.paths() =~= t1.paths());
    }

    /// Inserting one fresh leaf node at its sorted place among the
    /// children of `cur` keeps the tree well-formed, leaves every old
    /// node's path alone, and adds exactly one path.
    proof fn lemma_insert_child(
        pre: MqttHistory,
        post: MqttHistory,
        cur: usize,
        nid: usize,
        j: usize,
        seg: Seq<char>,
    )
        requires
            pre.wf(),
            (cur as int) < pre.node_count(),
            nid as int == pre.node_count(),
            post.node_count() == pre.node_count() + 1,
            post.nodes@[nid as int].value.leaf@ == seg,
            post.nodes@[nid as int].parent == cur,
            post.nodes@[nid as int].children@ == Seq::<usize>::empty(),
            post.nodes@[nid as int].value.history@.len() == 0,
            post.nodes@[cur as int].value == pre.nodes@[cur as int].value,
            post.nodes@[cur as int].parent == pre.nodes@[cur as int].parent,
            post.kids(cur as int) == pre.kids(cur as int).insert(j as int, nid),
            forall|i: int|
                0 <= i < pre.node_count() && i != cur as int ==> post.nodes@[i] == pre.nodes@[i],
            post.ids@ == pre.ids@,
            j <= pre.kids(cur as int).len(),
            forall|jj: int|
                0 <= jj < j ==> lex_lt(
                    pre.leaf_of(#[trigger] pre.kids(cur as int)[jj] as int),
                    seg,
                ),
            (j as int) < pre.kids(cur as int).len() ==> !lex_lt(
                pre.leaf_of(pre.kids(cur as int)[j as int] as int),
                seg,
            ) && pre.leaf_of(pre.kids(cur as int)[j as int] as int) != seg,
            !has_char(seg, '/'),
        ensures
            post.wf(),
            forall|i: int|
                0 < i < pre.node_count() ==> #[trigger] post.parent_of(i) == pre.parent_of(i),
            forall|i: int|
                0 < i < pre.node_count() ==> #[trigger] post.leaf_of(i) == pre.leaf_of(i),
            forall|i: int|
                0 < i < pre.node_count() ==> #[trigger] post.history_of_node(i)
                    == pre.history_of_node(i),
            forall|i: int|
                0 < i < pre.node_count() ==> #[trigger] post.path_of(i) == pre.path_of(i),
            post.history_of_node(nid as int).len() == 0,
            post.path_of(nid as int) == (if cur == 0 {
                seq![seg]
            } else {
                pre.path_of(cur as int).push(seg)
            }),
            post.paths() == pre.paths().insert(post.path_of(nid as int)),
    {
        let ci = cur as int;
        let ni = nid as int;
        let oldkids = pre.kids(ci);
        let newkids = post.kids(ci);
        oldkids.insert_ensures(j as int, nid);
        assert(newkids.len() == oldkids.len() + 1);
        assert(newkids[j as int] == nid);

        assert forall|i: int| 0 < i < pre.node_count() implies #[trigger] post.parent_of(i)
            == pre.parent_of(i) by {
            if i != ci {
                assert(post.nodes@[i] == pre.nodes@[i]);
            }
        }
        assert forall|i: int| 0 < i < pre.node_count() implies #[trigger] post.leaf_of(i)
            == pre.leaf_of(i) by {
            if i != ci {
                assert(post.nodes@[i] == pre.nodes@[i]);
            }
        }
        assert forall|i: int| 0 < i < pre.node_count() implies #[trigger] post.history_of_node(i)
            == pre.history_of_node(i) by {
            if i != ci {
                assert(post.nodes@[i] == pre.nodes@[i]);
            }
        }
        assert forall|i: int| 0 < i < pre.node_count() implies #[trigger] post.path_of(i)
            == pre.path_of(i) by {
            Self::lemma_path_frame(pre, post, i);
        }

        // the fresh node's own path
        if cur == 0 {
            assert(post.path_of(ni) =~= seq![seg]);
        } else {
            assert(post.parent_of(ni) == ci);
            assert(post.path_of(ni) == post.path_of(ci).push(seg));
            assert(post.path_of(ci) == pre.path_of(ci));
        }

        // well-formedness, clause by clause
        assert(post.leaf_of(0) == pre.leaf_of(0));
        assert(post.history_of_node(0) == pre.history_of_node(0));
        assert(post.parent_of(0) == pre.parent_of(0));
        assert(post.wf_root());
        assert forall|i: int| 1 <= i < post.node_count() implies 0 <= #[trigger] post.parent_of(i)
            < i by {
            if i < pre.node_count() {
                assert(post.parent_of(i) == pre.parent_of(i));
            }
        }
        assert(post.wf_parents());
        assert forall|i: int| 0 <= i < post.node_count() implies !has_char(
            #[trigger] post.leaf_of(i),
            '/',
        ) by {
            if 0 < i && i < pre.node_count() {
                assert(post.leaf_of(i) == pre.leaf_of(i));
            }
            if i == 0 {
                assert(post.leaf_of(0) == pre.leaf_of(0));
            }
        }
        assert(post.wf_leaves());

        assert forall|i: int, jj: int|
            0 <= i < post.node_count() && 0 <= jj < post.kids(i).len() implies i
            < #[trigger] post.kids(i)[jj] < post.node_count() && post.parent_of(
            post.kids(i)[jj] as int,
        ) == i by {
            if i == ci {
                if jj < j {
                    assert(newkids[jj] == oldkids[jj]);
                } else if jj == j {
                    assert(newkids[jj] == nid);
                } else {
                    assert(newkids[jj] == oldkids[jj - 1]);
                }
                if newkids[jj] != nid {
                    assert(ci < newkids[jj] < pre.node_count());
                    assert(post.parent_of(newkids[jj] as int) == pre.parent_of(
                        newkids[jj] as int,
                    ));
                }
            } else if i < pre.node_count() {
                assert(post.nodes@[i] == pre.nodes@[i]);
                assert(i < pre.kids(i)[jj] < pre.node_count());
                assert(pre.kids(i)[jj] != nid);
                assert(post.parent_of(pre.kids(i)[jj] as int) == pre.parent_of(
                    pre.kids(i)[jj] as int,
                ));
            } else {
                assert(post.kids(i).len() == 0);
            }
        }

        assert forall|i: int, j1: int, j2: int|
            0 <= i < post.node_count() && 0 <= j1 < j2 < post.kids(i).len() implies lex_lt(
            post.leaf_of(#[trigger] post.kids(i)[j1] as int),
            post.leaf_of(#[trigger] post.kids(i)[j2] as int),
        ) by {
            if i == ci {
                if (j as int) < oldkids.len() {
                    lemma_lex_trichotomy(pre.leaf_of(oldkids[j as int] as int), seg);
                    assert(lex_lt(seg, pre.leaf_of(oldkids[j as int] as int)));
                }
                let c1: usize = if j1 < j { oldkids[j1] } else if j1 == j { nid } else {
                    oldkids[j1 - 1]
                };
                let c2: usize = if j2 < j { oldkids[j2] } else if j2 == j { nid } else {
                    oldkids[j2 - 1]
                };
                assert(newkids[j1] == c1);
                assert(newkids[j2] == c2);
                assert(c1 != nid ==> post.leaf_of(c1 as int) == pre.leaf_of(c1 as int));
                assert(c2 != nid ==> post.leaf_of(c2 as int) == pre.leaf_of(c2 as int));
                assert(post.leaf_of(ni) == seg);
                if j2 < j {
                    assert(lex_lt(pre.leaf_of(oldkids[j1] as int), pre.leaf_of(oldkids[j2] as int)));
                } else if j2 == j {
                    assert(lex_lt(pre.leaf_of(oldkids[j1] as int), seg));
                } else if j1 < j {
                    assert(lex_lt(pre.leaf_of(oldkids[j1] as int), pre.leaf_of(oldkids[j2 - 1] as int)));
                } else if j1 == j {
                    if j2 - 1 == j {
                        assert(lex_lt(seg, pre.leaf_of(oldkids[j as int] as int)));
                    } else {
                        assert(lex_lt(
                            pre.leaf_of(oldkids[j as int] as int),
                            pre.leaf_of(oldkids[j2 - 1] as int),
                        ));
                        lemma_lex_trans(
                            seg,
                            pre.leaf_of(oldkids[j as int] as int),
                            pre.leaf_of(oldkids[j2 - 1] as int),
                        );
                    }
                } else {
                    assert(lex_lt(
                        pre.leaf_of(oldkids[j1 - 1] as int),
                        pre.leaf_of(oldkids[j2 - 1] as int),
                    ));
                }
            } else if i < pre.node_count() {
                assert(post.nodes@[i] == pre.nodes@[i]);
                assert(lex_lt(
                    pre.leaf_of(pre.kids(i)[j1] as int),
                    pre.leaf_of(pre.kids(i)[j2] as int),
                ));
                assert(pre.kids(i)[j1] != nid && pre.kids(i)[j2] != nid);
                assert(post.leaf_of(pre.kids(i)[j1] as int) == pre.leaf_of(pre.kids(i)[j1] as int));
                assert(post.leaf_of(pre.kids(i)[j2] as int) == pre.leaf_of(pre.kids(i)[j2] as int));
            }
        }

        assert forall|i: int| 1 <= i < post.node_count() implies post.kids(
            #[trigger] post.parent_of(i),
        ).contains(i as usize) by {
            if i == ni {
                assert(newkids[j as int] == nid);
                assert(newkids.contains(nid));
            } else {
                let p = pre.parent_of(i);
                assert(pre.kids(p).contains(i as usize));
                assert(post.parent_of(i) == p);
                if p == ci {
                    let x = choose|x: int| 0 <= x < oldkids.len() && oldkids[x] == i as usize;
                    if x < j {
                        assert(newkids[x] == i as usize);
                    } else {
                        assert(newkids[x + 1] == i as usize);
                    }
                    assert(newkids.contains(i as usize));
                } else {
                    assert(post.nodes@[p] == pre.nodes@[p]);
                    assert(post.kids(p) == pre.kids(p));
                }
            }
        }
        assert(post.wf_children());

        assert forall|kk: int| 0 <= kk < post.ids@.len() implies post.valid_id(
            (#[trigger] post.ids@[kk]).1 as int,
        ) && post.topic_of(post.ids@[kk].1 as int) == post.ids@[kk].0@ by {
            let idd = pre.ids@[kk].1 as int;
            assert(pre.valid_id(idd));
            assert(pre.topic_of(idd) == pre.ids@[kk].0@);
            Self::lemma_path_frame(pre, post, idd);
        }
        assert(post.wf_index());

        assert forall|i: int|
            1 <= i < post.node_count() && (#[trigger] post.history_of_node(i)).len()
                > 0 implies post.indexed(i) by {
            assert(i != ni);
            assert(post.history_of_node(i) == pre.history_of_node(i));
            assert(pre.indexed(i));
            let kk = choose|kk: int|
                0 <= kk < pre.ids@.len() && (#[trigger] pre.ids@[kk]).1 as int == i;
            assert(post.ids@[kk].1 as int == i);
        }
        assert(post.wf());

        // the path set grows by exactly the fresh node's path
        assert forall|p: Seq<Seq<char>>| post.paths().contains(p) implies pre.paths().contains(p)
            || p == post.path_of(ni) by {
            let i = choose|i: int| post.valid_id(i) && #[trigger] post.path_of(i) == p;
            if i < pre.node_count() {
                assert(pre.path_of(i) == p);
            } else {
                assert(i == ni);
            }
        }
        assert forall|p: Seq<Seq<char>>| pre.paths().contains(p) implies post.paths().contains(
            p,
        ) by {
            let i = choose|i: int| pre.valid_id(i) && #[trigger] pre.path_of(i) == p;
            assert(post.path_of(i) == p);
        }
        assert(post.paths().contains(post.path_of(ni))) by {
            assert(post.valid_id(ni) && post.path_of(ni) == post.path_of(ni));
        }
        assert(post.paths() =~= pre.paths().insert(post.path_of(ni)));
    }

    /// The node for a full topic name, creating the path lazily: each
    /// missing segment becomes a node at its sorted place among the
    /// children, and the full topic is recorded in the index. Never
    /// fails, also for zero-length segments and unseen topics.
    fn entry(&mut self, topic: &str) -> (id: usize)
        requires
            old(self).wf(),
        ensures
            final(self).wf(),
            final(self).valid_id(id as int),
            final(self).index_lookup(topic@) == Some(id as int),
            final(self).topic_of(id as int) == topic@,
            forall|t: Seq<char>|
                #[trigger] final(self).has_topic(t) <==> (old(self).has_topic(t) || t == topic@),
            forall|t: Seq<char>| #[trigger] final(self).history_at(t) == old(self).history_at(t),
            final(self).paths() == old(self).paths().union(prefix_paths(split_char(topic@, '/'))),
    {
        proof {
            self.lemma_index_lookup_from(topic@, 0);
        }
        let early = self.lookup_id(topic);
        if let Some(id) = early {
            proof {
                let i = id as int;
                self.lemma_topic_is_join(i);
                lemma_split_join(self.path_of(i), '/');
                assert(split_char(topic@, '/') == self.path_of(i));
                self.lemma_ancestor_paths(i);
                let pp = prefix_paths(split_char(topic@, '/'));
                assert forall|p: Seq<Seq<char>>| pp.contains(p) implies self.paths().contains(
                    p,
                ) by {
                    let k = choose|k: int|
                        1 <= k <= self.path_of(i).len() && p == #[trigger] self.path_of(i).take(k);
                    assert(self.paths().contains(self.path_of(i).take(k)));
                }
                assert(self.paths().union(pp) =~= self.paths());
            }
            return id;
        }
        let segs = split_topic(topic);
        let ghost gsegs = split_char(topic@, '/');
        proof {
            lemma_split_props(topic@, '/');
            assert(self.paths().union(
                Set::new(
                    |p: Seq<Seq<char>>|
                        exists|kk: int| 1 <= kk <= 0 && p == #[trigger] gsegs.take(kk),
                ),
            ) =~= self.paths());
        }
        let n = segs.len();
        let mut cur: usize = 0;
        let mut k: usize = 0;
        while k < n
            invariant
                self.wf(),
                old(self).wf(),
                n == segs@.len(),
                views(segs@) == gsegs,
                gsegs == split_char(topic@, '/'),
                forall|kk: int| 0 <= kk < gsegs.len() ==> !has_char(#[trigger] gsegs[kk], '/'),
                k <= n,
                (cur as int) < self.node_count(),
                k == 0 ==> cur == 0,
                k > 0 ==> self.valid_id(cur as int) && self.path_of(cur as int) == gsegs.take(
                    k as int,
                ),
                old(self).node_count() <= self.node_count(),
                self.ids@ == old(self).ids@,
                forall|j: int|
                    0 < j < old(self).node_count() ==> #[trigger] self.parent_of(j) == old(
                        self,
                    ).parent_of(j),
                forall|j: int|
                    0 < j < old(self).node_count() ==> #[trigger] self.leaf_of(j) == old(
                        self,
                    ).leaf_of(j),
                forall|j: int|
                    0 < j < old(self).node_count() ==> #[trigger] self.history_of_node(j) == old(
                        self,
                    ).history_of_node(j),
                forall|j: int|
                    old(self).node_count() <= j < self.node_count() ==> (
                    #[trigger] self.history_of_node(j)).len() == 0,
                self.paths() == old(self).paths().union(
                    Set::new(
                        |p: Seq<Seq<char>>|
                            exists|kk: int| 1 <= kk <= k && p == #[trigger] gsegs.take(kk),
                    ),
                ),
            decreases n - k,
        {
            let ghost prefix_k = Set::new(
                |p: Seq<Seq<char>>| exists|kk: int| 1 <= kk <= k && p == #[trigger] gsegs.take(kk),
            );
            let ghost prefix_k1 = Set::new(
                |p: Seq<Seq<char>>|
                    exists|kk: int| 1 <= kk <= k + 1 && p == #[trigger] gsegs.take(kk),
            );
            let ghost snap = *self;
            let j = self.find_insert_pos(cur, &segs[k]);
            let clen = self.nodes[cur].children.len();
            proof {
                assert(views(segs@)[k as int] == segs@[k as int]@);
            }
            let descend = j < clen && crate::text::str_eq(
                self.nodes[self.nodes[cur].children[j]].value.leaf.as_str(),
                segs[k].as_str(),
            );
            if descend {
                let c = self.nodes[cur].children[j];
                proof {
                    let ci = c as int;
                    assert(self.kids(cur as int)[j as int] == c);
                    assert(self.parent_of(ci) == cur as int);
                    assert(self.leaf_of(ci) == gsegs[k as int]);
                    if k == 0 {
                        assert(self.path_of(ci) =~= seq![self.leaf_of(ci)]);
                        assert(gsegs.take(1) =~= seq![gsegs[0]]);
                    } else {
                        assert(self.path_of(ci) == self.path_of(cur as int).push(self.leaf_of(ci)));
                        assert(gsegs.take(k + 1) =~= gsegs.take(k as int).push(gsegs[k as int]));
                    }
                    assert(self.path_of(ci) == gsegs.take(k + 1));
                    assert(self.paths().contains(gsegs.take(k + 1))) by {
                        assert(self.valid_id(ci) && self.path_of(ci) == gsegs.take(k + 1));
                    }
                    assert forall|p: Seq<Seq<char>>| prefix_k1.contains(p) implies prefix_k.contains(
                        p,
                    ) || p == gsegs.take(k + 1) by {
                        let kk = choose|kk: int| 1 <= kk <= k + 1 && p == #[trigger] gsegs.take(kk);
                        if kk <= k {
                            assert(prefix_k.contains(gsegs.take(kk)));
                        }
                    }
                    assert forall|p: Seq<Seq<char>>| prefix_k.contains(p) implies prefix_k1.contains(
                        p,
                    ) by {
                        let kk = choose|kk: int| 1 <= kk <= k && p == #[trigger] gsegs.take(kk);
                        assert(prefix_k1.contains(gsegs.take(kk)));
                    }
                    assert(prefix_k1.contains(gsegs.take(k + 1)));
                    assert(self.paths() =~= old(self).paths().union(prefix_k1));
                }
                cur = c;
            } else {
                let nid = self.nodes.len();
                let ghost pre = *self;
                let leafstr = segs[k].clone();
                self.nodes.push(
                    Node { value: Topic::new(leafstr), parent: cur, children: Vec::new() },
                );
                self.nodes[cur].children.insert(j, nid);
                proof {
                    let ci = cur as int;
                    let ni = nid as int;
                    let seg = gsegs[k as int];
                    assert(self.nodes@[ni].value.leaf@ == seg);
                    assert(self.nodes@[ni].parent == cur);
                    assert(self.nodes@[ni].children@ =~= Seq::<usize>::empty());
                    assert(self.nodes@[ni].value.history@.len() == 0);
                    assert(self.nodes@[ci].value == pre.nodes@[ci].value);
                    assert(self.nodes@[ci].parent == pre.nodes@[ci].parent);
                    assert(self.kids(ci) == pre.kids(ci).insert(j as int, nid));
                    assert(forall|i: int|
                        0 <= i < pre.node_count() && i != ci ==> self.nodes@[i] == pre.nodes@[i]);
                    if (j as int) < pre.kids(ci).len() {
                        assert(!lex_lt(pre.leaf_of(pre.kids(ci)[j as int] as int), seg));
                        assert(pre.leaf_of(pre.kids(ci)[j as int] as int) != seg);
                    }
                    Self::lemma_insert_child(pre, *self, cur, nid, j, seg);
                    if k == 0 {
                        assert(self.path_of(ni) == seq![seg]);
                        assert(gsegs.take(1) =~= seq![gsegs[0]]);
                    } else {
                        assert(self.path_of(ni) == pre.path_of(ci).push(seg));
                        assert(pre.path_of(ci) == gsegs.take(k as int));
                        assert(gsegs.take(k + 1) =~= gsegs.take(k as int).push(gsegs[k as int]));
                    }
                    assert(self.path_of(ni) == gsegs.take(k + 1));
                    assert(self.paths() == pre.paths().insert(gsegs.take(k + 1)));

                    // framing back to the state at the call
                    assert forall|jj: int| 0 < jj < old(self).node_count() implies
                        #[trigger] self.parent_of(jj) == old(self).parent_of(jj) by {
                        assert(self.parent_of(jj) == pre.parent_of(jj));
                    }
                    assert forall|jj: int| 0 < jj < old(self).node_count() implies
                        #[trigger] self.leaf_of(jj) == old(self).leaf_of(jj) by {
                        assert(self.leaf_of(jj) == pre.leaf_of(jj));
                    }
                    assert forall|jj: int| 0 < jj < old(self).node_count() implies
                        #[trigger] self.history_of_node(jj) == old(self).history_of_node(jj) by {
                        assert(self.history_of_node(jj) == pre.history_of_node(jj));
                    }
                    assert forall|jj: int|
                        old(self).node_count() <= jj < self.node_count() implies (
                        #[trigger] self.history_of_node(jj)).len() == 0 by {
                        if jj < pre.node_count() {
                            assert(self.history_of_node(jj) == pre.history_of_node(jj));
                        } else {
                            assert(jj == ni);
                        }
                    }

                    // the prefix set grows by the fresh path
                    assert forall|p: Seq<Seq<char>>| prefix_k1.contains(p) implies prefix_k.contains(
                        p,
                    ) || p == gsegs.take(k + 1) by {
                        let kk = choose|kk: int| 1 <= kk <= k + 1 && p == #[trigger] gsegs.take(kk);
                        if kk <= k {
                            assert(prefix_k.contains(gsegs.take(kk)));
                        }
                    }
                    assert forall|p: Seq<Seq<char>>| prefix_k.contains(p) implies prefix_k1.contains(
                        p,
                    ) by {
                        let kk = choose|kk: int| 1 <= kk <= k && p == #[trigger] gsegs.take(kk);
                        assert(prefix_k1.contains(gsegs.take(kk)));
                    }
                    assert(prefix_k1.contains(gsegs.take(k + 1)));
                    assert(self.paths() =~= old(self).paths().union(prefix_k1));
                }
                cur = nid;
            }
            k += 1;
        }
        proof {
            assert(gsegs.take(n as int) =~= gsegs);
        }
        let key = topic.to_owned();
        let ghost pre2 = *self;
        self.ids.push((key, cur));
        proof {
            let ci = cur as int;
            Self::lemma_same_nodes(pre2, *self);
            assert(self.path_of(ci) == gsegs);
            pre2.lemma_topic_is_join(ci);
            lemma_join_split(topic@, '/');
            assert(pre2.topic_of(ci) == join_char(gsegs, '/'));
            assert(self.topic_of(ci) == topic@);

            Self::lemma_lookup_same_ids(*old(self), pre2, topic@, 0);
            assert forall|kk: int| 0 <= kk < self.ids@.len() implies self.valid_id(
                (#[trigger] self.ids@[kk]).1 as int,
            ) && self.topic_of(self.ids@[kk].1 as int) == self.ids@[kk].0@ by {
                if kk < pre2.ids@.len() {
                    assert(self.ids@[kk] == pre2.ids@[kk]);
                    assert(pre2.valid_id(pre2.ids@[kk].1 as int));
                    assert(pre2.topic_of(pre2.ids@[kk].1 as int) == pre2.ids@[kk].0@);
                    assert(self.topic_of(self.ids@[kk].1 as int) == pre2.topic_of(
                        pre2.ids@[kk].1 as int,
                    ));
                } else {
                    assert(self.ids@[kk].1 == cur && self.ids@[kk].0@ == topic@);
                }
            }
            assert forall|k1: int, k2: int| 0 <= k1 < k2 < self.ids@.len() implies (
            #[trigger] self.ids@[k1]).0@ != (#[trigger] self.ids@[k2]).0@ by {
                if k2 < pre2.ids@.len() {
                } else {
                    assert(self.ids@[k2].0@ == topic@);
                    assert(self.ids@[k1] == pre2.ids@[k1]);
                    assert(pre2.ids@[k1].0@ != topic@);
                }
            }
            assert forall|i: int|
                1 <= i < self.node_count() && (#[trigger] self.history_of_node(i)).len()
                    > 0 implies self.indexed(i) by {
                assert(pre2.history_of_node(i) == self.history_of_node(i));
                assert(pre2.indexed(i));
                let kk = choose|kk: int|
                    0 <= kk < pre2.ids@.len() && (#[trigger] pre2.ids@[kk]).1 as int == i;
                assert(self.ids@[kk].1 as int == i);
            }
            assert(self.wf_root());
            assert forall|i: int| 1 <= i < self.node_count() implies 0 <= #[trigger] self.parent_of(
                i,
            ) < i by {
                assert(self.parent_of(i) == pre2.parent_of(i));
            }
            assert forall|i: int| 0 <= i < self.node_count() implies !has_char(
                #[trigger] self.leaf_of(i),
                '/',
            ) by {
                assert(self.leaf_of(i) == pre2.leaf_of(i));
            }
            assert forall|i: int, jj: int|
                0 <= i < self.node_count() && 0 <= jj < self.kids(i).len() implies i
                < #[trigger] self.kids(i)[jj] < self.node_count() && self.parent_of(
                self.kids(i)[jj] as int,
            ) == i by {
                assert(self.kids(i) == pre2.kids(i));
                assert(i < pre2.kids(i)[jj] < pre2.node_count());
            }
            assert forall|i: int, j1: int, j2: int|
                0 <= i < self.node_count() && 0 <= j1 < j2 < self.kids(i).len() implies lex_lt(
                self.leaf_of(#[trigger] self.kids(i)[j1] as int),
                self.leaf_of(#[trigger] self.kids(i)[j2] as int),
            ) by {
                assert(self.kids(i) == pre2.kids(i));
                assert(lex_lt(
                    pre2.leaf_of(pre2.kids(i)[j1] as int),
                    pre2.leaf_of(pre2.kids(i)[j2] as int),
                ));
                assert(self.leaf_of(pre2.kids(i)[j1] as int) == pre2.leaf_of(
                    pre2.kids(i)[j1] as int,
                ));
                assert(self.leaf_of(pre2.kids(i)[j2] as int) == pre2.leaf_of(
                    pre2.kids(i)[j2] as int,
                ));
            }
            assert forall|i: int| 1 <= i < self.node_count() implies self.kids(
                #[trigger] self.parent_of(i),
            ).contains(i as usize) by {
                assert(pre2.kids(pre2.parent_of(i)).contains(i as usize));
                assert(self.parent_of(i) == pre2.parent_of(i));
                assert(self.kids(pre2.parent_of(i)) == pre2.kids(pre2.parent_of(i)));
            }
            assert(self.wf());

            assert forall|t: Seq<char>| #[trigger] self.has_topic(t) <==> (old(self).has_topic(t)
                || t == topic@) by {
                Self::lemma_lookup_after_push(pre2, *self, t, 0);
                Self::lemma_lookup_same_ids(*old(self), pre2, t, 0);
            }
            assert(self.index_lookup(topic@) == Some(ci)) by {
                Self::lemma_lookup_after_push(pre2, *self, topic@, 0);
            }

            assert forall|t: Seq<char>| #[trigger] self.history_at(t) == old(self).history_at(
                t,
            ) by {
                Self::lemma_lookup_after_push(pre2, *self, t, 0);
                Self::lemma_lookup_same_ids(*old(self), pre2, t, 0);
                old(self).lemma_index_lookup_from(t, 0);
                if t == topic@ {
                    assert(old(self).index_lookup(t) is None);
                    assert(self.index_lookup(t) == Some(ci));
                    if self.history_of_node(ci).len() > 0 {
                        assert(pre2.history_of_node(ci) == self.history_of_node(ci));
                        if ci >= old(self).node_count() {
                            assert(pre2.history_of_node(ci).len() == 0);
                        }
                        assert(ci < old(self).node_count());
                        assert(old(self).history_of_node(ci).len() > 0);
                        assert(old(self).indexed(ci));
                        let kk = choose|kk: int|
                            0 <= kk < old(self).ids@.len() && (#[trigger] old(self).ids@[kk]).1
                                as int == ci;
                        assert(old(self).topic_of(ci) == old(self).ids@[kk].0@);
                        Self::lemma_path_frame(*old(self), pre2, ci);
                        assert(old(self).topic_of(ci) == topic@);
                        assert(old(self).ids@[kk].0@ != topic@);
                    }
                    assert(self.history_at(t) =~= old(self).history_at(t));
                } else {
                    match old(self).index_lookup(t) {
                        Some(i) => {
                            old(self).lemma_index_lookup_from(t, 0);
                            assert(old(self).valid_id(i));
                            assert(pre2.history_of_node(i) == old(self).history_of_node(i));
                            assert(self.history_of_node(i) == pre2.history_of_node(i));
                        },
                        None => {},
                    }
                }
            }

            let ghost prefix_n = Set::new(
                |p: Seq<Seq<char>>| exists|kk: int| 1 <= kk <= n && p == #[trigger] gsegs.take(kk),
            );
            assert forall|p: Seq<Seq<char>>| prefix_n.contains(p) == prefix_paths(gsegs).contains(
                p,
            ) by {
                if prefix_n.contains(p) {
                    let kk = choose|kk: int| 1 <= kk <= n && p == #[trigger] gsegs.take(kk);
                    assert(1 <= kk <= gsegs.len() && p == gsegs.take(kk));
                }
                if prefix_paths(gsegs).contains(p) {
                    let kk = choose|kk: int|
                        1 <= kk <= gsegs.len() && p == #[trigger] gsegs.take(kk);
                    assert(1 <= kk <= n && p == gsegs.take(kk));
                }
            }
            assert(prefix_n =~= prefix_paths(gsegs));
            assert(self.paths() == pre2.paths());
            assert(self.paths() =~= old(self).paths().union(prefix_paths(split_char(topic@, '/'))));
        }
        cur
    }

    /// Record one received message under its topic, creating the
    /// topic's path on first sight. Appends to the end of that topic's
    /// history and touches no other topic.
    pub fn add(&mut self, topic: &str, entry: HistoryEntry)
        requires
            old(self).wf(),
        ensures
            final(self).wf(),
            final(self).has_topic(topic@),
            final(self).history_at(topic@) == old(self).history_at(topic@).push(entry),
            forall|t: Seq<char>|
                t != topic@ ==> #[trigger] final(self).history_at(t) == old(self).history_at(t),
            forall|t: Seq<char>|
                #[trigger] final(self).has_topic(t) <==> (old(self).has_topic(t) || t == topic@),
            final(self).paths() == old(self).paths().union(prefix_paths(split_char(topic@, '/'))),
    {
        let id = self.entry(topic);
        let ghost pre = *self;
        self.nodes[id].value.history.push(entry);
        proof {
            let ii = id as int;
            assert(pre.valid_id(ii));
            assert(self.nodes@[ii].value.history@ == pre.nodes@[ii].value.history@.push(entry));
            assert(forall|i: int|
                0 <= i < pre.node_count() && i != ii ==> self.nodes@[i] == pre.nodes@[i]);
            assert(self.nodes@[ii].value.leaf@ == pre.nodes@[ii].value.leaf@);
            assert(self.nodes@[ii].parent == pre.nodes@[ii].parent);
            assert(self.nodes@[ii].children@ == pre.nodes@[ii].children@);
            assert(self.ids@ == pre.ids@);
            assert(self.node_count() == pre.node_count());

            assert forall|i: int| 0 < i < pre.node_count() implies #[trigger] self.parent_of(i)
                == pre.parent_of(i) by {
                if i != ii {
                    assert(self.nodes@[i] == pre.nodes@[i]);
                }
            }
            assert forall|i: int| 0 < i < pre.node_count() implies #[trigger] self.leaf_of(i)
                == pre.leaf_of(i) by {
                if i != ii {
                    assert(self.nodes@[i] == pre.nodes@[i]);
                }
            }
            assert forall|i: int| 0 < i < pre.node_count() implies #[trigger] self.kids(i)
                == pre.kids(i) by {
                if i != ii {
                    assert(self.nodes@[i] == pre.nodes@[i]);
                }
            }
            assert(self.kids(0) == pre.kids(0));
            assert forall|i: int| 0 < i < pre.node_count() implies #[trigger] self.path_of(i)
                == pre.path_of(i) by {
                Self::lemma_path_frame(pre, *self, i);
            }

            assert(self.leaf_of(0) == pre.leaf_of(0));
            assert(self.history_of_node(0) == pre.history_of_node(0));
            assert(self.parent_of(0) == pre.parent_of(0));
            assert(self.wf_root());
            assert(self.wf_parents());
            assert forall|i: int| 0 <= i < self.node_count() implies !has_char(
                #[trigger] self.leaf_of(i),
                '/',
            ) by {
                if i > 0 {
                    assert(self.leaf_of(i) == pre.leaf_of(i));
                }
            }
            assert(self.wf_leaves());
            assert forall|i: int, jj: int|
                0 <= i < self.node_count() && 0 <= jj < self.kids(i).len() implies i
                < #[trigger] self.kids(i)[jj] < self.node_count() && self.parent_of(
                self.kids(i)[jj] as int,
            ) == i by {
                assert(self.kids(i) == pre.kids(i));
                assert(i < pre.kids(i)[jj] < pre.node_count());
                assert(self.parent_of(pre.kids(i)[jj] as int) == pre.parent_of(
                    pre.kids(i)[jj] as int,
                ));
            }
            assert forall|i: int, j1: int, j2: int|
                0 <= i < self.node_count() && 0 <= j1 < j2 < self.kids(i).len() implies lex_lt(
                self.leaf_of(#[trigger] self.kids(i)[j1] as int),
                self.leaf_of(#[trigger] self.kids(i)[j2] as int),
            ) by {
                assert(self.kids(i) == pre.kids(i));
                assert(lex_lt(
                    pre.leaf_of(pre.kids(i)[j1] as int),
                    pre.leaf_of(pre.kids(i)[j2] as int),
                ));
                assert(self.leaf_of(pre.kids(i)[j1] as int) == pre.leaf_of(pre.kids(i)[j1] as int));
                assert(self.leaf_of(pre.kids(i)[j2] as int) == pre.leaf_of(pre.kids(i)[j2] as int));
            }
            assert forall|i: int| 1 <= i < self.node_count() implies self.kids(
                #[trigger] self.parent_of(i),
            ).contains(i as usize) by {
                assert(pre.kids(pre.parent_of(i)).contains(i as usize));
                assert(self.parent_of(i) == pre.parent_of(i));
                assert(self.kids(pre.parent_of(i)) == pre.kids(pre.parent_of(i)));
            }
            assert(self.wf_children());
            assert forall|kk: int| 0 <= kk < self.ids@.len() implies self.valid_id(
                (#[trigger] self.ids@[kk]).1 as int,
            ) && self.topic_of(self.ids@[kk].1 as int) == self.ids@[kk].0@ by {
                assert(pre.valid_id(pre.ids@[kk].1 as int));
                assert(pre.topic_of(pre.ids@[kk].1 as int) == pre.ids@[kk].0@);
                assert(self.path_of(pre.ids@[kk].1 as int) == pre.path_of(pre.ids@[kk].1 as int));
                Self::lemma_path_frame(pre, *self, pre.ids@[kk].1 as int);
            }
            assert(self.wf_index());
            pre.lemma_index_lookup_from(topic@, 0);
            assert forall|i: int|
                1 <= i < self.node_count() && (#[trigger] self.history_of_node(i)).len()
                    > 0 implies self.indexed(i) by {
                if i != ii {
                    assert(self.history_of_node(i) == pre.history_of_node(i));
                    assert(pre.indexed(i));
                } else {
                    assert(pre.indexed(ii));
                }
                let kk = choose|kk: int|
                    0 <= kk < pre.ids@.len() && (#[trigger] pre.ids@[kk]).1 as int == i;
                assert(self.ids@[kk].1 as int == i);
            }
            assert(self.wf());

            assert forall|t: Seq<char>| #[trigger] self.has_topic(t) <==> pre.has_topic(t) by {
                Self::lemma_lookup_same_ids(pre, *self, t, 0);
            }
            assert forall|t: Seq<char>| t != topic@ implies #[trigger] self.history_at(t)
                == pre.history_at(t) by {
                Self::lemma_lookup_same_ids(pre, *self, t, 0);
                pre.lemma_index_lookup_from(t, 0);
                match pre.index_lookup(t) {
                    Some(i) => {
                        assert(pre.topic_of(i) == t);
                        assert(pre.topic_of(ii) == topic@);
                        assert(i != ii);
                        assert(self.history_of_node(i) == pre.history_of_node(i));
                    },
                    None => {},
                }
            }
            assert(self.history_at(topic@) == pre.history_at(topic@).push(entry)) by {
                Self::lemma_lookup_same_ids(pre, *self, topic@, 0);
            }
            assert forall|p: Seq<Seq<char>>| self.paths().contains(p) == pre.paths().contains(
                p,
            ) by {
                if self.paths().contains(p) {
                    let i = choose|i: int| self.valid_id(i) && #[trigger] self.path_of(i) == p;
                    assert(pre.path_of(i) == p);
                }
                if pre.paths().contains(p) {
                    let i = choose|i: int| pre.valid_id(i) && #[trigger] pre.path_of(i) == p;
                    assert(self.path_of(i) == p);
                }
            }
            assert(self.paths() =~= pre.paths());
        }
    }

    /// Messages in the subtree rooted at node `i`: its own history
    /// plus, recursively, its children's.
    pub closed spec fn subtree_msgs(self, i: int) -> nat
        decreases self.node_count() - i, 1int, 0int,
    {
        if 0 <= i < self.node_count() {
            self.history_of_node(i).len() + self.kids_msgs(i, self.kids(i))
        } else {
            0
        }
    }

    /// Messages in the subtrees of a list of children of node `i`.
    pub closed spec fn kids_msgs(self, i: int, kids: Seq<usize>) -> nat
        decreases self.node_count() - i, 0int, kids.len(),
    {
        if kids.len() == 0 {
            0
        } else {
            (if i < kids[0] as int && (kids[0] as int) < self.node_count() {
                self.subtree_msgs(kids[0] as int)
            } else {
                0
            }) + self.kids_msgs(i, kids.drop_first())
        }
    }

    /// History-bearing topics in the subtree rooted at node `i`.
    pub closed spec fn subtree_tops(self, i: int) -> nat
        decreases self.node_count() - i, 1int, 0int,
    {
        if 0 <= i < self.node_count() {
            (if self.history_of_node(i).len() > 0 {
                1nat
            } else {
                0nat
            }) + self.kids_tops(i, self.kids(i))
        } else {
            0
        }
    }

    /// History-bearing topics in the subtrees of a list of children.
    pub closed spec fn kids_tops(self, i: int, kids: Seq<usize>) -> nat
        decreases self.node_count() - i, 0int, kids.len(),
    {
        if kids.len() == 0 {
            0
        } else {
            (if i < kids[0] as int && (kids[0] as int) < self.node_count() {
                self.subtree_tops(kids[0] as int)
            } else {
                0
            }) + self.kids_tops(i, kids.drop_first())
        }
    }

    /// All messages held anywhere in the tree.
    pub open spec fn total_messages(self) -> nat {
        self.subtree_msgs(0)
    }

    /// All history-bearing topics in the tree.
    pub open spec fn total_topics(self) -> nat {
        self.subtree_tops(0)
    }

    proof fn lemma_kids_msgs_push(self, i: int, ks: Seq<usize>, c: usize)
        ensures
            self.kids_msgs(i, ks.push(c)) == self.kids_msgs(i, ks) + (if i < c as int && (
            c as int) < self.node_count() {
                self.subtree_msgs(c as int)
            } else {
                0
            }),
        decreases ks.len(),
    {
        let g: nat = if i < c as int && (c as int) < self.node_count() {
            self.subtree_msgs(c as int)
        } else {
            0
        };
        if ks.len() == 0 {
            assert(ks.push(c)[0] == c);
            assert(ks.push(c).drop_first() =~= ks);
            assert(self.kids_msgs(i, ks) == 0);
            assert(self.kids_msgs(i, ks.push(c)) == g + self.kids_msgs(
                i,
                ks.push(c).drop_first(),
            ));
        } else {
            let g0: nat = if i < ks[0] as int && (ks[0] as int) < self.node_count() {
                self.subtree_msgs(ks[0] as int)
            } else {
                0
            };
            assert(ks.push(c)[0] == ks[0]);
            assert(ks.push(c).drop_first() =~= ks.drop_first().push(c));
            self.lemma_kids_msgs_push(i, ks.drop_first(), c);
            assert(self.kids_msgs(i, ks.push(c)) == g0 + self.kids_msgs(
                i,
                ks.push(c).drop_first(),
            ));
            assert(self.kids_msgs(i, ks.push(c).drop_first()) == self.kids_msgs(
                i,
                ks.drop_first().push(c),
            ));
            assert(self.kids_msgs(i, ks) == g0 + self.kids_msgs(i, ks.drop_first()));
        }
    }

    proof fn lemma_kids_tops_push(self, i: int, ks: Seq<usize>, c: usize)
        ensures
            self.kids_tops(i, ks.push(c)) == self.kids_tops(i, ks) + (if i < c as int && (
            c as int) < self.node_count() {
                self.subtree_tops(c as int)
            } else {
                0
            }),
        decreases ks.len(),
    {
        let g: nat = if i < c as int && (c as int) < self.node_count() {
            self.subtree_tops(c as int)
        } else {
            0
        };
        if ks.len() == 0 {
            assert(ks.push(c)[0] == c);
            assert(ks.push(c).drop_first() =~= ks);
            assert(self.kids_tops(i, ks) == 0);
            assert(self.kids_tops(i, ks.push(c)) == g + self.kids_tops(
                i,
                ks.push(c).drop_first(),
            ));
        } else {
            let g0: nat = if i < ks[0] as int && (ks[0] as int) < self.node_count() {
                self.subtree_tops(ks[0] as int)
            } else {
                0
            };
            assert(ks.push(c)[0] == ks[0]);
            assert(ks.push(c).drop_first() =~= ks.drop_first().push(c));
            self.lemma_kids_tops_push(i, ks.drop_first(), c);
            assert(self.kids_tops(i, ks.push(c)) == g0 + self.kids_tops(
                i,
                ks.push(c).drop_first(),
            ));
            assert(self.kids_tops(i, ks.push(c).drop_first()) == self.kids_tops(
                i,
                ks.drop_first().push(c),
            ));
            assert(self.kids_tops(i, ks) == g0 + self.kids_tops(i, ks.drop_first()));
        }
    }

    /// A prefix of the children contributes no more than all of them.
    proof fn lemma_kids_msgs_take_le(self, i: int, ks: Seq<usize>, j: int)
        requires
            0 <= j <= ks.len(),
        ensures
            self.kids_msgs(i, ks.take(j)) <= self.kids_msgs(i, ks),
        decreases j,
    {
        if j > 0 {
            let shorter = ks.take(j - 1);
            assert(ks.take(j) =~= shorter.push(ks[j - 1]));
            self.lemma_kids_msgs_push(i, shorter, ks[j - 1]);
            self.lemma_kids_msgs_take_le(i, ks, j - 1);
            self.lemma_kids_msgs_split(i, ks, j);
        }
    }

    /// Children split at any point: the sums add up.
    proof fn lemma_kids_msgs_split(self, i: int, ks: Seq<usize>, j: int)
        requires
            0 <= j <= ks.len(),
        ensures
            self.kids_msgs(i, ks) == self.kids_msgs(i, ks.take(j)) + self.kids_msgs(
                i,
                ks.skip(j),
            ),
        decreases j,
    {
        if j == 0 {
            assert(ks.take(0) =~= Seq::<usize>::empty());
            assert(ks.skip(0) =~= ks);
        } else {
            self.lemma_kids_msgs_split(i, ks, j - 1);
            assert(ks.take(j) =~= ks.take(j - 1).push(ks[j - 1]));
            self.lemma_kids_msgs_push(i, ks.take(j - 1), ks[j - 1]);
            assert(ks.skip(j - 1)[0] == ks[j - 1]);
            assert(ks.skip(j - 1).drop_first() =~= ks.skip(j));
        }
    }

    /// One child's subtree contributes no more than the whole list.
    proof fn lemma_kids_msgs_one(self, i: int, ks: Seq<usize>, x: int)
        requires
            0 <= x < ks.len(),
            i < ks[x] as int && (ks[x] as int) < self.node_count(),
        ensures
            self.subtree_msgs(ks[x] as int) <= self.kids_msgs(i, ks),
        decreases x,
    {
        if x == 0 {
        } else {
            assert(ks.drop_first()[x - 1] == ks[x]);
            self.lemma_kids_msgs_one(i, ks.drop_first(), x - 1);
        }
    }

    /// Every subtree's messages are bounded by the whole tree's.
    pub proof fn lemma_subtree_msgs_le_total(self, i: int)
        requires
            self.wf(),
            0 <= i < self.node_count(),
        ensures
            self.subtree_msgs(i) <= self.total_messages(),
        decreases i,
    {
        if i > 0 {
            let p = self.parent_of(i);
            assert(self.kids(p).contains(i as usize));
            let x = choose|x: int| 0 <= x < self.kids(p).len() && self.kids(p)[x] == i as usize;
            self.lemma_kids_msgs_one(p, self.kids(p), x);
            assert(self.kids_msgs(p, self.kids(p)) <= self.subtree_msgs(p));
            self.lemma_subtree_msgs_le_total(p);
        }
    }

    /// A subtree never counts more topics than messages.
    proof fn lemma_subtree_tops_le_msgs(self, i: int)
        ensures
            self.subtree_tops(i) <= self.subtree_msgs(i),
        decreases self.node_count() - i, 1int, 0int,
    {
        if 0 <= i < self.node_count() {
            self.lemma_kids_tops_le_msgs(i, self.kids(i));
        }
    }

    proof fn lemma_kids_tops_le_msgs(self, i: int, kids: Seq<usize>)
        ensures
            self.kids_tops(i, kids) <= self.kids_msgs(i, kids),
        decreases self.node_count() - i, 0int, kids.len(),
    {
        if kids.len() > 0 {
            if i < kids[0] as int && (kids[0] as int) < self.node_count() {
                self.lemma_subtree_tops_le_msgs(kids[0] as int);
            }
            self.lemma_kids_tops_le_msgs(i, kids.drop_first());
        }
    }

    /// The first child of `i` in the list whose leaf is `leaf`.
    spec fn find_in_kids(self, kids: Seq<usize>, leaf: Seq<char>) -> Option<usize>
        decreases kids.len(),
    {
        if kids.len() == 0 {
            None
        } else if (kids[0] as int) < self.node_count() && self.leaf_of(kids[0] as int) == leaf {
            Some(kids[0])
        } else {
            self.find_in_kids(kids.drop_first(), leaf)
        }
    }

    proof fn lemma_find_in_kids(self, kids: Seq<usize>, leaf: Seq<char>)
        ensures
            match self.find_in_kids(kids, leaf) {
                Some(c) => kids.contains(c) && (c as int) < self.node_count() && self.leaf_of(
                    c as int,
                ) == leaf,
                None => true,
            },
        decreases kids.len(),
    {
        if kids.len() > 0 {
            if (kids[0] as int) < self.node_count() && self.leaf_of(kids[0] as int) == leaf {
            } else {
                self.lemma_find_in_kids(kids.drop_first(), leaf);
                match self.find_in_kids(kids.drop_first(), leaf) {
                    Some(c) => {
                        let x = choose|x: int|
                            0 <= x < kids.drop_first().len() && kids.drop_first()[x] == c;
                        assert(kids[x + 1] == c);
                    },
                    None => {},
                }
            }
        }
    }

    /// Walk the exact segments from node `i` downward.
    pub closed spec fn descend(self, i: int, segs: Seq<Seq<char>>) -> Option<int>
        decreases segs.len(),
    {
        if segs.len() == 0 {
            Some(i)
        } else {
            match self.find_in_kids(self.kids(i), segs[0]) {
                None => None,
                Some(c) => self.descend(c as int, segs.drop_first()),
            }
        }
    }

    /// The node holding this exact topic path, by structural walk
    /// from the root.
    pub open spec fn node_at(self, t: Seq<char>) -> Option<int> {
        self.descend(0, split_char(t, '/'))
    }

    /// The ordered list of full topics with history in the subtree of
    /// node `i`: the node's own topic first, then its children's
    /// lists in leaf order.
    pub closed spec fn subtree_topics_list(self, i: int) -> Seq<Seq<char>>
        decreases self.node_count() - i, 1int, 0int,
    {
        if 0 <= i < self.node_count() {
            (if self.history_of_node(i).len() > 0 {
                seq![self.topic_of(i)]
            } else {
                Seq::empty()
            }) + self.kids_topics_list(i, self.kids(i))
        } else {
            Seq::empty()
        }
    }

    spec fn kids_topics_list(self, i: int, kids: Seq<usize>) -> Seq<Seq<char>>
        decreases self.node_count() - i, 0int, kids.len(),
    {
        if kids.len() == 0 {
            Seq::empty()
        } else {
            (if i < kids[0] as int && (kids[0] as int) < self.node_count() {
                self.subtree_topics_list(kids[0] as int)
            } else {
                Seq::empty()
            }) + self.kids_topics_list(i, kids.drop_first())
        }
    }

    proof fn lemma_kids_topics_list_push(self, i: int, ks: Seq<usize>, c: usize)
        ensures
            self.kids_topics_list(i, ks.push(c)) == self.kids_topics_list(i, ks) + (if i < c as int
                && (c as int) < self.node_count() {
                self.subtree_topics_list(c as int)
            } else {
                Seq::empty()
            }),
        decreases ks.len(),
    {
        let g: Seq<Seq<char>> = if i < c as int && (c as int) < self.node_count() {
            self.subtree_topics_list(c as int)
        } else {
            Seq::empty()
        };
        if ks.len() == 0 {
            assert(ks.push(c)[0] == c);
            assert(ks.push(c).drop_first() =~= ks);
            assert(self.kids_topics_list(i, ks) =~= Seq::<Seq<char>>::empty());
            assert(self.kids_topics_list(i, ks.push(c)) == g + self.kids_topics_list(
                i,
                ks.push(c).drop_first(),
            ));
            assert(self.kids_topics_list(i, ks.push(c)) =~= self.kids_topics_list(i, ks) + g);
        } else {
            let g0: Seq<Seq<char>> = if i < ks[0] as int && (ks[0] as int) < self.node_count() {
                self.subtree_topics_list(ks[0] as int)
            } else {
                Seq::empty()
            };
            assert(ks.push(c)[0] == ks[0]);
            assert(ks.push(c).drop_first() =~= ks.drop_first().push(c));
            self.lemma_kids_topics_list_push(i, ks.drop_first(), c);
            assert(self.kids_topics_list(i, ks.push(c)) == g0 + self.kids_topics_list(
                i,
                ks.push(c).drop_first(),
            ));
            assert(self.kids_topics_list(i, ks.push(c).drop_first()) == self.kids_topics_list(
                i,
                ks.drop_first().push(c),
            ));
            assert(self.kids_topics_list(i, ks) == g0 + self.kids_topics_list(i, ks.drop_first()));
            assert(self.kids_topics_list(i, ks.push(c)) =~= self.kids_topics_list(i, ks) + g);
        }
    }

    /// The full topics that must receive a retained-clearing publish
    /// when everything at or below `topic` is deleted: every
    /// history-bearing topic in that subtree, or nothing when the
    /// exact path does not exist.
    pub open spec fn spec_topics_below(self, t: Seq<char>) -> Seq<Seq<char>> {
        match self.node_at(t) {
            Some(i) => self.subtree_topics_list(i),
            None => Seq::empty(),
        }
    }

    /// The first child of `cur` carrying exactly this leaf name.
    fn find_child_exec(&self, cur: usize, seg: &String) -> (r: Option<usize>)
        requires
            self.wf(),
            (cur as int) < self.node_count(),
        ensures
            r == self.find_in_kids(self.kids(cur as int), seg@),
    {
        let clen = self.nodes[cur].children.len();
        let ghost kids = self.kids(cur as int);
        let mut j: usize = 0;
        proof {
            assert(kids.skip(0) =~= kids);
        }
        while j < clen
            invariant
                self.wf(),
                (cur as int) < self.node_count(),
                j <= clen,
                kids == self.kids(cur as int),
                clen == kids.len(),
                self.find_in_kids(kids, seg@) == self.find_in_kids(kids.skip(j as int), seg@),
            decreases clen - j,
        {
            let c = self.nodes[cur].children[j];
            proof {
                assert(kids.skip(j as int)[0] == kids[j as int]);
                assert(kids[j as int] == c);
                assert((c as int) < self.node_count());
            }
            if crate::text::str_eq(self.nodes[c].value.leaf.as_str(), seg.as_str()) {
                return Some(c);
            }
            proof {
                assert(kids.skip(j as int).drop_first() =~= kids.skip(j + 1));
            }
            j += 1;
        }
        proof {
            assert(kids.skip(clen as int) =~= Seq::<usize>::empty());
        }
        None
    }

    /// Collect the history-bearing topics of the subtree of node `i`,
    /// whose full topic name is `path`.
    fn collect_below(&self, i: usize, path: &String) -> (r: Vec<String>)
        requires
            self.wf(),
            self.valid_id(i as int),
            path@ == self.topic_of(i as int),
        ensures
            views(r@) == self.subtree_topics_list(i as int),
        decreases self.node_count() - i,
    {
        let mut r: Vec<String> = Vec::new();
        if self.nodes[i].value.history.len() > 0 {
            r.push(path.clone());
        }
        proof {
            if self.history_of_node(i as int).len() > 0 {
                assert(views(r@) =~= seq![self.topic_of(i as int)]);
            } else {
                assert(views(r@) =~= Seq::<Seq<char>>::empty());
            }
        }
        let ghost own = views(r@);
        let ghost kids = self.kids(i as int);
        let clen = self.nodes[i].children.len();
        let mut j: usize = 0;
        while j < clen
            invariant
                self.wf(),
                self.valid_id(i as int),
                path@ == self.topic_of(i as int),
                j <= clen,
                kids == self.kids(i as int),
                clen == kids.len(),
                views(r@) == own + self.kids_topics_list(i as int, kids.take(j as int)),
            decreases clen - j,
    {
            let c = self.nodes[i].children[j];
            proof {
                assert(kids[j as int] == c);
                assert((i as int) < c as int && (c as int) < self.node_count());
                assert(self.parent_of(c as int) == i as int);
            }
            let cpath = crate::text::join_step(path, &self.nodes[c].value.leaf);
            proof {
                assert(cpath@ == self.topic_of(c as int));
            }
            let mut sub = self.collect_below(c, &cpath);
            let ghost rv = views(r@);
            let ghost sv = views(sub@);
            r.append(&mut sub);
            proof {
                assert(views(r@) =~= rv + sv);
                assert(kids.take(j + 1) =~= kids.take(j as int).push(c));
                self.lemma_kids_topics_list_push(i as int, kids.take(j as int), c);
                assert(views(r@) =~= own + self.kids_topics_list(i as int, kids.take(j + 1)));
            }
            j += 1;
        }
        proof {
            assert(kids.take(clen as int) =~= kids);
        }
        r
    }

    /// The full topic names of every history-bearing topic at or
    /// below `topic`, the node itself included; empty when any
    /// segment of the path is absent.
    pub fn get_topics_below(&self, topic: &str) -> (r: Vec<String>)
        requires
            self.wf(),
        ensures
            views(r@) == self.spec_topics_below(topic@),
    {
        let segs = split_topic(topic);
        let ghost gsegs = split_char(topic@, '/');
        let n = segs.len();
        let mut cur: usize = 0;
        let mut path = String::new();
        let mut k: usize = 0;
        proof {
            assert(gsegs.skip(0) =~= gsegs);
        }
        while k < n
            invariant
                self.wf(),
                k <= n,
                n == segs@.len(),
                views(segs@) == gsegs,
                gsegs == split_char(topic@, '/'),
                (cur as int) < self.node_count(),
                k == 0 ==> cur == 0,
                k > 0 ==> self.valid_id(cur as int) && path@ == self.topic_of(cur as int),
                self.descend(0, gsegs) == self.descend(cur as int, gsegs.skip(k as int)),
            decreases n - k,
        {
            proof {
                assert(views(segs@)[k as int] == segs@[k as int]@);
                assert(gsegs.skip(k as int)[0] == gsegs[k as int]);
                assert(gsegs.skip(k as int).drop_first() =~= gsegs.skip(k + 1));
            }
            match self.find_child_exec(cur, &segs[k]) {
                None => {
                    proof {
                        assert(self.descend(cur as int, gsegs.skip(k as int)) is None);
                        assert(views(Seq::<String>::empty()) =~= Seq::<Seq<char>>::empty());
                    }
                    let out: Vec<String> = Vec::new();
                    proof {
                        assert(views(out@) =~= Seq::<Seq<char>>::empty());
                    }
                    return out;
                },
                Some(c) => {
                    proof {
                        self.lemma_find_in_kids(self.kids(cur as int), gsegs[k as int]);
                        let x = choose|x: int|
                            0 <= x < self.kids(cur as int).len() && self.kids(cur as int)[x] == c;
                        assert(self.parent_of(c as int) == cur as int);
                        assert((cur as int) < c as int && (c as int) < self.node_count());
                    }
                    if k == 0 {
                        path = self.nodes[c].value.leaf.clone();
                        proof {
                            assert(path@ == self.topic_of(c as int));
                        }
                    } else {
                        path = crate::text::join_step(&path, &self.nodes[c].value.leaf);
                        proof {
                            assert(path@ == self.topic_of(c as int));
                        }
                    }
                    cur = c;
                },
            }
            k += 1;
        }
        proof {
            assert(gsegs.skip(n as int) =~= Seq::<Seq<char>>::empty());
            assert(self.descend(cur as int, Seq::<Seq<char>>::empty()) == Some(cur as int));
            assert(n >= 1);
        }
        self.collect_below(cur, &path)
    }

    /// Topics of nodes, up to (excluding) arena slot `n`, whose leaf
    /// name contains the search word.
    pub closed spec fn search_upto(self, word: Seq<char>, n: int) -> Seq<Seq<char>>
        decreases n,
    {
        if n <= 1 {
            Seq::empty()
        } else {
            self.search_upto(word, n - 1) + (if crate::text::contains_seq(
                self.leaf_of(n - 1),
                word,
            ) {
                seq![self.topic_of(n - 1)]
            } else {
                Seq::empty()
            })
        }
    }

    /// All full topics whose leaf name contains the search word.
    pub open spec fn spec_search(self, word: Seq<char>) -> Seq<Seq<char>> {
        self.search_upto(word, self.node_count())
    }

    /// The full topic name of node `i`, reconstructed by walking the
    /// parent links back to (but excluding) the root.
    fn topic_string_of(&self, i: usize) -> (s: String)
        requires
            self.wf(),
            self.valid_id(i as int),
        ensures
            s@ == self.topic_of(i as int),
    {
        let mut cur = i;
        let mut s = self.nodes[cur].value.leaf.clone();
        while self.nodes[cur].parent != 0
            invariant
                self.wf(),
                self.valid_id(cur as int),
                self.parent_of(cur as int) == 0 ==> self.topic_of(i as int) == s@,
                self.parent_of(cur as int) != 0 ==> self.topic_of(i as int) == self.topic_of(
                    self.parent_of(cur as int),
                ) + seq!['/'] + s@,
            decreases cur,
        {
            let p = self.nodes[cur].parent;
            proof {
                assert(0 < p as int && (p as int) < (cur as int));
                if self.parent_of(p as int) == 0 {
                    assert(self.topic_of(p as int) == self.leaf_of(p as int));
                } else {
                    assert(self.topic_of(p as int) == self.topic_of(self.parent_of(p as int))
                        + seq!['/'] + self.leaf_of(p as int));
                }
            }
            let ghost olds = s@;
            s = crate::text::join_step(&self.nodes[p].value.leaf, &s);
            proof {
                assert(s@ == self.leaf_of(p as int) + seq!['/'] + olds);
                if self.parent_of(p as int) != 0 {
                    assert(self.topic_of(self.parent_of(p as int)) + seq!['/'] + (self.leaf_of(
                        p as int,
                    ) + seq!['/'] + olds) =~= (self.topic_of(self.parent_of(p as int)) + seq!['/']
                        + self.leaf_of(p as int)) + seq!['/'] + olds);
                }
            }
            cur = p;
        }
        s
    }

    /// Search the whole tree: a node matches when its leaf name
    /// contains the word (case-sensitive, leaf text only — a word
    /// spanning two segments never matches). Absent when nothing
    /// matched; otherwise the reconstructed full paths.
    pub fn search(&self, search_word: &str) -> (r: Option<Vec<String>>)
        requires
            self.wf(),
        ensures
            match r {
                Some(v) => v@.len() > 0 && views(v@) == self.spec_search(search_word@),
                None => self.spec_search(search_word@).len() == 0,
            },
    {
        let count = self.nodes.len();
        let mut out: Vec<String> = Vec::new();
        let mut i: usize = 1;
        proof {
            assert(views(out@) =~= Seq::<Seq<char>>::empty());
        }
        while i < count
            invariant
                self.wf(),
                1 <= i,
                i <= count || count < 1,
                count == self.node_count(),
                views(out@) == self.search_upto(search_word@, i as int),
            decreases count - i,
        {
            let ghost prev = views(out@);
            if crate::text::str_contains(self.nodes[i].value.leaf.as_str(), search_word) {
                let t = self.topic_string_of(i);
                out.push(t);
                proof {
                    assert(views(out@) =~= prev.push(self.topic_of(i as int)));
                }
            }
            proof {
                assert(views(out@) =~= self.search_upto(search_word@, i + 1));
            }
            i += 1;
        }
        if out.len() == 0 {
            proof {
                if count >= 1 {
                    assert(self.spec_search(search_word@) == views(out@));
                }
            }
            None
        } else {
            Some(out)
        }
    }

    /// The position of the first child of `i` (in child order) whose
    /// leaf is `leaf`.
    spec fn find_pos_in(self, kids: Seq<usize>, leaf: Seq<char>) -> Option<int>
        decreases kids.len(),
    {
        if kids.len() == 0 {
            None
        } else if (kids[0] as int) < self.node_count() && self.leaf_of(kids[0] as int) == leaf {
            Some(0)
        } else {
            match self.find_pos_in(kids.drop_first(), leaf) {
                None => None,
                Some(p) => Some(p + 1),
            }
        }
    }

    /// The child-position path of the exact segment walk from node
    /// `i`, used to address rows of the rendered tree widget.
    pub closed spec fn ident_from(self, i: int, segs: Seq<Seq<char>>) -> Option<Seq<int>>
        decreases segs.len(),
    {
        if segs.len() == 0 {
            Some(Seq::empty())
        } else {
            match self.find_pos_in(self.kids(i), segs[0]) {
                None => None,
                Some(p) => match self.ident_from(
                    self.kids(i)[p] as int,
                    segs.drop_first(),
                ) {
                    None => None,
                    Some(rest) => Some(seq![p] + rest),
                },
            }
        }
    }

    /// The tree-widget identifier (child positions, root to leaf) of
    /// an exact topic path.
    pub open spec fn spec_tree_identifier(self, t: Seq<char>) -> Option<Seq<int>> {
        self.ident_from(0, split_char(t, '/'))
    }

    proof fn lemma_find_pos_in(self, kids: Seq<usize>, leaf: Seq<char>)
        ensures
            match self.find_pos_in(kids, leaf) {
                Some(p) => 0 <= p < kids.len() && (kids[p] as int) < self.node_count()
                    && self.leaf_of(kids[p] as int) == leaf && self.find_in_kids(kids, leaf)
                    == Some(kids[p]),
                None => self.find_in_kids(kids, leaf) is None,
            },
        decreases kids.len(),
    {
        if kids.len() > 0 {
            if (kids[0] as int) < self.node_count() && self.leaf_of(kids[0] as int) == leaf {
            } else {
                self.lemma_find_pos_in(kids.drop_first(), leaf);
                match self.find_pos_in(kids.drop_first(), leaf) {
                    Some(p) => {
                        assert(kids.drop_first()[p] == kids[p + 1]);
                    },
                    None => {},
                }
            }
        }
    }

    /// The child-position path of an exact topic, used to drive the
    /// rendered tree widget's open and selection state; absent when
    /// any segment of the path does not exist.
    pub fn get_tree_identifier(&self, topic: &str) -> (r: Option<Vec<usize>>)
        requires
            self.wf(),
        ensures
            match r {
                Some(v) => self.spec_tree_identifier(topic@) == Some(
                    v@.map_values(|x: usize| x as int),
                ),
                None => self.spec_tree_identifier(topic@) is None,
            },
    {
        let segs = split_topic(topic);
        let ghost gsegs = split_char(topic@, '/');
        let n = segs.len();
        let mut identifier: Vec<usize> = Vec::new();
        let mut cur: usize = 0;
        let mut k: usize = 0;
        proof {
            assert(gsegs.skip(0) =~= gsegs);
            assert(identifier@.map_values(|x: usize| x as int) =~= Seq::<int>::empty());
        }
        while k < n
            invariant
                self.wf(),
                k <= n,
                n == segs@.len(),
                views(segs@) == gsegs,
                gsegs == split_char(topic@, '/'),
                (cur as int) < self.node_count(),
                self.spec_tree_identifier(topic@) == (match self.ident_from(
                    cur as int,
                    gsegs.skip(k as int),
                ) {
                    None => None::<Seq<int>>,
                    Some(rest) => Some(identifier@.map_values(|x: usize| x as int) + rest),
                }),
            decreases n - k,
        {
            proof {
                assert(views(segs@)[k as int] == segs@[k as int]@);
                assert(gsegs.skip(k as int)[0] == gsegs[k as int]);
                assert(gsegs.skip(k as int).drop_first() =~= gsegs.skip(k + 1));
                self.lemma_find_pos_in(self.kids(cur as int), gsegs[k as int]);
            }
            let clen = self.nodes[cur].children.len();
            let ghost kids = self.kids(cur as int);
            let mut j: usize = 0;
            let mut found = false;
            let mut childid: usize = 0;
            while j < clen && !found
                invariant
                    self.wf(),
                    (cur as int) < self.node_count(),
                    j <= clen,
                    k < n,
                    n == segs@.len(),
                    views(segs@) == gsegs,
                    kids == self.kids(cur as int),
                    clen == kids.len(),
                    forall|x: int|
                        0 <= x < j ==> !((kids[x] as int) < self.node_count() && self.leaf_of(
                            #[trigger] kids[x] as int,
                        ) == gsegs[k as int]),
                    found ==> j < clen && kids[j as int] == childid && (childid as int)
                        < self.node_count() && self.leaf_of(childid as int) == gsegs[k as int],
                decreases clen - j, (if found { 0int } else { 1int }),
            {
                let c = self.nodes[cur].children[j];
                proof {
                    assert(kids[j as int] == c);
                    assert((c as int) < self.node_count());
                    assert(views(segs@)[k as int] == segs@[k as int]@);
                }
                if crate::text::str_eq(self.nodes[c].value.leaf.as_str(), segs[k].as_str()) {
                    found = true;
                    childid = c;
                } else {
                    j += 1;
                }
            }
            if !found {
                proof {
                    let ghost segk = gsegs[k as int];
                    assert forall|x: int| 0 <= x < kids.len() implies !((kids[x] as int)
                        < self.node_count() && self.leaf_of(#[trigger] kids[x] as int)
                        == segk) by {}
                    self.lemma_find_pos_none(kids, gsegs[k as int]);
                    assert(self.ident_from(cur as int, gsegs.skip(k as int)) is None);
                }
                return None;
            }
            proof {
                self.lemma_find_pos_exact(kids, gsegs[k as int], j as int);
                assert(self.find_pos_in(kids, gsegs[k as int]) == Some(j as int));
                assert(kids[j as int] == childid);
            }
            let ghost previd = identifier@;
            identifier.push(j);
            proof {
                assert(identifier@.map_values(|x: usize| x as int) =~= previd.map_values(
                    |x: usize| x as int,
                ).push(j as int));
                assert(seq![j as int] + (match self.ident_from(
                    childid as int,
                    gsegs.skip(k + 1),
                ) {
                    None => Seq::<int>::empty(),
                    Some(rest) => rest,
                }) =~= (match self.ident_from(childid as int, gsegs.skip(k + 1)) {
                    None => seq![j as int],
                    Some(rest) => seq![j as int] + rest,
                }));
                match self.ident_from(childid as int, gsegs.skip(k + 1)) {
                    None => {},
                    Some(rest) => {
                        assert(previd.map_values(|x: usize| x as int) + (seq![j as int] + rest)
                            =~= identifier@.map_values(|x: usize| x as int) + rest);
                    },
                }
            }
            cur = childid;
            k += 1;
        }
        proof {
            assert(gsegs.skip(n as int) =~= Seq::<Seq<char>>::empty());
            assert(identifier@.map_values(|x: usize| x as int) + Seq::<int>::empty()
                =~= identifier@.map_values(|x: usize| x as int));
        }
        Some(identifier)
    }

    proof fn lemma_find_pos_none(self, kids: Seq<usize>, leaf: Seq<char>)
        requires
            forall|x: int|
                0 <= x < kids.len() ==> !((kids[x] as int) < self.node_count() && self.leaf_of(
                    #[trigger] kids[x] as int,
                ) == leaf),
        ensures
            self.find_pos_in(kids, leaf) is None,
        decreases kids.len(),
    {
        if kids.len() > 0 {
            assert forall|x: int| 0 <= x < kids.drop_first().len() implies !((kids.drop_first()[x]
                as int) < self.node_count() && self.leaf_of(
                #[trigger] kids.drop_first()[x] as int,
            ) == leaf) by {
                assert(kids.drop_first()[x] == kids[x + 1]);
            }
            self.lemma_find_pos_none(kids.drop_first(), leaf);
        }
    }

    proof fn lemma_find_pos_exact(self, kids: Seq<usize>, leaf: Seq<char>, j: int)
        requires
            0 <= j < kids.len(),
            (kids[j] as int) < self.node_count(),
            self.leaf_of(kids[j] as int) == leaf,
            forall|x: int|
                0 <= x < j ==> !((kids[x] as int) < self.node_count() && self.leaf_of(
                    #[trigger] kids[x] as int,
                ) == leaf),
        ensures
            self.find_pos_in(kids, leaf) == Some(j),
        decreases j,
    {
        if j == 0 {
        } else {
            assert forall|x: int| 0 <= x < j - 1 implies !((kids.drop_first()[x] as int)
                < self.node_count() && self.leaf_of(#[trigger] kids.drop_first()[x] as int)
                == leaf) by {
                assert(kids.drop_first()[x] == kids[x + 1]);
            }
            assert(kids.drop_first()[j - 1] == kids[j]);
            self.lemma_find_pos_exact(kids.drop_first(), leaf, j - 1);
        }
    }

    /// The depth-first visible walk from node `i`: the node's own
    /// topic always, its children's walks right after it only when
    /// its topic stands in the opened set.
    pub closed spec fn visible_from(self, i: int, opened: Seq<Seq<char>>) -> Seq<Seq<char>>
        decreases self.node_count() - i, 1int, 0int,
    {
        if 0 <= i < self.node_count() {
            seq![self.topic_of(i)] + (if opened.contains(self.topic_of(i)) {
                self.kids_visible(i, self.kids(i), opened)
            } else {
                Seq::empty()
            })
        } else {
            Seq::empty()
        }
    }

    spec fn kids_visible(self, i: int, kids: Seq<usize>, opened: Seq<Seq<char>>) -> Seq<Seq<char>>
        decreases self.node_count() - i, 0int, kids.len(),
    {
        if kids.len() == 0 {
            Seq::empty()
        } else {
            (if i < kids[0] as int && (kids[0] as int) < self.node_count() {
                self.visible_from(kids[0] as int, opened)
            } else {
                Seq::empty()
            }) + self.kids_visible(i, kids.drop_first(), opened)
        }
    }

    proof fn lemma_kids_visible_push(self, i: int, ks: Seq<usize>, c: usize, opened: Seq<Seq<char>>)
        ensures
            self.kids_visible(i, ks.push(c), opened) == self.kids_visible(i, ks, opened) + (if i
                < c as int && (c as int) < self.node_count() {
                self.visible_from(c as int, opened)
            } else {
                Seq::empty()
            }),
        decreases ks.len(),
    {
        let g: Seq<Seq<char>> = if i < c as int && (c as int) < self.node_count() {
            self.visible_from(c as int, opened)
        } else {
            Seq::empty()
        };
        if ks.len() == 0 {
            assert(ks.push(c)[0] == c);
            assert(ks.push(c).drop_first() =~= ks);
            assert(self.kids_visible(i, ks, opened) =~= Seq::<Seq<char>>::empty());
            assert(self.kids_visible(i, ks.push(c), opened) == g + self.kids_visible(
                i,
                ks.push(c).drop_first(),
                opened,
            ));
            assert(self.kids_visible(i, ks.push(c), opened) =~= self.kids_visible(i, ks, opened)
                + g);
        } else {
            let g0: Seq<Seq<char>> = if i < ks[0] as int && (ks[0] as int) < self.node_count() {
                self.visible_from(ks[0] as int, opened)
            } else {
                Seq::empty()
            };
            assert(ks.push(c)[0] == ks[0]);
            assert(ks.push(c).drop_first() =~= ks.drop_first().push(c));
            self.lemma_kids_visible_push(i, ks.drop_first(), c, opened);
            assert(self.kids_visible(i, ks.push(c), opened) == g0 + self.kids_visible(
                i,
                ks.push(c).drop_first(),
                opened,
            ));
            assert(self.kids_visible(i, ks.push(c).drop_first(), opened) == self.kids_visible(
                i,
                ks.drop_first().push(c),
                opened,
            ));
            assert(self.kids_visible(i, ks, opened) == g0 + self.kids_visible(
                i,
                ks.drop_first(),
                opened,
            ));
            assert(self.kids_visible(i, ks.push(c), opened) =~= self.kids_visible(i, ks, opened)
                + g);
        }
    }

    /// The unfiltered visible walk over all root children.
    pub closed spec fn spec_visible_all(self, opened: Seq<Seq<char>>) -> Seq<Seq<char>> {
        self.kids_visible(0, self.kids(0), opened)
    }

    /// What the cursor can land on: the visible walk, filtered by the
    /// query when one is present.
    pub open spec fn spec_visible(
        self,
        opened: Seq<Seq<char>>,
        query: Option<Seq<Seq<char>>>,
    ) -> Seq<Seq<char>> {
        match query {
            None => self.spec_visible_all(opened),
            Some(q) => filter_query(q, self.spec_visible_all(opened)),
        }
    }

    fn visible_rec(&self, i: usize, path: &String, opened_topics: &Vec<String>) -> (r: Vec<String>)
        requires
            self.wf(),
            self.valid_id(i as int),
            path@ == self.topic_of(i as int),
        ensures
            views(r@) == self.visible_from(i as int, views(opened_topics@)),
        decreases self.node_count() - i,
    {
        let ghost opened = views(opened_topics@);
        let mut r: Vec<String> = Vec::new();
        r.push(path.clone());
        proof {
            assert(views(r@) =~= seq![self.topic_of(i as int)]);
        }
        if crate::text::contains_topic(opened_topics, path) {
            let ghost own = views(r@);
            let ghost kids = self.kids(i as int);
            let clen = self.nodes[i].children.len();
            let mut j: usize = 0;
            proof {
                assert(self.kids_visible(i as int, kids.take(0), opened)
                    =~= Seq::<Seq<char>>::empty());
                assert(views(r@) =~= own + self.kids_visible(i as int, kids.take(0), opened));
            }
            while j < clen
                invariant
                    self.wf(),
                    self.valid_id(i as int),
                    path@ == self.topic_of(i as int),
                    opened == views(opened_topics@),
                    j <= clen,
                    kids == self.kids(i as int),
                    clen == kids.len(),
                    own == seq![self.topic_of(i as int)],
                    views(r@) == own + self.kids_visible(i as int, kids.take(j as int), opened),
                decreases clen - j,
            {
                let c = self.nodes[i].children[j];
                proof {
                    assert(kids[j as int] == c);
                    assert((i as int) < c as int && (c as int) < self.node_count());
                    assert(self.parent_of(c as int) == i as int);
                }
                let cpath = crate::text::join_step(path, &self.nodes[c].value.leaf);
                proof {
                    assert(cpath@ == self.topic_of(c as int));
                }
                let mut sub = self.visible_rec(c, &cpath, opened_topics);
                let ghost rv = views(r@);
                let ghost sv = views(sub@);
                r.append(&mut sub);
                proof {
                    assert(views(r@) =~= rv + sv);
                    assert(kids.take(j + 1) =~= kids.take(j as int).push(c));
                    self.lemma_kids_visible_push(i as int, kids.take(j as int), c, opened);
                    assert(views(r@) =~= own + self.kids_visible(i as int, kids.take(j + 1), opened));
                }
                j += 1;
            }
            proof {
                assert(kids.take(clen as int) =~= kids);
            }
        }
        r
    }

    /// The ordered list of topics the cursor can land on, under the
    /// current expand state and the query filter. A node's children
    /// follow it exactly when its own topic is in the opened set;
    /// otherwise its whole subtree is skipped.
    pub fn get_visible_topics(
        &self,
        opened_topics: &Vec<String>,
        query_items: &Option<Vec<String>>,
    ) -> (r: Vec<String>)
        requires
            self.wf(),
        ensures
            views(r@) == self.spec_visible(views(opened_topics@), opt_views(*query_items)),
    {
        let ghost opened = views(opened_topics@);
        let mut all: Vec<String> = Vec::new();
        let ghost kids = self.kids(0);
        let clen = self.nodes[0].children.len();
        let mut j: usize = 0;
        proof {
            assert(self.kids_visible(0, kids.take(0), opened) =~= Seq::<Seq<char>>::empty());
            assert(views(all@) =~= self.kids_visible(0, kids.take(0), opened));
        }
        while j < clen
            invariant
                self.wf(),
                opened == views(opened_topics@),
                j <= clen,
                kids == self.kids(0),
                clen == kids.len(),
                views(all@) == self.kids_visible(0, kids.take(j as int), opened),
            decreases clen - j,
        {
            let c = self.nodes[0].children[j];
            proof {
                assert(kids[j as int] == c);
                assert(0 < c as int && (c as int) < self.node_count());
                assert(self.parent_of(c as int) == 0);
                assert(self.topic_of(c as int) == self.leaf_of(c as int));
            }
            let cpath = self.nodes[c].value.leaf.clone();
            let mut sub = self.visible_rec(c, &cpath, opened_topics);
            let ghost av = views(all@);
            let ghost sv = views(sub@);
            all.append(&mut sub);
            proof {
                assert(views(all@) =~= av + sv);
                assert(kids.take(j + 1) =~= kids.take(j as int).push(c));
                self.lemma_kids_visible_push(0, kids.take(j as int), c, opened);
                assert(views(all@) =~= self.kids_visible(0, kids.take(j + 1), opened));
            }
            j += 1;
        }
        proof {
            assert(kids.take(clen as int) =~= kids);
        }
        match query_items {
            None => all,
            Some(q) => {
                let ghost qv = views(q@);
                let ghost full = views(all@);
                let mut out: Vec<String> = Vec::new();
                let n = all.len();
                let mut x: usize = 0;
                proof {
                    assert(full.take(0) =~= Seq::<Seq<char>>::empty());
                    assert(views(out@) =~= filter_query(qv, full.take(0)));
                }
                while x < n
                    invariant
                        x <= n,
                        n == all@.len(),
                        full == views(all@),
                        qv == views(q@),
                        views(out@) == filter_query(qv, full.take(x as int)),
                    decreases n - x,
                {
                    proof {
                        assert(full.take(x + 1).drop_last() =~= full.take(x as int));
                        assert(full.take(x + 1).last() == full[x as int]);
                        assert(full[x as int] == all@[x as int]@);
                    }
                    let ghost prev = views(out@);
                    if crate::text::query_keeps_exec(q, &all[x]) {
                        out.push(all[x].clone());
                        proof {
                            assert(views(out@) =~= prev.push(full[x as int]));
                            assert(views(out@) =~= filter_query(qv, full.take(x + 1)));
                        }
                    } else {
                        proof {
                            assert(views(out@) =~= filter_query(qv, full.take(x + 1)));
                        }
                    }
                    x += 1;
                }
                proof {
                    assert(full.take(n as int) =~= full);
                }
                out
            },
        }
    }

    /// One projected node matches the tree at node `i`: leaf text,
    /// meta value (latest payload, or aggregated counts when the node
    /// has no direct history), the query-driven visibility flag, and
    /// recursively all children.
    pub closed spec fn item_ok(self, i: int, q: Option<Seq<Seq<char>>>, item: TreeItemData) -> bool
        decreases self.node_count() - i, 1int, 0int,
    {
        if 0 <= i < self.node_count() {
            &&& item.leaf@ == self.leaf_of(i)
            &&& item.visible == (match q {
                None => true,
                Some(qs) => query_keeps(qs, self.topic_of(i)),
            })
            &&& (if self.history_of_node(i).len() > 0 {
                match self.history_of_node(i).last().payload {
                    Payload::Text(s) => item.meta == Meta::Text(s),
                    Payload::Json(_) => item.meta is Json,
                    Payload::NotUtf8(_) => item.meta == Meta::NotUtf8,
                }
            } else {
                item.meta matches Meta::Counts(t, m) && t == self.kids_tops(i, self.kids(i))
                    && m == self.kids_msgs(i, self.kids(i))
            })
            &&& item.children@.len() == self.kids(i).len()
            &&& self.kids_items_ok(i, self.kids(i), q, item.children@)
        } else {
            true
        }
    }

    spec fn kids_items_ok(
        self,
        i: int,
        kids: Seq<usize>,
        q: Option<Seq<Seq<char>>>,
        items: Seq<TreeItemData>,
    ) -> bool
        decreases self.node_count() - i, 0int, kids.len(),
    {
        if kids.len() == 0 {
            true
        } else {
            &&& items.len() > 0
            &&& (if i < kids[0] as int && (kids[0] as int) < self.node_count() {
                self.item_ok(kids[0] as int, q, items[0])
            } else {
                true
            })
            &&& self.kids_items_ok(i, kids.drop_first(), q, items.drop_first())
        }
    }

    proof fn lemma_kids_items_ok_push(
        self,
        i: int,
        ks: Seq<usize>,
        c: usize,
        q: Option<Seq<Seq<char>>>,
        items: Seq<TreeItemData>,
        x: TreeItemData,
    )
        requires
            items.len() == ks.len(),
            self.kids_items_ok(i, ks, q, items),
            i < c as int && (c as int) < self.node_count() ==> self.item_ok(c as int, q, x),
        ensures
            self.kids_items_ok(i, ks.push(c), q, items.push(x)),
        decreases ks.len(),
    {
        if ks.len() == 0 {
            assert(ks.push(c)[0] == c);
            assert(items.push(x)[0] == x);
            assert(ks.push(c).drop_first() =~= ks);
            assert(items.push(x).drop_first() =~= items);
        } else {
            assert(ks.push(c)[0] == ks[0]);
            assert(items.push(x)[0] == items[0]);
            assert(ks.push(c).drop_first() =~= ks.drop_first().push(c));
            assert(items.push(x).drop_first() =~= items.drop_first().push(x));
            self.lemma_kids_items_ok_push(i, ks.drop_first(), c, q, items.drop_first(), x);
        }
    }

    /// The projected items of all root children match the tree.
    pub closed spec fn root_items_ok(
        self,
        q: Option<Seq<Seq<char>>>,
        items: Seq<TreeItemData>,
    ) -> bool {
        items.len() == self.kids(0).len() && self.kids_items_ok(0, self.kids(0), q, items)
    }

    /// How many children the root has.
    pub closed spec fn root_child_count(self) -> nat {
        self.kids(0).len()
    }

    fn build_items(
        &self,
        i: usize,
        path: &String,
        query_items: &Option<Vec<String>>,
    ) -> (g: RecursiveTreeItemGenerator)
        requires
            self.wf(),
            self.valid_id(i as int),
            path@ == self.topic_of(i as int),
            self.total_messages() <= usize::MAX,
        ensures
            g.messages == self.history_of_node(i as int).len(),
            g.messages_below == self.kids_msgs(i as int, self.kids(i as int)),
            g.topics_below == self.kids_tops(i as int, self.kids(i as int)),
            self.item_ok(i as int, opt_views(*query_items), g.tree_item),
        decreases self.node_count() - i,
    {
        let ghost q = opt_views(*query_items);
        let mut children_items: Vec<TreeItemData> = Vec::new();
        let mut messages_below: usize = 0;
        let mut topics_below: usize = 0;
        let ghost kids = self.kids(i as int);
        let clen = self.nodes[i].children.len();
        let mut j: usize = 0;
        proof {
            assert(kids.take(0) =~= Seq::<usize>::empty());
        }
        while j < clen
            invariant
                self.wf(),
                self.valid_id(i as int),
                path@ == self.topic_of(i as int),
                self.total_messages() <= usize::MAX,
                q == opt_views(*query_items),
                j <= clen,
                kids == self.kids(i as int),
                clen == kids.len(),
                messages_below == self.kids_msgs(i as int, kids.take(j as int)),
                topics_below == self.kids_tops(i as int, kids.take(j as int)),
                children_items@.len() == j,
                self.kids_items_ok(i as int, kids.take(j as int), q, children_items@),
            decreases clen - j,
        {
            let c = self.nodes[i].children[j];
            proof {
                assert(kids[j as int] == c);
                assert((i as int) < c as int && (c as int) < self.node_count());
                assert(self.parent_of(c as int) == i as int);
            }
            let cpath = crate::text::join_step(path, &self.nodes[c].value.leaf);
            proof {
                assert(cpath@ == self.topic_of(c as int));
            }
            let gc = self.build_items(c, &cpath, query_items);
            proof {
                self.lemma_subtree_msgs_le_total(i as int);
                assert(kids.take(j + 1) =~= kids.take(j as int).push(c));
                self.lemma_kids_msgs_push(i as int, kids.take(j as int), c);
                self.lemma_kids_msgs_take_le(i as int, kids, j + 1);
                self.lemma_kids_tops_push(i as int, kids.take(j as int), c);
                self.lemma_kids_tops_le_msgs(i as int, kids.take(j + 1));
                assert(self.subtree_msgs(c as int) == self.history_of_node(c as int).len()
                    + self.kids_msgs(c as int, self.kids(c as int)));
                assert(self.subtree_tops(c as int) == (if self.history_of_node(c as int).len()
                    > 0 {
                    1nat
                } else {
                    0nat
                }) + self.kids_tops(c as int, self.kids(c as int)));
                assert(self.kids_msgs(i as int, kids.take(j + 1)) <= self.kids_msgs(i as int, kids));
                assert(self.kids_msgs(i as int, kids) <= self.subtree_msgs(i as int));
            }
            let has: usize = if gc.messages > 0 {
                1
            } else {
                0
            };
            messages_below = messages_below + gc.messages + gc.messages_below;
            topics_below = topics_below + has + gc.topics_below;
            let ghost prev_items = children_items@;
            children_items.push(gc.tree_item);
            proof {
                self.lemma_kids_items_ok_push(
                    i as int,
                    kids.take(j as int),
                    c,
                    q,
                    prev_items,
                    gc.tree_item,
                );
            }
            j += 1;
        }
        proof {
            assert(kids.take(clen as int) =~= kids);
        }
        let hlen = self.nodes[i].value.history.len();
        let meta = if hlen > 0 {
            let last = &self.nodes[i].value.history[hlen - 1];
            match &last.payload {
                Payload::Text(s) => Meta::Text(s.clone()),
                Payload::Json(v) => Meta::Json(crate::payload::dump_json(v)),
                Payload::NotUtf8(_) => Meta::NotUtf8,
            }
        } else {
            Meta::Counts(topics_below, messages_below)
        };
        let visible = match query_items {
            None => true,
            Some(qi) => crate::text::query_keeps_exec(qi, path),
        };
        let item = TreeItemData {
            leaf: self.nodes[i].value.leaf.clone(),
            meta,
            visible,
            children: children_items,
        };
        proof {
            if self.history_of_node(i as int).len() > 0 {
                let hist = self.history_of_node(i as int);
                assert(hist.last() == hist[hlen - 1]);
            }
            assert(self.item_ok(i as int, q, item));
        }
        RecursiveTreeItemGenerator { messages: hlen, messages_below, topics_below, tree_item: item }
    }

    /// The renderable projection of the whole tree: the total count
    /// of history-bearing topics, and one projected item per root
    /// child, children nested in sorted leaf order.
    pub fn to_tree_items(&self, query_items: &Option<Vec<String>>) -> (r: (usize, Vec<TreeItemData>))
        requires
            self.wf(),
            self.total_messages() <= usize::MAX,
        ensures
            r.0 == self.total_topics(),
            self.root_items_ok(opt_views(*query_items), r.1@),
    {
        let ghost q = opt_views(*query_items);
        let mut items: Vec<TreeItemData> = Vec::new();
        let mut topics: usize = 0;
        let ghost kids = self.kids(0);
        let clen = self.nodes[0].children.len();
        let mut j: usize = 0;
        proof {
            assert(kids.take(0) =~= Seq::<usize>::empty());
        }
        while j < clen
            invariant
                self.wf(),
                self.total_messages() <= usize::MAX,
                q == opt_views(*query_items),
                j <= clen,
                kids == self.kids(0),
                clen == kids.len(),
                topics == self.kids_tops(0, kids.take(j as int)),
                items@.len() == j,
                self.kids_items_ok(0, kids.take(j as int), q, items@),
            decreases clen - j,
        {
            let c = self.nodes[0].children[j];
            proof {
                assert(kids[j as int] == c);
                assert(0 < c as int && (c as int) < self.node_count());
                assert(self.parent_of(c as int) == 0);
                assert(self.topic_of(c as int) == self.leaf_of(c as int));
            }
            let cpath = self.nodes[c].value.leaf.clone();
            let gc = self.build_items(c, &cpath, query_items);
            proof {
                self.lemma_subtree_msgs_le_total(0);
                assert(kids.take(j + 1) =~= kids.take(j as int).push(c));
                self.lemma_kids_msgs_push(0, kids.take(j as int), c);
                self.lemma_kids_msgs_take_le(0, kids, j + 1);
                self.lemma_kids_tops_push(0, kids.take(j as int), c);
                self.lemma_kids_tops_le_msgs(0, kids.take(j + 1));
                assert(self.subtree_msgs(c as int) == self.history_of_node(c as int).len()
                    + self.kids_msgs(c as int, self.kids(c as int)));
                assert(self.subtree_tops(c as int) == (if self.history_of_node(c as int).len()
                    > 0 {
                    1nat
                } else {
                    0nat
                }) + self.kids_tops(c as int, self.kids(c as int)));
                assert(self.kids_msgs(0, kids.take(j + 1)) <= self.kids_msgs(0, kids));
                assert(self.kids_msgs(0, kids) <= self.subtree_msgs(0));
            }
            let has: usize = if gc.messages > 0 {
                1
            } else {
                0
            };
            topics = topics + has + gc.topics_below;
            let ghost prev_items = items@;
            items.push(gc.tree_item);
            proof {
                self.lemma_kids_items_ok_push(0, kids.take(j as int), c, q, prev_items, gc.tree_item);
            }
            j += 1;
        }
        proof {
            assert(kids.take(clen as int) =~= kids);
            assert(self.subtree_tops(0) == 0 + self.kids_tops(0, self.kids(0)));
        }
        (topics, items)
    }

    /// The leaf names of node `i`'s children, in child order.
    pub closed spec fn children_leaves(self, i: int) -> Seq<Seq<char>> {
        Seq::new(self.kids(i).len(), |j: int| self.leaf_of(self.kids(i)[j] as int))
    }

    /// Children are kept in strictly ascending leaf order.
    pub proof fn lemma_children_leaves_sorted(self, i: int)
        requires
            self.wf(),
            0 <= i < self.node_count(),
        ensures
            forall|j1: int, j2: int|
                0 <= j1 < j2 < self.children_leaves(i).len() ==> lex_lt(
                    #[trigger] self.children_leaves(i)[j1],
                    #[trigger] self.children_leaves(i)[j2],
                ),
    {
        assert forall|j1: int, j2: int|
            0 <= j1 < j2 < self.children_leaves(i).len() implies lex_lt(
            #[trigger] self.children_leaves(i)[j1],
            #[trigger] self.children_leaves(i)[j2],
        ) by {
            assert(self.children_leaves(i)[j1] == self.leaf_of(self.kids(i)[j1] as int));
            assert(self.children_leaves(i)[j2] == self.leaf_of(self.kids(i)[j2] as int));
        }
    }

    /// A valid identifier lies below the slot count.
    pub proof fn lemma_valid_id_below_count(self, i: int)
        requires
            self.valid_id(i),
        ensures
            0 < i < self.node_count(),
    {
    }

    /// A word that holds the separator occurs in no leaf name, so no
    /// node up to slot `n` matches it.
    pub proof fn lemma_search_upto_empty(self, word: Seq<char>, n: int)
        requires
            self.wf(),
            has_char(word, '/'),
            n <= self.node_count(),
        ensures
            self.search_upto(word, n).len() == 0,
        decreases n,
    {
        if n > 1 {
            self.lemma_search_upto_empty(word, n - 1);
            if crate::text::contains_seq(self.leaf_of(n - 1), word) {
                crate::text::lemma_contains_has_char(self.leaf_of(n - 1), word, '/');
            }
        }
    }

    /// A node whose leaf contains the word stands, by its full
    /// topic, in the search over all slots up to `n`.
    pub proof fn lemma_search_upto_finds(self, word: Seq<char>, i: int, n: int)
        requires
            self.wf(),
            self.valid_id(i),
            crate::text::contains_seq(self.leaf_of(i), word),
            i < n <= self.node_count(),
        ensures
            self.search_upto(word, n).contains(self.topic_of(i)),
        decreases n,
    {
        if n - 1 == i {
            let part = self.search_upto(word, n);
            assert(part == self.search_upto(word, n - 1) + seq![self.topic_of(i)]);
            assert(part[part.len() - 1] == self.topic_of(i));
        } else {
            self.lemma_search_upto_finds(word, i, n - 1);
            let prev = self.search_upto(word, n - 1);
            let x = choose|x: int| 0 <= x < prev.len() && prev[x] == self.topic_of(i);
            assert(self.search_upto(word, n)[x] == self.topic_of(i));
        }
    }

    /// The root's child leaves are exactly the single-segment paths
    /// of the tree.
    pub proof fn lemma_root_children_unit_paths(self)
        requires
            self.wf(),
        ensures
            forall|l: Seq<char>|
                #[trigger] self.children_leaves(0).contains(l) <==> self.paths().contains(
                    seq![l],
                ),
    {
        assert forall|l: Seq<char>| #[trigger] self.children_leaves(0).contains(l)
            <==> self.paths().contains(seq![l]) by {
            if self.children_leaves(0).contains(l) {
                let j = choose|j: int|
                    0 <= j < self.children_leaves(0).len() && self.children_leaves(0)[j] == l;
                let c = self.kids(0)[j];
                assert(0 < c < self.node_count());
                assert(self.parent_of(c as int) == 0);
                assert(self.path_of(c as int) =~= seq![self.leaf_of(c as int)]);
                assert(self.valid_id(c as int) && self.path_of(c as int) == seq![l]);
                assert(self.paths().contains(seq![l]));
            }
            if self.paths().contains(seq![l]) {
                let i = choose|i: int| self.valid_id(i) && #[trigger] self.path_of(i) == seq![l];
                let p = self.parent_of(i);
                if 0 < p && p < i {
                    self.lemma_topic_is_join(p);
                    assert(self.path_of(i) == self.path_of(p).push(self.leaf_of(i)));
                    assert(self.path_of(i).len() >= 2);
                } else {
                    assert(p == 0);
                }
                assert(self.path_of(i) =~= seq![self.leaf_of(i)]);
                assert(seq![self.leaf_of(i)][0] == seq![l][0]);
                assert(self.leaf_of(i) == l);
                assert(self.kids(0).contains(i as usize));
                let j = choose|j: int| 0 <= j < self.kids(0).len() && self.kids(0)[j] == i as usize;
                assert(vstd::std_specs::vec::spec_vec_len(&self.nodes) == self.nodes@.len());
                assert(0 < i <= usize::MAX);
                assert(self.kids(0)[j] as int == i);
                assert(self.children_leaves(0)[j] == self.leaf_of(self.kids(0)[j] as int));
                assert(self.children_leaves(0).contains(l));
            }
        }
    }

    /// The full topics of all nodes whose leaf name contains the word.
    pub open spec fn matching_topics(self, word: Seq<char>) -> Set<Seq<char>> {
        Set::new(
            |p: Seq<char>|
                exists|i: int|
                    self.valid_id(i) && crate::text::contains_seq(#[trigger] self.leaf_of(i), word)
                        && self.topic_of(i) == p,
        )
    }

    /// Every entry of the search over slots below `n` is the topic of
    /// some node whose leaf contains the word.
    pub proof fn lemma_search_upto_only(self, word: Seq<char>, n: int)
        requires
            self.wf(),
            n <= self.node_count(),
        ensures
            forall|x: int|
                0 <= x < self.search_upto(word, n).len() ==> self.matching_topics(word).contains(
                    #[trigger] self.search_upto(word, n)[x],
                ),
        decreases n,
    {
        if n <= 1 {
            assert(self.search_upto(word, n).len() == 0);
        } else {
            self.lemma_search_upto_only(word, n - 1);
            assert forall|x: int| 0 <= x < self.search_upto(word, n).len() implies self
                .matching_topics(word)
                .contains(#[trigger] self.search_upto(word, n)[x]) by {
                if x < self.search_upto(word, n - 1).len() {
                    assert(self.search_upto(word, n)[x] == self.search_upto(word, n - 1)[x]);
                    assert(self.matching_topics(word).contains(self.search_upto(word, n - 1)[x]));
                } else {
                    assert(crate::text::contains_seq(self.leaf_of(n - 1), word));
                    assert(self.search_upto(word, n)[x] == self.topic_of(n - 1));
                    assert(self.valid_id(n - 1));
                    assert(self.matching_topics(word).contains(self.topic_of(n - 1)));
                }
            }
        }
    }

    /// The concrete values of the example's topic literals: their
    /// splits, their distinctness, and the order of the two root
    /// leaves.
    proof fn lemma_example_literals()
        ensures
            split_char("test"@, '/') == seq!["test"@],
            split_char("foo/test"@, '/') == seq!["foo"@, "test"@],
            split_char("foo/bar"@, '/') == seq!["foo"@, "bar"@],
            "test"@ != "foo/test"@,
            "test"@ != "foo/bar"@,
            "foo/test"@ != "foo/bar"@,
            "foo"@ != "test"@,
            lex_lt("foo"@, "test"@),
    {
        reveal_strlit("test");
        reveal_strlit("foo/test");
        reveal_strlit("foo/bar");
        reveal_strlit("foo");
        reveal_strlit("bar");
        assert("test"@.len() == 4);
        assert("foo"@.len() == 3);
        assert("bar"@.len() == 3);
        assert("foo/test"@.len() == 8);
        assert("foo/bar"@.len() == 7);
        assert(!has_char("test"@, '/')) by {
            if has_char("test"@, '/') {
                let i = choose|i: int| 0 <= i < "test"@.len() && "test"@[i] == '/';
                assert(i == 0 || i == 1 || i == 2 || i == 3);
            }
        }
        assert(!has_char("foo"@, '/')) by {
            if has_char("foo"@, '/') {
                let i = choose|i: int| 0 <= i < "foo"@.len() && "foo"@[i] == '/';
                assert(i == 0 || i == 1 || i == 2);
            }
        }
        assert(!has_char("bar"@, '/')) by {
            if has_char("bar"@, '/') {
                let i = choose|i: int| 0 <= i < "bar"@.len() && "bar"@[i] == '/';
                assert(i == 0 || i == 1 || i == 2);
            }
        }
        assert forall|k: int| 0 <= k < 1 implies !has_char(#[trigger] seq!["test"@][k], '/') by {
            assert(seq!["test"@][k] == "test"@);
        }
        lemma_split_join(seq!["test"@], '/');
        assert(join_char(seq!["test"@], '/') == "test"@);

        let ft = seq!["foo"@, "test"@];
        assert forall|k: int| 0 <= k < 2 implies !has_char(#[trigger] ft[k], '/') by {
            if k == 0 {
                assert(ft[k] == "foo"@);
            } else {
                assert(ft[k] == "test"@);
            }
        }
        lemma_split_join(ft, '/');
        assert(ft.drop_first() =~= seq!["test"@]);
        assert(join_char(ft, '/') == "foo"@ + seq!['/'] + "test"@);
        assert("foo"@ + seq!['/'] + "test"@ =~= "foo/test"@);

        let fb = seq!["foo"@, "bar"@];
        assert forall|k: int| 0 <= k < 2 implies !has_char(#[trigger] fb[k], '/') by {
            if k == 0 {
                assert(fb[k] == "foo"@);
            } else {
                assert(fb[k] == "bar"@);
            }
        }
        lemma_split_join(fb, '/');
        assert(fb.drop_first() =~= seq!["bar"@]);
        assert(join_char(seq!["bar"@], '/') == "bar"@);
        assert(join_char(fb, '/') == "foo"@ + seq!['/'] + "bar"@);
        assert("foo"@ + seq!['/'] + "bar"@ =~= "foo/bar"@);

        assert(("foo"@[0] as u32) < ("test"@[0] as u32));
        assert(lex_lt("foo"@, "test"@));
    }

    /// A small example tree: two messages on `test`, one each on
    /// `foo/test` and `foo/bar` — and nothing else: exactly those
    /// three topics exist, and the root's children are `foo` and
    /// `test`, in that order.
    pub fn example() -> (r: MqttHistory)
        ensures
            r.wf(),
            r.has_topic("test"@),
            r.has_topic("foo/test"@),
            r.has_topic("foo/bar"@),
            r.history_at("test"@).len() == 2,
            r.history_at("foo/test"@).len() == 1,
            r.history_at("foo/bar"@).len() == 1,
            forall|t: Seq<char>|
                #[trigger] r.has_topic(t) <==> (t == "test"@ || t == "foo/test"@ || t
                    == "foo/bar"@),
            r.children_leaves(0) == seq!["foo"@, "test"@],
    {
        proof {
            Self::lemma_example_literals();
        }
        let mut history = MqttHistory::new();
        history.add("test", HistoryEntry::new("A".as_bytes_vec(), 0));
        history.add("foo/test", HistoryEntry::new("B".as_bytes_vec(), 1));
        history.add("test", HistoryEntry::new("C".as_bytes_vec(), 2));
        history.add("foo/bar", HistoryEntry::new("D".as_bytes_vec(), 3));
        proof {
            history.lemma_root_children_unit_paths();
            let st = split_char("test"@, '/');
            let sft = split_char("foo/test"@, '/');
            let sfb = split_char("foo/bar"@, '/');
            assert forall|l: Seq<char>| #[trigger] history.children_leaves(0).contains(l) <==> (l
                == "foo"@ || l == "test"@) by {
                if history.paths().contains(seq![l]) {
                    if prefix_paths(st).contains(seq![l]) {
                        let k = choose|k: int| 1 <= k <= st.len() && seq![l] == #[trigger] st.take(k);
                        assert(st.take(k).len() == k);
                        assert(st.take(1) =~= seq![st[0]]);
                        assert(l == "test"@);
                    }
                    if prefix_paths(sft).contains(seq![l]) {
                        let k = choose|k: int|
                            1 <= k <= sft.len() && seq![l] == #[trigger] sft.take(k);
                        assert(sft.take(k).len() == k);
                        assert(sft.take(1) =~= seq![sft[0]]);
                        assert(l == "foo"@);
                    }
                    if prefix_paths(sfb).contains(seq![l]) {
                        let k = choose|k: int|
                            1 <= k <= sfb.len() && seq![l] == #[trigger] sfb.take(k);
                        assert(sfb.take(k).len() == k);
                        assert(sfb.take(1) =~= seq![sfb[0]]);
                        assert(l == "foo"@);
                    }
                }
                if l == "foo"@ {
                    assert(sft.take(1) =~= seq!["foo"@]);
                    assert(prefix_paths(sft).contains(seq![l]));
                    assert(history.paths().contains(seq![l]));
                }
                if l == "test"@ {
                    assert(st.take(1) =~= seq!["test"@]);
                    assert(prefix_paths(st).contains(seq![l]));
                    assert(history.paths().contains(seq![l]));
                }
            }
            history.lemma_children_leaves_sorted(0);
            let target = seq!["foo"@, "test"@];
            assert forall|j1: int, j2: int| 0 <= j1 < j2 < target.len() implies lex_lt(
                #[trigger] target[j1],
                #[trigger] target[j2],
            ) by {
                assert(target[0] == "foo"@ && target[1] == "test"@);
            }
            assert forall|l: Seq<char>| history.children_leaves(0).contains(l) == target.contains(
                l,
            ) by {
                if target.contains(l) {
                    let x = choose|x: int| 0 <= x < target.len() && target[x] == l;
                    assert(x == 0 || x == 1);
                }
                if l == "foo"@ || l == "test"@ {
                    assert(target[0] == "foo"@ && target[1] == "test"@);
                    assert(target.contains(l));
                }
            }
            lemma_strictly_sorted_same_members(history.children_leaves(0), target);
        }
        history
    }
}

/// The working values of one projection step: a node's own message
/// count, the aggregates below it, and its projected item.
struct RecursiveTreeItemGenerator {
    messages: usize,
    messages_below: usize,
    topics_below: usize,
    tree_item: TreeItemData,
}

/// The entries of `ts` that the query filter keeps, in order.
pub open spec fn filter_query(q: Seq<Seq<char>>, ts: Seq<Seq<char>>) -> Seq<Seq<char>>
    decreases ts.len(),
{
    if ts.len() == 0 {
        Seq::empty()
    } else {
        filter_query(q, ts.drop_last()) + (if query_keeps(q, ts.last()) {
            seq![ts.last()]
        } else {
            Seq::empty()
        })
    }
}

} // verus!
