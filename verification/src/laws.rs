//! Laws of the engine, stated and proved over the public
//! specifications: insertion determinism, index/tree consistency,
//! cursor clamping, close-at-root behaviour, and the reach of search.

use crate::controller::close_rel;
use crate::overview::{
    last_sep, lemma_last_sep, select_rel, spec_parent, CursorMove, TopicOverview,
};
use crate::text::{contains_seq, has_char, join_char, lemma_strictly_sorted_same_members};
use crate::tree::MqttHistory;
use vstd::prelude::*;

verus! {

/// Insertion determinism: a node's children order is a function of
/// which leaf names exist below it, never of the order in which the
/// topics were inserted. Any two well-formed trees whose nodes hold
/// the same set of child leaves hold them in the same order.
pub proof fn lemma_insertion_deterministic(
    t1: MqttHistory,
    t2: MqttHistory,
    i1: int,
    i2: int,
)
    requires
        t1.wf(),
        t2.wf(),
        0 <= i1 < t1.node_count(),
        0 <= i2 < t2.node_count(),
        forall|l: Seq<char>|
            t1.children_leaves(i1).contains(l) == t2.children_leaves(i2).contains(l),
    ensures
        t1.children_leaves(i1) == t2.children_leaves(i2),
{
    t1.lemma_children_leaves_sorted(i1);
    t2.lemma_children_leaves_sorted(i2);
    lemma_strictly_sorted_same_members(t1.children_leaves(i1), t2.children_leaves(i2));
}

/// Index/tree consistency: every topic the index knows names a real
/// node, and walking the parent links back from that node (the root
/// excluded) reconstructs exactly the topic string.
pub proof fn lemma_index_reconstructs_topic(t: MqttHistory, topic: Seq<char>)
    requires
        t.wf(),
        t.has_topic(topic),
    ensures
        t.index_lookup(topic) matches Some(id) && t.valid_id(id) && join_char(
            t.path_of(id),
            '/',
        ) == topic,
{
    t.lemma_index_valid(topic);
    let id = t.index_lookup(topic)->Some_0;
    t.lemma_topic_is_join(id);
}

/// Cursor clamping: an absolute move to the largest possible index
/// always lands on the last element of a non-empty visible list.
pub proof fn lemma_cursor_clamps_to_end(
    o: TopicOverview,
    n: TopicOverview,
    vs: Seq<Seq<char>>,
    different: bool,
)
    requires
        select_rel(o, n, vs, CursorMove::Absolute(usize::MAX), different),
        1 <= vs.len() <= usize::MAX,
    ensures
        n.selected() == Some(vs.last()),
{
}

/// Cursor clamping: one step down with no prior selection lands on
/// the first element.
pub proof fn lemma_first_step_down(
    o: TopicOverview,
    n: TopicOverview,
    vs: Seq<Seq<char>>,
    different: bool,
)
    requires
        select_rel(o, n, vs, CursorMove::OneDown, different),
        o.selected() is None,
        vs.len() >= 1,
    ensures
        n.selected() == Some(vs[0]),
{
}

/// Closing a root-level topic that is not expanded never panics and
/// never selects an invalid topic: the opened set stays as it was,
/// the selection is simply cleared, and closing again changes
/// nothing at all.
pub proof fn lemma_close_at_root_idempotent(
    o: TopicOverview,
    n1: TopicOverview,
    n2: TopicOverview,
    t: Seq<char>,
)
    requires
        o.selected() == Some(t),
        !o.opened().contains(t),
        !has_char(t, '/'),
        close_rel(o, n1),
        close_rel(n1, n2),
    ensures
        n1.opened() == o.opened(),
        n1.selected() is None,
        n2 == n1,
{
    lemma_last_sep(t);
    if last_sep(t) >= 0 {
        assert(has_char(t, '/'));
    }
    assert(spec_parent(t) is None);
}

/// Search never crosses a segment boundary: a word holding the
/// separator cannot occur inside any leaf name, so it matches
/// nothing.
pub proof fn lemma_search_slash_never_matches(t: MqttHistory, word: Seq<char>)
    requires
        t.wf(),
        has_char(word, '/'),
    ensures
        t.spec_search(word).len() == 0,
{
    t.lemma_search_upto_empty(word, t.node_count());
}

/// Search reaches every match: the full reconstructed path of any
/// node whose leaf name contains the word stands in the result.
pub proof fn lemma_search_finds_match(t: MqttHistory, word: Seq<char>, i: int)
    requires
        t.wf(),
        t.valid_id(i),
        contains_seq(t.leaf_of(i), word),
    ensures
        t.spec_search(word).contains(t.topic_of(i)),
{
    t.lemma_valid_id_below_count(i);
    t.lemma_search_upto_finds(word, i, t.node_count());
}

/// Search returns only matches: every path in the result is the full
/// reconstructed topic of some node whose leaf name contains the
/// word.
pub proof fn lemma_search_only_matches(t: MqttHistory, word: Seq<char>)
    requires
        t.wf(),
    ensures
        forall|x: int|
            0 <= x < t.spec_search(word).len() ==> t.matching_topics(word).contains(
                #[trigger] t.spec_search(word)[x],
            ),
{
    t.lemma_search_upto_only(word, t.node_count());
}

} // verus!
