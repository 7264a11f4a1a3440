//! Properties of the loader that hold for every state and event.

use vstd::prelude::*;

use crate::event::Event;
use crate::loader::{
    LoaderState, accepts, can_insert, initial_state, insert_node, load_events, run, step,
};
use crate::resolve::scalar_tree;
use crate::value::{Tree, hash_insert};

verus! {

/// An anchored node is recorded as it was when it closed.
pub proof fn lemma_anchor_records_node(st: LoaderState, node: Tree, aid: usize)
    requires
        aid > 0,
    ensures
        insert_node(st, node, aid).anchors.contains_key(aid),
        insert_node(st, node, aid).anchors[aid] == node,
{
}

/// An alias to a recorded anchor places a node equal to the anchored one, unanchored.
pub proof fn lemma_alias_copies_anchor(st: LoaderState, id: usize)
    requires
        st.anchors.contains_key(id),
    ensures
        step(st, Event::Alias(id)) == insert_node(st, st.anchors[id], 0),
{
}

/// An alias to an unknown anchor places `BadValue`, and is accepted wherever any node could
/// be placed: the load goes on.
pub proof fn lemma_unknown_alias_is_bad_value(st: LoaderState, id: usize)
    requires
        !st.anchors.contains_key(id),
    ensures
        step(st, Event::Alias(id)) == insert_node(st, Tree::BadValue, 0),
        accepts(st, Event::Alias(id)) == can_insert(st),
{
}

/// A document end with nothing open adds one `BadValue` document.
pub proof fn lemma_empty_document_is_bad_value(st: LoaderState)
    requires
        st.doc_stack.len() == 0,
    ensures
        accepts(st, Event::DocumentEnd),
        step(st, Event::DocumentEnd).docs == st.docs.push(Tree::BadValue),
        step(st, Event::DocumentEnd).doc_stack.len() == 0,
{
}

/// Events that carry no structure change nothing.
pub proof fn lemma_markers_change_nothing(st: LoaderState)
    ensures
        step(st, Event::StreamStart) == st,
        step(st, Event::StreamEnd) == st,
        step(st, Event::DocumentStart) == st,
        step(st, Event::Nothing) == st,
{
}

/// The state after a stream from a given state, or `None` where some event is not accepted.
pub open spec fn run_from(st: LoaderState, evs: Seq<Event>) -> Option<LoaderState>
    decreases evs.len(),
{
    if evs.len() == 0 {
        Some(st)
    } else if accepts(st, evs[0]) {
        run_from(step(st, evs[0]), evs.drop_first())
    } else {
        None
    }
}

pub proof fn lemma_run_from_concat(st: LoaderState, a: Seq<Event>, b: Seq<Event>)
    ensures
        run_from(st, a + b) == match run_from(st, a) {
            Some(s) => run_from(s, b),
            None => None,
        },
    decreases a.len(),
{
    if a.len() == 0 {
        assert(a + b =~= b);
    } else {
        assert((a + b).drop_first() =~= a.drop_first() + b);
        assert((a + b)[0] == a[0]);
        if accepts(st, a[0]) {
            lemma_run_from_concat(step(st, a[0]), a.drop_first(), b);
        }
    }
}

pub proof fn lemma_run_from_single(st: LoaderState, e: Event)
    ensures
        run_from(st, seq![e]) == if accepts(st, e) {
            Some(step(st, e))
        } else {
            None
        },
{
    assert(seq![e].drop_first() =~= Seq::<Event>::empty());
    assert(run_from(step(st, e), Seq::<Event>::empty()) == Some(step(st, e)));
}

pub proof fn lemma_run_is_run_from(evs: Seq<Event>)
    ensures
        run(evs) == run_from(initial_state(), evs),
    decreases evs.len(),
{
    if evs.len() > 0 {
        let e = evs.last();
        lemma_run_is_run_from(evs.drop_last());
        lemma_run_from_concat(initial_state(), evs.drop_last(), seq![e]);
        assert(evs.drop_last() + seq![e] =~= evs);
        if let Some(s) = run(evs.drop_last()) {
            lemma_run_from_single(s, e);
        }
    }
}

/// The nesting of a document built of sequences, mappings and one kind of scalar.
pub enum Shape {
    Leaf,
    List(Seq<Shape>),
    Dict(Seq<(Shape, Shape)>),
}

/// The events of a shape: each leaf is the scalar event `leaf`; nothing is anchored or tagged.
pub open spec fn shape_events(sh: Shape, leaf: Event) -> Seq<Event>
    decreases sh,
{
    match sh {
        Shape::Leaf => seq![leaf],
        Shape::List(cs) => seq![Event::SequenceStart(0)] + list_events(cs, leaf) + seq![
            Event::SequenceEnd,
        ],
        Shape::Dict(ps) => seq![Event::MappingStart(0)] + dict_events(ps, leaf) + seq![
            Event::MappingEnd,
        ],
    }
}

pub open spec fn list_events(cs: Seq<Shape>, leaf: Event) -> Seq<Event>
    decreases cs,
{
    if cs.len() == 0 {
        Seq::empty()
    } else {
        list_events(cs.drop_last(), leaf) + shape_events(cs.last(), leaf)
    }
}

pub open spec fn dict_events(ps: Seq<(Shape, Shape)>, leaf: Event) -> Seq<Event>
    decreases ps,
{
    if ps.len() == 0 {
        Seq::empty()
    } else {
        dict_events(ps.drop_last(), leaf) + shape_events(ps.last().0, leaf) + shape_events(
            ps.last().1,
            leaf,
        )
    }
}

/// The tree of a shape built directly: each leaf is `leaf`, a list is an array of its items,
/// and a dict is the mapping that inserting its pairs in order gives.
pub open spec fn shape_tree(sh: Shape, leaf: Tree) -> Tree
    decreases sh,
{
    match sh {
        Shape::Leaf => leaf,
        Shape::List(cs) => Tree::Array(list_trees(cs, leaf)),
        Shape::Dict(ps) => Tree::Hash(dict_entries(ps, leaf)),
    }
}

pub open spec fn list_trees(cs: Seq<Shape>, leaf: Tree) -> Seq<Tree>
    decreases cs,
{
    if cs.len() == 0 {
        Seq::empty()
    } else {
        list_trees(cs.drop_last(), leaf).push(shape_tree(cs.last(), leaf))
    }
}

pub open spec fn dict_entries(ps: Seq<(Shape, Shape)>, leaf: Tree) -> Seq<(Tree, Tree)>
    decreases ps,
{
    if ps.len() == 0 {
        Seq::empty()
    } else {
        hash_insert(
            dict_entries(ps.drop_last(), leaf),
            shape_tree(ps.last().0, leaf),
            shape_tree(ps.last().1, leaf),
        )
    }
}

/// `st` with its innermost open node replaced.
pub open spec fn with_top(st: LoaderState, node: Tree) -> LoaderState {
    LoaderState {
        docs: st.docs,
        doc_stack: st.doc_stack.update(st.doc_stack.len() - 1, (node, 0usize)),
        key_stack: st.key_stack,
        anchors: st.anchors,
    }
}

pub open spec fn plain_leaf(leaf: Event) -> bool {
    leaf matches Event::Scalar(_, _, aid, tag) && aid == 0 && tag is None
}

pub open spec fn leaf_tree(leaf: Event) -> Tree {
    match leaf {
        Event::Scalar(v, style, _, tag) => scalar_tree(v@, style, tag),
        _ => Tree::BadValue,
    }
}

proof fn lemma_shape_not_bad(sh: Shape, leaf: Event)
    requires
        plain_leaf(leaf),
    ensures
        !(shape_tree(sh, leaf_tree(leaf)) is BadValue),
{
}

proof fn lemma_shape_run(sh: Shape, leaf: Event, st: LoaderState)
    requires
        plain_leaf(leaf),
        can_insert(st),
    ensures
        run_from(st, shape_events(sh, leaf)) == Some(insert_node(st, shape_tree(sh, leaf_tree(leaf)), 0)),
    decreases sh, 0nat,
{
    let lt = leaf_tree(leaf);
    match sh {
        Shape::Leaf => {
            lemma_run_from_single(st, leaf);
        },
        Shape::List(cs) => {
            let open = step(st, Event::SequenceStart(0));
            let body = list_events(cs, leaf);
            let evs = seq![Event::SequenceStart(0)] + body + seq![Event::SequenceEnd];
            assert(evs =~= seq![Event::SequenceStart(0)] + (body + seq![Event::SequenceEnd]));
            lemma_run_from_concat(st, seq![Event::SequenceStart(0)], body + seq![Event::SequenceEnd]);
            lemma_run_from_single(st, Event::SequenceStart(0));
            lemma_run_from_concat(open, body, seq![Event::SequenceEnd]);
            lemma_list_run(cs, leaf, open);
            let closed = with_top(open, Tree::Array(list_trees(cs, lt)));
            lemma_run_from_single(closed, Event::SequenceEnd);
            assert(closed.doc_stack.drop_last() =~= st.doc_stack);
            assert(step(closed, Event::SequenceEnd) == insert_node(st, shape_tree(sh, lt), 0));
        },
        Shape::Dict(ps) => {
            let open = step(st, Event::MappingStart(0));
            let body = dict_events(ps, leaf);
            let evs = seq![Event::MappingStart(0)] + body + seq![Event::MappingEnd];
            assert(evs =~= seq![Event::MappingStart(0)] + (body + seq![Event::MappingEnd]));
            lemma_run_from_concat(st, seq![Event::MappingStart(0)], body + seq![Event::MappingEnd]);
            lemma_run_from_single(st, Event::MappingStart(0));
            lemma_run_from_concat(open, body, seq![Event::MappingEnd]);
            lemma_dict_run(ps, leaf, open);
            let closed = with_top(open, Tree::Hash(dict_entries(ps, lt)));
            lemma_run_from_single(closed, Event::MappingEnd);
            assert(closed.doc_stack.drop_last() =~= st.doc_stack);
            assert(closed.key_stack.drop_last() =~= st.key_stack);
            assert(step(closed, Event::MappingEnd) == insert_node(st, shape_tree(sh, lt), 0));
        },
    }
}

proof fn lemma_list_run(cs: Seq<Shape>, leaf: Event, st: LoaderState)
    requires
        plain_leaf(leaf),
        st.doc_stack.len() > 0,
        st.doc_stack.last() == (Tree::Array(Seq::empty()), 0usize),
    ensures
        run_from(st, list_events(cs, leaf)) == Some(
            with_top(st, Tree::Array(list_trees(cs, leaf_tree(leaf)))),
        ),
    decreases cs, 1nat,
{
    let lt = leaf_tree(leaf);
    if cs.len() == 0 {
        assert(st.doc_stack.update(st.doc_stack.len() - 1, (Tree::Array(Seq::empty()), 0usize))
            =~= st.doc_stack);
    } else {
        lemma_list_run(cs.drop_last(), leaf, st);
        let mid = with_top(st, Tree::Array(list_trees(cs.drop_last(), lt)));
        lemma_run_from_concat(st, list_events(cs.drop_last(), leaf), shape_events(cs.last(), leaf));
        lemma_shape_run(cs.last(), leaf, mid);
        assert(insert_node(mid, shape_tree(cs.last(), lt), 0).doc_stack =~= with_top(
            st,
            Tree::Array(list_trees(cs, lt)),
        ).doc_stack);
    }
}

proof fn lemma_dict_run(ps: Seq<(Shape, Shape)>, leaf: Event, st: LoaderState)
    requires
        plain_leaf(leaf),
        st.doc_stack.len() > 0,
        st.doc_stack.last() == (Tree::Hash(Seq::empty()), 0usize),
        st.key_stack.len() > 0,
        st.key_stack.last() == Tree::BadValue,
    ensures
        run_from(st, dict_events(ps, leaf)) == Some(
            with_top(st, Tree::Hash(dict_entries(ps, leaf_tree(leaf)))),
        ),
    decreases ps, 1nat,
{
    let lt = leaf_tree(leaf);
    if ps.len() == 0 {
        assert(st.doc_stack.update(st.doc_stack.len() - 1, (Tree::Hash(Seq::empty()), 0usize))
            =~= st.doc_stack);
    } else {
        let (k, v) = ps.last();
        let kt = shape_tree(k, lt);
        let vt = shape_tree(v, lt);
        let prev = dict_events(ps.drop_last(), leaf);
        lemma_dict_run(ps.drop_last(), leaf, st);
        let mid = with_top(st, Tree::Hash(dict_entries(ps.drop_last(), lt)));
        lemma_run_from_concat(st, prev + shape_events(k, leaf), shape_events(v, leaf));
        lemma_run_from_concat(st, prev, shape_events(k, leaf));
        lemma_shape_run(k, leaf, mid);
        lemma_shape_not_bad(k, leaf);
        let keyed = insert_node(mid, kt, 0);
        assert(keyed.key_stack.last() == kt);
        lemma_shape_run(v, leaf, keyed);
        let done = insert_node(keyed, vt, 0);
        assert(done.key_stack =~= st.key_stack);
        assert(done.doc_stack =~= with_top(st, Tree::Hash(dict_entries(ps, lt))).doc_stack);
    }
}

/// Loading a single document built of sequences and mappings whose scalars are one untagged,
/// unanchored scalar event gives exactly the tree built directly from the same structure.
pub proof fn lemma_structure_is_kept(sh: Shape, leaf: Event)
    requires
        plain_leaf(leaf),
    ensures
        load_events(
            seq![Event::StreamStart, Event::DocumentStart] + shape_events(sh, leaf) + seq![
                Event::DocumentEnd,
                Event::StreamEnd,
            ],
        ) == Some(seq![shape_tree(sh, leaf_tree(leaf))]),
{
    let init = initial_state();
    let head = seq![Event::StreamStart, Event::DocumentStart];
    let body = shape_events(sh, leaf);
    let tail = seq![Event::DocumentEnd, Event::StreamEnd];
    let evs = head + body + tail;
    lemma_run_is_run_from(evs);
    lemma_run_from_concat(init, head + body, tail);
    lemma_run_from_concat(init, head, body);
    assert(head =~= seq![Event::StreamStart] + seq![Event::DocumentStart]);
    lemma_run_from_concat(init, seq![Event::StreamStart], seq![Event::DocumentStart]);
    lemma_run_from_single(init, Event::StreamStart);
    lemma_run_from_single(init, Event::DocumentStart);
    assert(run_from(init, head) == Some(init));
    lemma_shape_run(sh, leaf, init);
    let rooted = insert_node(init, shape_tree(sh, leaf_tree(leaf)), 0);
    let ended = step(rooted, Event::DocumentEnd);
    assert(tail =~= seq![Event::DocumentEnd] + seq![Event::StreamEnd]);
    lemma_run_from_concat(rooted, seq![Event::DocumentEnd], seq![Event::StreamEnd]);
    lemma_run_from_single(rooted, Event::DocumentEnd);
    lemma_run_from_single(ended, Event::StreamEnd);
    assert(ended.docs =~= seq![shape_tree(sh, leaf_tree(leaf))]);
}

} // verus!
