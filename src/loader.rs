//! The stack machine that turns an event stream into documents.

use std::collections::BTreeMap;
use vstd::prelude::*;

use crate::event::Event;
use crate::resolve::{resolve_scalar, scalar_tree};
use crate::value::{
    Mapping, Tree, Yaml, hash_insert, lemma_trees_of, lemma_trees_of_push, trees_of,
};

verus! {

broadcast use vstd::std_specs::btree::group_btree_axioms, vstd::laws_cmp::group_laws_cmp;

/// The model of a loader: the finished documents, the open nodes with their anchor ids
/// (innermost last), one key slot per open mapping, and the anchored nodes.
pub struct LoaderState {
    pub docs: Seq<Tree>,
    pub doc_stack: Seq<(Tree, usize)>,
    pub key_stack: Seq<Tree>,
    pub anchors: Map<usize, Tree>,
}

pub open spec fn initial_state() -> LoaderState {
    LoaderState {
        docs: Seq::empty(),
        doc_stack: Seq::empty(),
        key_stack: Seq::empty(),
        anchors: Map::empty(),
    }
}

/// A node can be placed: there is no open mapping on top, or it has a key slot.
pub open spec fn can_insert(st: LoaderState) -> bool {
    st.doc_stack.len() == 0 || !(st.doc_stack.last().0 is Hash) || st.key_stack.len() > 0
}

/// Places a finished node: it is recorded under its anchor id (if positive), then becomes a
/// document root if nothing is open, is appended to an open sequence, or fills the key slot of
/// an open mapping (when the slot holds `BadValue`) or is stored under the pending key.
pub open spec fn insert_node(st: LoaderState, node: Tree, aid: usize) -> LoaderState {
    let anchors = if aid > 0 {
        st.anchors.insert(aid, node)
    } else {
        st.anchors
    };
    let last = st.doc_stack.len() - 1;
    let kl = st.key_stack.len() - 1;
    if st.doc_stack.len() == 0 {
        LoaderState {
            docs: st.docs,
            doc_stack: st.doc_stack.push((node, 0)),
            key_stack: st.key_stack,
            anchors,
        }
    } else {
        let top = st.doc_stack[last];
        match top.0 {
            Tree::Array(items) => LoaderState {
                docs: st.docs,
                doc_stack: st.doc_stack.update(last, (Tree::Array(items.push(node)), top.1)),
                key_stack: st.key_stack,
                anchors,
            },
            Tree::Hash(entries) => if st.key_stack[kl] is BadValue {
                LoaderState {
                    docs: st.docs,
                    doc_stack: st.doc_stack,
                    key_stack: st.key_stack.update(kl, node),
                    anchors,
                }
            } else {
                LoaderState {
                    docs: st.docs,
                    doc_stack: st.doc_stack.update(
                        last,
                        (Tree::Hash(hash_insert(entries, st.key_stack[kl], node)), top.1),
                    ),
                    key_stack: st.key_stack.update(kl, Tree::BadValue),
                    anchors,
                }
            },
            _ => LoaderState {
                docs: st.docs,
                doc_stack: st.doc_stack,
                key_stack: st.key_stack,
                anchors,
            },
        }
    }
}

pub open spec fn pop_node(st: LoaderState) -> LoaderState {
    LoaderState {
        docs: st.docs,
        doc_stack: st.doc_stack.drop_last(),
        key_stack: st.key_stack,
        anchors: st.anchors,
    }
}

pub open spec fn pop_key(st: LoaderState) -> LoaderState {
    LoaderState {
        docs: st.docs,
        doc_stack: st.doc_stack,
        key_stack: st.key_stack.drop_last(),
        anchors: st.anchors,
    }
}

/// The event can be handled in this state: a well-formed stream never breaks this.
pub open spec fn accepts(st: LoaderState, ev: Event) -> bool {
    match ev {
        Event::DocumentEnd => st.doc_stack.len() <= 1,
        Event::SequenceEnd => st.doc_stack.len() > 0 && can_insert(pop_node(st)),
        Event::MappingEnd => st.doc_stack.len() > 0 && st.key_stack.len() > 0 && can_insert(
            pop_node(pop_key(st)),
        ),
        Event::Scalar(..) => can_insert(st),
        Event::Alias(_) => can_insert(st),
        _ => true,
    }
}

/// The state after one event.
pub open spec fn step(st: LoaderState, ev: Event) -> LoaderState {
    match ev {
        Event::DocumentEnd => LoaderState {
            docs: st.docs.push(
                if st.doc_stack.len() == 0 {
                    Tree::BadValue
                } else {
                    st.doc_stack[0].0
                },
            ),
            doc_stack: Seq::empty(),
            key_stack: st.key_stack,
            anchors: st.anchors,
        },
        Event::SequenceStart(aid) => LoaderState {
            docs: st.docs,
            doc_stack: st.doc_stack.push((Tree::Array(Seq::empty()), aid)),
            key_stack: st.key_stack,
            anchors: st.anchors,
        },
        Event::MappingStart(aid) => LoaderState {
            docs: st.docs,
            doc_stack: st.doc_stack.push((Tree::Hash(Seq::empty()), aid)),
            key_stack: st.key_stack.push(Tree::BadValue),
            anchors: st.anchors,
        },
        Event::SequenceEnd => {
            let top = st.doc_stack.last();
            insert_node(pop_node(st), top.0, top.1)
        },
        Event::MappingEnd => {
            let top = st.doc_stack.last();
            insert_node(pop_node(pop_key(st)), top.0, top.1)
        },
        Event::Scalar(v, style, aid, tag) => insert_node(st, scalar_tree(v@, style, tag), aid),
        Event::Alias(id) => insert_node(
            st,
            if st.anchors.contains_key(id) {
                st.anchors[id]
            } else {
                Tree::BadValue
            },
            0,
        ),
        _ => st,
    }
}

/// The state after a whole stream from the start, or `None` where some event is not accepted.
pub open spec fn run(evs: Seq<Event>) -> Option<LoaderState>
    decreases evs.len(),
{
    if evs.len() == 0 {
        Some(initial_state())
    } else {
        match run(evs.drop_last()) {
            Some(st) => if accepts(st, evs.last()) {
                Some(step(st, evs.last()))
            } else {
                None
            },
            None => None,
        }
    }
}

/// The documents of a stream, or `None` where the stream is not well formed.
pub open spec fn load_events(evs: Seq<Event>) -> Option<Seq<Tree>> {
    match run(evs) {
        Some(st) => Some(st.docs),
        None => None,
    }
}

/// Builds documents from events.
pub struct YamlLoader {
    docs: Vec<Yaml>,
    /// Open nodes with their anchor ids, innermost last.
    doc_stack: Vec<(Yaml, usize)>,
    /// One key slot per open mapping; `BadValue` while waiting for a key.
    key_stack: Vec<Yaml>,
    anchor_map: BTreeMap<usize, Yaml>,
}

pub open spec fn stack_model(s: Seq<(Yaml, usize)>) -> Seq<(Tree, usize)> {
    s.map_values(|p: (Yaml, usize)| (p.0@, p.1))
}

pub open spec fn anchors_model(m: Map<usize, Yaml>) -> Map<usize, Tree> {
    m.map_values(|y: Yaml| y@)
}

impl View for YamlLoader {
    type V = LoaderState;

    closed spec fn view(&self) -> LoaderState {
        LoaderState {
            docs: trees_of(self.docs@),
            doc_stack: stack_model(self.doc_stack@),
            key_stack: trees_of(self.key_stack@),
            anchors: anchors_model(self.anchor_map@),
        }
    }
}

proof fn lemma_key_stack_pop(ks: Seq<Yaml>)
    requires
        ks.len() > 0,
    ensures
        trees_of(ks.drop_last()) == trees_of(ks).drop_last(),
        trees_of(ks).last() == ks.last()@,
        trees_of(ks).len() == ks.len(),
{
    lemma_trees_of(ks);
    lemma_trees_of(ks.drop_last());
    assert(trees_of(ks.drop_last()) =~= trees_of(ks).drop_last());
}

proof fn lemma_run_stops(evs: Seq<Event>, j: int)
    requires
        0 <= j <= evs.len(),
        run(evs.take(j)) is None,
    ensures
        run(evs) is None,
    decreases evs.len() - j,
{
    if j < evs.len() {
        assert(evs.take(j + 1).drop_last() =~= evs.take(j));
        lemma_run_stops(evs, j + 1);
    } else {
        assert(evs.take(j) =~= evs);
    }
}

impl YamlLoader {
    /// A loader with no documents, nothing open and no anchors.
    pub fn new() -> (r: YamlLoader)
        ensures
            r@ == initial_state(),
    {
        let r = YamlLoader {
            docs: Vec::new(),
            doc_stack: Vec::new(),
            key_stack: Vec::new(),
            anchor_map: BTreeMap::new(),
        };
        assert(r@.docs =~= Seq::<Tree>::empty());
        assert(r@.doc_stack =~= Seq::<(Tree, usize)>::empty());
        assert(r@.key_stack =~= Seq::<Tree>::empty());
        assert(r@.anchors =~= Map::<usize, Tree>::empty());
        r
    }

    /// The documents finished so far.
    pub fn into_documents(self) -> (r: Vec<Yaml>)
        ensures
            trees_of(r@) == self@.docs,
    {
        self.docs
    }

    /// Places a finished node; see `insert_node`.
    fn insert_new_node(&mut self, node: Yaml, aid: usize)
        requires
            can_insert(old(self)@),
        ensures
            final(self)@ == insert_node(old(self)@, node@, aid),
    {
        let ghost st = self@;
        let ghost target = insert_node(st, node@, aid);
        if aid > 0 {
            let c = node.duplicate();
            self.anchor_map.insert(aid, c);
            assert(anchors_model(self.anchor_map@) =~= st.anchors.insert(aid, node@));
        }
        assert(anchors_model(self.anchor_map@) == target.anchors);
        let n = self.doc_stack.len();
        if n == 0 {
            self.doc_stack.push((node, 0));
            assert(stack_model(self.doc_stack@) =~= target.doc_stack);
            return;
        }
        let ghost last = n - 1;
        let top = self.doc_stack.pop();
        proof {
            assert(stack_model(self.doc_stack@) =~= st.doc_stack.drop_last());
        }
        match top {
            Some((Yaml::Array(mut items), paid)) => {
                proof {
                    lemma_trees_of_push(items@, node);
                }
                items.push(node);
                self.doc_stack.push((Yaml::Array(items), paid));
                assert(stack_model(self.doc_stack@) =~= target.doc_stack);
            },
            Some((Yaml::Hash(mut h), paid)) => {
                let ghost ks = self.key_stack@;
                proof {
                    lemma_key_stack_pop(ks);
                }
                let key = self.key_stack.pop();
                match key {
                    Some(Yaml::BadValue) => {
                        proof {
                            lemma_trees_of_push(self.key_stack@, node);
                        }
                        self.key_stack.push(node);
                        assert(trees_of(self.key_stack@) =~= target.key_stack);
                    },
                    Some(k) => {
                        h.insert(k, node);
                        proof {
                            lemma_trees_of_push(self.key_stack@, Yaml::BadValue);
                        }
                        self.key_stack.push(Yaml::BadValue);
                        assert(trees_of(self.key_stack@) =~= target.key_stack);
                    },
                    None => {},
                }
                self.doc_stack.push((Yaml::Hash(h), paid));
                assert(stack_model(self.doc_stack@) =~= target.doc_stack);
            },
            Some((other, paid)) => {
                self.doc_stack.push((other, paid));
                assert(stack_model(self.doc_stack@) =~= target.doc_stack);
            },
            None => {},
        }
    }

    /// Whether the next event can be handled; see `accepts`.
    pub fn accepts_event(&self, ev: &Event) -> (r: bool)
        ensures
            r == accepts(self@, *ev),
    {
        proof {
            lemma_trees_of(self.key_stack@);
        }
        let n = self.doc_stack.len();
        let k = self.key_stack.len();
        match ev {
            Event::DocumentEnd => n <= 1,
            Event::SequenceEnd => {
                if n == 0 {
                    return false;
                }
                assert(pop_node(self@).doc_stack =~= stack_model(self.doc_stack@.drop_last()));
                n == 1 || !matches!(self.doc_stack[n - 2].0, Yaml::Hash(_)) || k > 0
            },
            Event::MappingEnd => {
                if n == 0 || k == 0 {
                    return false;
                }
                assert(pop_node(pop_key(self@)).doc_stack =~= stack_model(
                    self.doc_stack@.drop_last(),
                ));
                n == 1 || !matches!(self.doc_stack[n - 2].0, Yaml::Hash(_)) || k > 1
            },
            Event::Scalar(..) | Event::Alias(_) => n == 0 || !matches!(
                self.doc_stack[n - 1].0,
                Yaml::Hash(_),
            ) || k > 0,
            _ => true,
        }
    }

    /// Handles one event; see `step`.
    pub fn on_event(&mut self, ev: &Event)
        requires
            accepts(old(self)@, *ev),
        ensures
            final(self)@ == step(old(self)@, *ev),
    {
        let ghost st = self@;
        let ghost target = step(st, *ev);
        match ev {
            Event::DocumentEnd => {
                proof {
                    lemma_trees_of(self.docs@);
                }
                if self.doc_stack.len() == 0 {
                    proof {
                        lemma_trees_of_push(self.docs@, Yaml::BadValue);
                    }
                    self.docs.push(Yaml::BadValue);
                } else {
                    let top = self.doc_stack.pop();
                    match top {
                        Some((node, _)) => {
                            proof {
                                lemma_trees_of_push(self.docs@, node);
                            }
                            self.docs.push(node);
                        },
                        None => {},
                    }
                }
                assert(stack_model(self.doc_stack@) =~= target.doc_stack);
            },
            Event::SequenceStart(aid) => {
                self.doc_stack.push((Yaml::Array(Vec::new()), *aid));
                assert(stack_model(self.doc_stack@) =~= target.doc_stack);
            },
            Event::MappingStart(aid) => {
                self.doc_stack.push((Yaml::Hash(Mapping::new()), *aid));
                proof {
                    lemma_trees_of_push(self.key_stack@, Yaml::BadValue);
                }
                self.key_stack.push(Yaml::BadValue);
                assert(stack_model(self.doc_stack@) =~= target.doc_stack);
            },
            Event::SequenceEnd => {
                let top = self.doc_stack.pop();
                assert(stack_model(self.doc_stack@) =~= pop_node(st).doc_stack);
                match top {
                    Some((node, aid)) => self.insert_new_node(node, aid),
                    None => {},
                }
            },
            Event::MappingEnd => {
                proof {
                    lemma_key_stack_pop(self.key_stack@);
                }
                let _slot = self.key_stack.pop();
                let top = self.doc_stack.pop();
                assert(stack_model(self.doc_stack@) =~= pop_node(st).doc_stack);
                match top {
                    Some((node, aid)) => self.insert_new_node(node, aid),
                    None => {},
                }
            },
            Event::Scalar(v, style, aid, tag) => {
                let node = resolve_scalar(v.clone(), style, tag);
                self.insert_new_node(node, *aid);
            },
            Event::Alias(id) => {
                let node = match self.anchor_map.get(id) {
                    Some(n) => n.duplicate(),
                    None => Yaml::BadValue,
                };
                self.insert_new_node(node, 0);
            },
            _ => {},
        }
    }
}

impl Default for YamlLoader {
    fn default() -> (r: YamlLoader)
        ensures
            r@ == initial_state(),
    {
        YamlLoader::new()
    }
}

/// Builds the documents of an event stream, or `None` where the stream is not well formed.
pub fn load_from_events(events: &Vec<Event>) -> (r: Option<Vec<Yaml>>)
    ensures
        match r {
            Some(d) => load_events(events@) == Some(trees_of(d@)),
            None => load_events(events@) is None,
        },
{
    let mut loader = YamlLoader::new();
    let mut i: usize = 0;
    assert(events@.take(0) =~= Seq::<Event>::empty());
    while i < events.len()
        invariant
            i <= events@.len(),
            run(events@.take(i as int)) == Some(loader@),
        decreases events@.len() - i,
    {
        assert(events@.take(i + 1).drop_last() =~= events@.take(i as int));
        if !loader.accepts_event(&events[i]) {
            proof {
                lemma_run_stops(events@, i + 1);
            }
            return None;
        }
        loader.on_event(&events[i]);
        i += 1;
    }
    assert(events@.take(i as int) =~= events@);
    Some(loader.into_documents())
}

} // verus!
