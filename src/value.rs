//! The document tree: executable nodes and their mathematical model.

use vstd::prelude::*;

verus! {

broadcast use vstd::std_specs::vec::group_vec_axioms;

/// The mathematical model of a YAML node.
pub enum Tree {
    Null,
    Boolean(bool),
    Integer(i64),
    /// A float, kept as its original text.
    Real(Seq<char>),
    Str(Seq<char>),
    Array(Seq<Tree>),
    /// Entries in insertion order; keys are unique.
    Hash(Seq<(Tree, Tree)>),
    BadValue,
}

/// A YAML node.
#[derive(Debug, PartialEq, Eq, Hash)]
pub enum Yaml {
    /// A float, kept as its original text so that its formatting survives.
    Real(String),
    Integer(i64),
    String(String),
    Boolean(bool),
    Array(Vec<Yaml>),
    Hash(Mapping),
    Null,
    /// Absent, malformed or unresolved content.
    BadValue,
}

/// An ordered mapping from nodes to nodes: insertion order is kept and keys are unique.
#[derive(Debug, PartialEq, Eq, Hash)]
pub struct Mapping {
    entries: Vec<(Yaml, Yaml)>,
}

pub open spec fn tree_of(y: Yaml) -> Tree
    decreases y,
{
    match y {
        Yaml::Real(s) => Tree::Real(s@),
        Yaml::Integer(i) => Tree::Integer(i),
        Yaml::String(s) => Tree::Str(s@),
        Yaml::Boolean(b) => Tree::Boolean(b),
        Yaml::Array(v) => Tree::Array(trees_of(v@)),
        Yaml::Hash(h) => Tree::Hash(h.model()),
        Yaml::Null => Tree::Null,
        Yaml::BadValue => Tree::BadValue,
    }
}

pub open spec fn trees_of(s: Seq<Yaml>) -> Seq<Tree>
    decreases s,
{
    if s.len() == 0 {
        Seq::empty()
    } else {
        trees_of(s.drop_last()).push(tree_of(s.last()))
    }
}

pub open spec fn pairs_of(s: Seq<(Yaml, Yaml)>) -> Seq<(Tree, Tree)>
    decreases s,
{
    if s.len() == 0 {
        Seq::empty()
    } else {
        pairs_of(s.drop_last()).push((tree_of(s.last().0), tree_of(s.last().1)))
    }
}

impl View for Yaml {
    type V = Tree;

    open spec fn view(&self) -> Tree {
        tree_of(*self)
    }
}

impl View for Mapping {
    type V = Seq<(Tree, Tree)>;

    open spec fn view(&self) -> Seq<(Tree, Tree)> {
        self.model()
    }
}

/// The position of the entry whose key is `k`, or -1 where there is none.
pub open spec fn key_pos(h: Seq<(Tree, Tree)>, k: Tree) -> int
    decreases h.len(),
{
    if h.len() == 0 {
        -1
    } else if h.last().0 == k {
        h.len() - 1
    } else {
        key_pos(h.drop_last(), k)
    }
}

/// Inserting into an ordered mapping: a new key goes to the back; an existing key has its
/// value replaced and its entry moved to the back.
pub open spec fn hash_insert(h: Seq<(Tree, Tree)>, k: Tree, v: Tree) -> Seq<(Tree, Tree)> {
    let i = key_pos(h, k);
    if i < 0 {
        h.push((k, v))
    } else {
        h.remove(i).push((k, v))
    }
}

pub open spec fn keys_unique(h: Seq<(Tree, Tree)>) -> bool {
    forall|i: int, j: int|
        0 <= i < h.len() && 0 <= j < h.len() && i != j ==> #[trigger] h[i].0 != #[trigger] h[j].0
}

pub broadcast proof fn lemma_trees_of(s: Seq<Yaml>)
    ensures
        #[trigger] trees_of(s).len() == s.len(),
        forall|i: int| 0 <= i < s.len() ==> #[trigger] trees_of(s)[i] == tree_of(s[i]),
    decreases s.len(),
{
    if s.len() > 0 {
        lemma_trees_of(s.drop_last());
    }
}

pub broadcast proof fn lemma_pairs_of(s: Seq<(Yaml, Yaml)>)
    ensures
        #[trigger] pairs_of(s).len() == s.len(),
        forall|i: int|
            0 <= i < s.len() ==> #[trigger] pairs_of(s)[i] == (tree_of(s[i].0), tree_of(s[i].1)),
    decreases s.len(),
{
    if s.len() > 0 {
        lemma_pairs_of(s.drop_last());
    }
}

pub proof fn lemma_key_pos(h: Seq<(Tree, Tree)>, k: Tree)
    ensures
        -1 <= key_pos(h, k) < h.len(),
        key_pos(h, k) >= 0 ==> h[key_pos(h, k)].0 == k,
        key_pos(h, k) < 0 ==> forall|i: int| 0 <= i < h.len() ==> #[trigger] h[i].0 != k,
    decreases h.len(),
{
    if h.len() > 0 {
        lemma_key_pos(h.drop_last(), k);
        assert forall|i: int| 0 <= i < h.len() - 1 implies h.drop_last()[i] == #[trigger] h[i] by {}
    }
}

/// Inserting into an ordered mapping keeps its keys unique.
pub proof fn lemma_insert_keeps_keys_unique(h: Seq<(Tree, Tree)>, k: Tree, v: Tree)
    requires
        keys_unique(h),
    ensures
        keys_unique(hash_insert(h, k, v)),
{
    lemma_key_pos(h, k);
    let i = key_pos(h, k);
    let r = hash_insert(h, k, v);
    if i >= 0 {
        let m = h.remove(i);
        assert forall|a: int| 0 <= a < m.len() implies #[trigger] m[a].0 != k by {
            if a < i {
                assert(m[a] == h[a]);
            } else {
                assert(m[a] == h[a + 1]);
            }
        }
        assert forall|a: int, b: int|
            0 <= a < r.len() && 0 <= b < r.len() && a != b implies #[trigger] r[a].0
            != #[trigger] r[b].0 by {
            if a < m.len() && b < m.len() {
                let ha = if a < i { a } else { a + 1 };
                let hb = if b < i { b } else { b + 1 };
                assert(m[a] == h[ha]);
                assert(m[b] == h[hb]);
            }
        }
    }
}

pub proof fn lemma_trees_of_push(s: Seq<Yaml>, y: Yaml)
    ensures
        trees_of(s.push(y)) == trees_of(s).push(tree_of(y)),
{
    assert(s.push(y).drop_last() =~= s);
}

proof fn lemma_pairs_of_push(s: Seq<(Yaml, Yaml)>, p: (Yaml, Yaml))
    ensures
        pairs_of(s.push(p)) == pairs_of(s).push((tree_of(p.0), tree_of(p.1))),
{
    assert(s.push(p).drop_last() =~= s);
}

impl Mapping {
    pub closed spec fn model(self) -> Seq<(Tree, Tree)>
        decreases self,
    {
        pairs_of(self.entries@)
    }

    proof fn lemma_model(&self)
        ensures
            self@ == pairs_of(self.entries@),
            self@.len() == self.entries@.len(),
            forall|i: int|
                0 <= i < self.entries@.len() ==> #[trigger] self@[i] == (
                tree_of(self.entries@[i].0),
                tree_of(self.entries@[i].1),
            ),
    {
        lemma_pairs_of(self.entries@);
    }

    /// Well formed: no key occurs twice.
    pub open spec fn wf(&self) -> bool {
        keys_unique(self@)
    }

    pub fn new() -> (r: Mapping)
        ensures
            r@ == Seq::<(Tree, Tree)>::empty(),
            r.wf(),
    {
        let r = Mapping { entries: Vec::new() };
        assert(r@ =~= Seq::<(Tree, Tree)>::empty());
        r
    }

    pub fn len(&self) -> (r: usize)
        ensures
            r == self@.len(),
    {
        broadcast use lemma_pairs_of;

        proof {
            self.lemma_model();
        }
        self.entries.len()
    }

    /// Finds the entry whose key equals `k`.
    fn find(&self, k: &Yaml) -> (r: Option<usize>)
        ensures
            match r {
                Some(i) => key_pos(self@, k@) == i,
                None => key_pos(self@, k@) == -1,
            },
    {
        broadcast use lemma_pairs_of;

        proof {
            self.lemma_model();
        }
        let mut found: Option<usize> = None;
        let mut j: usize = 0;
        while j < self.entries.len()
            invariant
                j <= self.entries@.len(),
                match found {
                    Some(i) => key_pos(self@.take(j as int), k@) == i,
                    None => key_pos(self@.take(j as int), k@) == -1,
                },
            decreases self.entries@.len() - j,
        {
            proof {
                self.lemma_model();
                let t = self@.take(j + 1);
                assert(t.drop_last() =~= self@.take(j as int));
                assert(t.last() == self@[j as int]);
            }
            if yaml_eq(&self.entries[j].0, k) {
                found = Some(j);
            }
            j += 1;
        }
        assert(self@.take(j as int) =~= self@);
        found
    }

    /// Looks up the value stored under `k`.
    pub fn get(&self, k: &Yaml) -> (r: Option<&Yaml>)
        ensures
            match r {
                Some(v) => key_pos(self@, k@) >= 0 && v@ == self@[key_pos(self@, k@)].1,
                None => key_pos(self@, k@) == -1,
            },
    {
        broadcast use lemma_pairs_of;

        proof {
            self.lemma_model();
            lemma_key_pos(self@, k@);
        }
        match self.find(k) {
            Some(i) => Some(&self.entries[i].1),
            None => None,
        }
    }

    /// Stores `v` under `k`; see `hash_insert`.
    pub fn insert(&mut self, k: Yaml, v: Yaml)
        ensures
            final(self)@ == hash_insert(old(self)@, k@, v@),
            old(self).wf() ==> final(self).wf(),
    {
        broadcast use lemma_pairs_of;

        proof {
            self.lemma_model();
            lemma_key_pos(self@, k@);
            if keys_unique(self@) {
                lemma_insert_keeps_keys_unique(self@, k@, v@);
            }
        }
        match self.find(&k) {
            Some(i) => {
                let ghost h = self@;
                let ghost e = self.entries@;
                let (old_k, _old_v) = self.entries.remove(i);
                assert(pairs_of(self.entries@) =~= h.remove(i as int));
                proof {
                    lemma_pairs_of_push(self.entries@, (old_k, v));
                }
                self.entries.push((old_k, v));
            },
            None => {
                proof {
                    lemma_pairs_of_push(self.entries@, (k, v));
                }
                self.entries.push((k, v));
            },
        }
    }

    /// The entries, in order.
    pub fn into_entries(self) -> (r: Vec<(Yaml, Yaml)>)
        ensures
            pairs_of(r@) == self@,
    {
        self.entries
    }

    /// A copy with the same model.
    pub fn duplicate(&self) -> (r: Mapping)
        ensures
            r@ == self@,
        decreases self,
    {
        let mut out: Vec<(Yaml, Yaml)> = Vec::new();
        let mut i: usize = 0;
        while i < self.entries.len()
            invariant
                i <= self.entries@.len(),
                pairs_of(out@) == pairs_of(self.entries@.take(i as int)),
            decreases self.entries@.len() - i,
        {
            proof {
                assert(decreases_to!(self.entries => self.entries[i as int]));
            }
            let k = self.entries[i].0.duplicate();
            let v = self.entries[i].1.duplicate();
            proof {
                lemma_pairs_of_push(out@, (k, v));
                lemma_pairs_of_push(self.entries@.take(i as int), self.entries@[i as int]);
                assert(self.entries@.take(i as int).push(self.entries@[i as int]) =~= self.entries@.take(i + 1));
            }
            out.push((k, v));
            i += 1;
        }
        assert(self.entries@.take(i as int) =~= self.entries@);
        Mapping { entries: out }
    }

    /// Whether the two mappings have the same entries in the same order.
    fn same(&self, o: &Mapping) -> (r: bool)
        ensures
            r == (self@ == o@),
        decreases self,
    {
        broadcast use lemma_pairs_of;

        proof {
            self.lemma_model();
            o.lemma_model();
        }
        if self.entries.len() != o.entries.len() {
            return false;
        }
        let mut i: usize = 0;
        while i < self.entries.len()
            invariant
                i <= self.entries@.len(),
                self.entries@.len() == o.entries@.len(),
                forall|j: int| 0 <= j < i ==> #[trigger] self@[j] == o@[j],
            decreases self.entries@.len() - i,
        {
            proof {
                self.lemma_model();
                o.lemma_model();
                assert(decreases_to!(self.entries => self.entries[i as int]));
            }
            if !yaml_eq(&self.entries[i].0, &o.entries[i].0) || !yaml_eq(
                &self.entries[i].1,
                &o.entries[i].1,
            ) {
                assert(self@[i as int] != o@[i as int]);
                return false;
            }
            i += 1;
        }
        proof {
            self.lemma_model();
            o.lemma_model();
        }
        assert(self@ =~= o@);
        true
    }
}

impl Yaml {
    /// A deep copy with the same model.
    pub fn duplicate(&self) -> (r: Yaml)
        ensures
            r@ == self@,
        decreases self,
    {
        match self {
            Yaml::Real(s) => Yaml::Real(s.clone()),
            Yaml::Integer(i) => Yaml::Integer(*i),
            Yaml::String(s) => Yaml::String(s.clone()),
            Yaml::Boolean(b) => Yaml::Boolean(*b),
            Yaml::Array(v) => {
                let mut out: Vec<Yaml> = Vec::new();
                let mut i: usize = 0;
                while i < v.len()
                    invariant
                        *self == Yaml::Array(*v),
                        i <= v@.len(),
                        trees_of(out@) == trees_of(v@.take(i as int)),
                    decreases v@.len() - i,
                {
                    proof {
                        assert(decreases_to!(*v => v[i as int]));
                        assert(decreases_to!(*self => self->Array_0));
                    }
                    let c = v[i].duplicate();
                    proof {
                        lemma_trees_of_push(out@, c);
                        lemma_trees_of_push(v@.take(i as int), v@[i as int]);
                        assert(v@.take(i as int).push(v@[i as int]) =~= v@.take(i + 1));
                    }
                    out.push(c);
                    i += 1;
                }
                assert(v@.take(i as int) =~= v@);
                Yaml::Array(out)
            },
            Yaml::Hash(h) => Yaml::Hash(h.duplicate()),
            Yaml::Null => Yaml::Null,
            Yaml::BadValue => Yaml::BadValue,
        }
    }
}

/// Structural equality of two nodes.
pub fn yaml_eq(a: &Yaml, b: &Yaml) -> (r: bool)
    ensures
        r == (a@ == b@),
    decreases a,
{
    broadcast use lemma_trees_of;

    match a {
        Yaml::Array(x) => match b {
            Yaml::Array(y) => {
                assert(a@ == Tree::Array(trees_of(x@)));
                assert(b@ == Tree::Array(trees_of(y@)));
                if x.len() != y.len() {
                    assert(trees_of(x@).len() != trees_of(y@).len());
                    return false;
                }
                proof {
                    lemma_trees_of(x@);
                    lemma_trees_of(y@);
                }
                let mut i: usize = 0;
                while i < x.len()
                    invariant
                        *a == Yaml::Array(*x),
                        *b == Yaml::Array(*y),
                        i <= x@.len(),
                        x@.len() == y@.len(),
                        trees_of(x@).len() == x@.len(),
                        trees_of(y@).len() == y@.len(),
                        forall|j: int| 0 <= j < i ==> #[trigger] trees_of(x@)[j] == trees_of(y@)[j],
                        forall|j: int| 0 <= j < x@.len() ==> #[trigger] trees_of(x@)[j] == x@[j]@,
                        forall|j: int| 0 <= j < y@.len() ==> #[trigger] trees_of(y@)[j] == y@[j]@,
                    decreases x@.len() - i,
                {
                    proof {
                        assert(decreases_to!(*x => x[i as int]));
                        assert(decreases_to!(*a => a->Array_0));
                    }
                    if !yaml_eq(&x[i], &y[i]) {
                        assert(trees_of(x@)[i as int] != trees_of(y@)[i as int]);
                        return false;
                    }
                    i += 1;
                }
                assert(trees_of(x@) =~= trees_of(y@));
                assert(a@ == Tree::Array(trees_of(x@)));
                assert(b@ == Tree::Array(trees_of(y@)));
                true
            },
            _ => false,
        },
        Yaml::Hash(x) => match b {
            Yaml::Hash(y) => x.same(y),
            _ => false,
        },
        _ => match (a, b) {
            (Yaml::Real(x), Yaml::Real(y)) => *x == *y,
            (Yaml::Integer(x), Yaml::Integer(y)) => *x == *y,
            (Yaml::String(x), Yaml::String(y)) => *x == *y,
            (Yaml::Boolean(x), Yaml::Boolean(y)) => *x == *y,
            (Yaml::Null, Yaml::Null) => true,
            (Yaml::BadValue, Yaml::BadValue) => true,
            _ => false,
        },
    }
}

} // verus!
