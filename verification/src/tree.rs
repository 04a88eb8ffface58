//! The tree value type and its mathematical model.
//!
//! A document is either an object (a key-to-subtree mapping) or a leaf.
//! A leaf stands for any non-object value (scalar, array, null), carried
//! as its serialized text and compared only by equality, never descended
//! into. Object entries are kept sorted by key, so each document has one
//! canonical representation.

use vstd::prelude::*;
use crate::order::lex_lt;

verus! {

/// The model of a tree: keys and leaf contents are character sequences,
/// an object is the sequence of its entries in key order.
#[verifier::ext_equal]
pub enum TreeV {
    Leaf(Seq<char>),
    Object(Seq<(Seq<char>, TreeV)>),
}

/// A tree-structured document value.
pub enum Tree {
    /// A non-object value, carried as its serialized text.
    Leaf(String),
    /// An object: entries sorted by key, each key unique.
    Object(Vec<(String, Tree)>),
}

/// The model of an entry list: each key and value abstracted.
pub open spec fn entries_view(es: Seq<(String, Tree)>) -> Seq<(Seq<char>, TreeV)>
    decreases es,
{
    if es.len() == 0 {
        Seq::empty()
    } else {
        seq![(es[0].0@, tree_v(es[0].1))] + entries_view(es.drop_first())
    }
}

/// The model of a tree value.
pub open spec fn tree_v(t: Tree) -> TreeV
    decreases t,
{
    match t {
        Tree::Leaf(s) => TreeV::Leaf(s@),
        Tree::Object(es) => TreeV::Object(entries_view(es@)),
    }
}

impl View for Tree {
    type V = TreeV;

    open spec fn view(&self) -> TreeV {
        tree_v(*self)
    }
}

pub proof fn lemma_entries_view_len(es: Seq<(String, Tree)>)
    ensures
        entries_view(es).len() == es.len(),
    decreases es.len(),
{
    if es.len() > 0 {
        lemma_entries_view_len(es.drop_first());
    }
}

pub proof fn lemma_entries_view_index(es: Seq<(String, Tree)>, i: int)
    requires
        0 <= i < es.len(),
    ensures
        entries_view(es).len() == es.len(),
        entries_view(es)[i] == (es[i].0@, tree_v(es[i].1)),
    decreases es.len(),
{
    lemma_entries_view_len(es);
    if i > 0 {
        lemma_entries_view_index(es.drop_first(), i - 1);
        assert(es.drop_first()[i - 1] == es[i]);
    }
}

/// Entry lists with the same keys and models have the same view.
pub proof fn lemma_entries_view_ext(xs: Seq<(String, Tree)>, ys: Seq<(String, Tree)>)
    requires
        xs.len() == ys.len(),
        forall|i: int|
            0 <= i < xs.len() ==> (#[trigger] xs[i]).0@ == ys[i].0@ && tree_v(xs[i].1) == tree_v(
                ys[i].1,
            ),
    ensures
        entries_view(xs) == entries_view(ys),
{
    assert(entries_view(xs) =~= entries_view(ys)) by {
        lemma_entries_view_len(xs);
        lemma_entries_view_len(ys);
        assert forall|i: int| 0 <= i < xs.len() implies entries_view(xs)[i] == entries_view(ys)[i]
        by {
            lemma_entries_view_index(xs, i);
            lemma_entries_view_index(ys, i);
        }
    }
}

/// The keys of an entry list are strictly increasing.
pub open spec fn sorted_keys(es: Seq<(Seq<char>, TreeV)>) -> bool {
    forall|i: int, j: int|
        0 <= i < j < es.len() ==> lex_lt((#[trigger] es[i]).0, (#[trigger] es[j]).0)
}

/// Well-formedness of a model: every object's entries are sorted by key.
pub open spec fn wf_v(t: TreeV) -> bool
    decreases t,
{
    match t {
        TreeV::Leaf(_) => true,
        TreeV::Object(es) => sorted_keys(es) && (forall|i: int|
            0 <= i < es.len() ==> wf_v((#[trigger] es[i]).1)),
    }
}

/// The value at a key in an entry list, if the key is present.
pub open spec fn lookup_v(es: Seq<(Seq<char>, TreeV)>, k: Seq<char>) -> Option<TreeV>
    decreases es.len(),
{
    if es.len() == 0 {
        None
    } else if es[0].0 == k {
        Some(es[0].1)
    } else {
        lookup_v(es.drop_first(), k)
    }
}

pub open spec fn has_key(es: Seq<(Seq<char>, TreeV)>, k: Seq<char>) -> bool {
    lookup_v(es, k) is Some
}

impl Tree {
    pub fn is_object(&self) -> (r: bool)
        ensures
            r == (self@ is Object),
    {
        match self {
            Tree::Object(_) => true,
            _ => false,
        }
    }

    /// A copy of the tree with the same model.
    pub fn duplicate(&self) -> (r: Tree)
        ensures
            r@ == self@,
        decreases *self,
    {
        match self {
            Tree::Leaf(s) => Tree::Leaf(s.clone()),
            Tree::Object(es) => {
                let mut out: Vec<(String, Tree)> = Vec::new();
                let mut i: usize = 0;
                while i < es.len()
                    invariant
                        *self == Tree::Object(*es),
                        i <= es.len(),
                        out.len() == i,
                        forall|q: int|
                            0 <= q < i ==> (#[trigger] out@[q]).0@ == es@[q].0@ && tree_v(
                                out@[q].1,
                            ) == tree_v(es@[q].1),
                    decreases es.len() - i,
                {
                    proof {
                        let t = *self;
                        assert(t == Tree::Object(*es));
                        assert(decreases_to!(t => t->Object_0@[i as int].1));
                        assert(t->Object_0@[i as int].1 == es@[i as int].1);
                    }
                    let e = (es[i].0.clone(), es[i].1.duplicate());
                    out.push(e);
                    i += 1;
                }
                proof {
                    lemma_entries_view_ext(out@, es@);
                }
                Tree::Object(out)
            }
        }
    }

    /// Deep structural equality of two trees: `true` exactly when the
    /// models are equal.
    pub fn tree_eq(&self, other: &Tree) -> (r: bool)
        ensures
            r == (self@ == other@),
        decreases *self,
    {
        match self {
            Tree::Leaf(x) => match other {
                Tree::Leaf(y) => {
                    proof {
                        assert(*self == Tree::Leaf(*x));
                        assert(*other == Tree::Leaf(*y));
                    }
                    x.eq(y)
                }
                Tree::Object(_) => {
                    proof {
                        assert(self@ is Leaf);
                        assert(other@ is Object);
                    }
                    false
                }
            },
            Tree::Object(xs) => match other {
                Tree::Leaf(_) => {
                    proof {
                        assert(self@ is Object);
                        assert(other@ is Leaf);
                    }
                    false
                }
                Tree::Object(ys) => {
                if xs.len() != ys.len() {
                    proof {
                        lemma_entries_view_len(xs@);
                        lemma_entries_view_len(ys@);
                        assert(entries_view(xs@).len() != entries_view(ys@).len());
                        assert(self@ == TreeV::Object(entries_view(xs@)));
                        assert(other@ == TreeV::Object(entries_view(ys@)));
                        assert(self@ != other@);
                    }
                    return false;
                }
                let mut i: usize = 0;
                while i < xs.len()
                    invariant
                        *self == Tree::Object(*xs),
                        *other == Tree::Object(*ys),
                        xs.len() == ys.len(),
                        i <= xs.len(),
                        forall|q: int|
                            0 <= q < i ==> #[trigger] entries_view(xs@)[q] == entries_view(ys@)[q],
                    decreases xs.len() - i,
                {
                    proof {
                        lemma_entries_view_index(xs@, i as int);
                        lemma_entries_view_index(ys@, i as int);
                        let t = *self;
                        assert(t == Tree::Object(*xs));
                        assert(decreases_to!(t => t->Object_0@[i as int].1));
                        assert(t->Object_0@[i as int].1 == xs@[i as int].1);
                    }
                    if !(xs[i].0 == ys[i].0) {
                        proof {
                            assert(entries_view(xs@)[i as int] != entries_view(ys@)[i as int]);
                            assert(entries_view(xs@) != entries_view(ys@));
                            assert(self@ == TreeV::Object(entries_view(xs@)));
                            assert(other@ == TreeV::Object(entries_view(ys@)));
                            assert(self@ != other@);
                        }
                        return false;
                    }
                    if !xs[i].1.tree_eq(&ys[i].1) {
                        proof {
                            assert(entries_view(xs@)[i as int] != entries_view(ys@)[i as int]);
                            assert(entries_view(xs@) != entries_view(ys@));
                            assert(self@ == TreeV::Object(entries_view(xs@)));
                            assert(other@ == TreeV::Object(entries_view(ys@)));
                            assert(self@ != other@);
                        }
                        return false;
                    }
                    i += 1;
                }
                proof {
                    lemma_entries_view_len(xs@);
                    lemma_entries_view_len(ys@);
                    assert(entries_view(xs@) =~= entries_view(ys@));
                    assert(self@ == TreeV::Object(entries_view(xs@)));
                    assert(other@ == TreeV::Object(entries_view(ys@)));
                    assert(self@ == other@);
                }
                    true
                }
            },
        }
    }
}

} // verus!

