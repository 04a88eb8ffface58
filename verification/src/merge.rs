//! The merge engine.
//!
//! Three trees — the common ancestor and the two branches — are compared
//! node by node. Objects are merged per key over the union of their key
//! sets; everything else is resolved by equality with a deterministic
//! tie-break in favour of branch A. A conflict anywhere marks the whole
//! merge as conflicted, but never stops it. Every conflict is also
//! reported as a diagnostic record carrying the slash-joined path of
//! object keys from the root and the kind of the conflict.

use vstd::prelude::*;
use vstd::string::StringExecFns;
use crate::order::min_key2;
use crate::order::min_key;
use crate::tree::Tree;
use crate::tree::TreeV;
use crate::tree::entries_view;
use crate::tree::tree_v;
use crate::tree::lemma_entries_view_index;
use crate::tree::lemma_entries_view_len;

verus! {

/// What happened at a conflicting position.
#[derive(Clone, Copy, PartialEq, Eq, Structural, Debug)]
pub enum ConflictKind {
    /// Both branches modified the same entry to different values.
    ModifiedBoth,
    /// Both branches added the same key with different values.
    AddedBoth,
    /// One branch modified an entry that the other branch deleted.
    ModifiedVsDeleted,
}

/// A conflict report: where it happened and what happened there.
pub struct Diagnostic {
    /// Slash-joined object keys from the root; empty at the root itself.
    pub path: String,
    pub kind: ConflictKind,
}

/// The model of a diagnostic record.
pub struct DiagV {
    pub path: Seq<char>,
    pub kind: ConflictKind,
}

impl View for Diagnostic {
    type V = DiagV;

    open spec fn view(&self) -> DiagV {
        DiagV { path: self.path@, kind: self.kind }
    }
}

/// The models of a sequence of diagnostic records.
pub open spec fn dview(ds: Seq<Diagnostic>) -> Seq<DiagV> {
    ds.map_values(|d: Diagnostic| d@)
}

/// The path of a child node: the parent path and the key, slash-joined.
pub open spec fn joined_path(path: Seq<char>, k: Seq<char>) -> Seq<char> {
    if path.len() == 0 {
        k
    } else {
        path + seq!['/'] + k
    }
}

/// Resolution where at least one of the three nodes is a leaf: equal
/// branches agree; a branch equal to the base yields to the other edit;
/// otherwise the position conflicts and branch A wins.
pub open spec fn leaf_merge(base: TreeV, a: TreeV, b: TreeV) -> (TreeV, bool) {
    if a == b {
        (a, false)
    } else if a == base {
        (b, false)
    } else if b == base {
        (a, false)
    } else {
        (a, true)
    }
}

/// The smallest key among the heads of the three (sorted) entry lists.
pub open spec fn head_key(
    bs: Seq<(Seq<char>, TreeV)>,
    xs: Seq<(Seq<char>, TreeV)>,
    ys: Seq<(Seq<char>, TreeV)>,
) -> Seq<char> {
    if bs.len() > 0 {
        if xs.len() > 0 {
            if ys.len() > 0 {
                min_key2(min_key2(bs[0].0, xs[0].0), ys[0].0)
            } else {
                min_key2(bs[0].0, xs[0].0)
            }
        } else {
            if ys.len() > 0 {
                min_key2(bs[0].0, ys[0].0)
            } else {
                bs[0].0
            }
        }
    } else {
        if xs.len() > 0 {
            if ys.len() > 0 {
                min_key2(xs[0].0, ys[0].0)
            } else {
                xs[0].0
            }
        } else {
            ys[0].0
        }
    }
}

/// Merge of three objects' entry lists, walking the three sorted lists
/// key by key over the union of their keys.
pub open spec fn merge_entries_v(
    bs: Seq<(Seq<char>, TreeV)>,
    xs: Seq<(Seq<char>, TreeV)>,
    ys: Seq<(Seq<char>, TreeV)>,
) -> (Seq<(Seq<char>, TreeV)>, bool)
    decreases bs, xs, ys,
{
    if bs.len() == 0 && xs.len() == 0 && ys.len() == 0 {
        (Seq::empty(), false)
    } else {
        let k = head_key(bs, xs, ys);
        let pb = bs.len() > 0 && bs[0].0 == k;
        let pa = xs.len() > 0 && xs[0].0 == k;
        let pc = ys.len() > 0 && ys[0].0 == k;
        let bs1 = if pb { bs.drop_first() } else { bs };
        let xs1 = if pa { xs.drop_first() } else { xs };
        let ys1 = if pc { ys.drop_first() } else { ys };
        let step: (Option<TreeV>, bool) = if pb && pa && pc {
            let bv = bs[0].1;
            let av = xs[0].1;
            let cv = ys[0].1;
            if av == cv {
                (Some(av), false)
            } else if av == bv {
                (Some(cv), false)
            } else if cv == bv {
                (Some(av), false)
            } else if bv is Object && av is Object && cv is Object {
                let m = merge_tree_v(bv, av, cv);
                (Some(m.0), m.1)
            } else {
                (Some(av), true)
            }
        } else if !pb && pa && pc {
            if xs[0].1 == ys[0].1 {
                (Some(xs[0].1), false)
            } else {
                (Some(xs[0].1), true)
            }
        } else if !pb && pa && !pc {
            (Some(xs[0].1), false)
        } else if !pb && !pa && pc {
            (Some(ys[0].1), false)
        } else if pb && pa && !pc {
            if xs[0].1 == bs[0].1 {
                (None, false)
            } else {
                (Some(xs[0].1), true)
            }
        } else if pb && !pa && pc {
            if ys[0].1 == bs[0].1 {
                (None, false)
            } else {
                (Some(ys[0].1), true)
            }
        } else {
            (None, false)
        };
        let rest = merge_entries_v(bs1, xs1, ys1);
        let es = if step.0 is Some {
            seq![(k, step.0->0)] + rest.0
        } else {
            rest.0
        };
        (es, step.1 || rest.1)
    }
}

/// Merge of three trees: three objects merge per key; any other shape is
/// resolved as leaves.
pub open spec fn merge_tree_v(base: TreeV, a: TreeV, b: TreeV) -> (TreeV, bool)
    decreases base, a, b,
{
    if base is Object && a is Object && b is Object {
        let m = merge_entries_v(base->Object_0, a->Object_0, b->Object_0);
        (TreeV::Object(m.0), m.1)
    } else {
        leaf_merge(base, a, b)
    }
}

/// Per-key resolution over the three optional entries at one key of the
/// union; `None` means the key is absent on that side, and a `None`
/// result means the key is absent from the merge.
pub open spec fn entry_merge_v(base: Option<TreeV>, a: Option<TreeV>, b: Option<TreeV>) -> (
    Option<TreeV>,
    bool,
) {
    match (base, a, b) {
        (Some(bv), Some(av), Some(cv)) => {
            if av == cv {
                (Some(av), false)
            } else if av == bv {
                (Some(cv), false)
            } else if cv == bv {
                (Some(av), false)
            } else if bv is Object && av is Object && cv is Object {
                let m = merge_tree_v(bv, av, cv);
                (Some(m.0), m.1)
            } else {
                (Some(av), true)
            }
        }
        (None, Some(av), Some(cv)) => {
            if av == cv {
                (Some(av), false)
            } else {
                (Some(av), true)
            }
        }
        (None, Some(av), None) => (Some(av), false),
        (None, None, Some(cv)) => (Some(cv), false),
        (Some(bv), Some(av), None) => {
            if av == bv {
                (None, false)
            } else {
                (Some(av), true)
            }
        }
        (Some(bv), None, Some(cv)) => {
            if cv == bv {
                (None, false)
            } else {
                (Some(cv), true)
            }
        }
        (Some(_), None, None) => (None, false),
        (None, None, None) => (None, false),
    }
}

/// The diagnostics of merging three trees, in walk order.
pub open spec fn tree_diags(path: Seq<char>, base: TreeV, a: TreeV, b: TreeV) -> Seq<DiagV>
    decreases base, a, b,
{
    if base is Object && a is Object && b is Object {
        entries_diags(path, base->Object_0, a->Object_0, b->Object_0)
    } else {
        if a == b || a == base || b == base {
            Seq::empty()
        } else {
            seq![DiagV { path: path, kind: ConflictKind::ModifiedBoth }]
        }
    }
}

/// The diagnostics of the per-key walk over three entry lists.
pub open spec fn entries_diags(
    path: Seq<char>,
    bs: Seq<(Seq<char>, TreeV)>,
    xs: Seq<(Seq<char>, TreeV)>,
    ys: Seq<(Seq<char>, TreeV)>,
) -> Seq<DiagV>
    decreases bs, xs, ys,
{
    if bs.len() == 0 && xs.len() == 0 && ys.len() == 0 {
        Seq::empty()
    } else {
        let k = head_key(bs, xs, ys);
        let pb = bs.len() > 0 && bs[0].0 == k;
        let pa = xs.len() > 0 && xs[0].0 == k;
        let pc = ys.len() > 0 && ys[0].0 == k;
        let bs1 = if pb { bs.drop_first() } else { bs };
        let xs1 = if pa { xs.drop_first() } else { xs };
        let ys1 = if pc { ys.drop_first() } else { ys };
        let here: Seq<DiagV> = if pb && pa && pc {
            let bv = bs[0].1;
            let av = xs[0].1;
            let cv = ys[0].1;
            if av == cv || av == bv || cv == bv {
                Seq::empty()
            } else if bv is Object && av is Object && cv is Object {
                tree_diags(joined_path(path, k), bv, av, cv)
            } else {
                seq![DiagV { path: joined_path(path, k), kind: ConflictKind::ModifiedBoth }]
            }
        } else if !pb && pa && pc {
            if xs[0].1 == ys[0].1 {
                Seq::empty()
            } else {
                seq![DiagV { path: joined_path(path, k), kind: ConflictKind::AddedBoth }]
            }
        } else if pb && pa && !pc {
            if xs[0].1 == bs[0].1 {
                Seq::empty()
            } else {
                seq![DiagV { path: joined_path(path, k), kind: ConflictKind::ModifiedVsDeleted }]
            }
        } else if pb && !pa && pc {
            if ys[0].1 == bs[0].1 {
                Seq::empty()
            } else {
                seq![DiagV { path: joined_path(path, k), kind: ConflictKind::ModifiedVsDeleted }]
            }
        } else {
            Seq::empty()
        };
        here + entries_diags(path, bs1, xs1, ys1)
    }
}

} // verus!

verus! {

proof fn lemma_concat_assoc<T>(x: Seq<T>, y: Seq<T>, z: Seq<T>)
    ensures
        (x + y) + z == x + (y + z),
{
    assert((x + y) + z =~= x + (y + z));
}

proof fn lemma_dview_push(s: Seq<Diagnostic>, d: Diagnostic)
    ensures
        dview(s.push(d)) == dview(s) + seq![d@],
{
    assert(dview(s.push(d)) =~= dview(s) + seq![d@]);
}

proof fn lemma_entries_view_push(es: Seq<(String, Tree)>, e: (String, Tree))
    ensures
        entries_view(es.push(e)) == entries_view(es) + seq![(e.0@, tree_v(e.1))],
{
    assert(entries_view(es.push(e)) =~= entries_view(es) + seq![(e.0@, tree_v(e.1))]) by {
        lemma_entries_view_len(es.push(e));
        lemma_entries_view_len(es);
        assert forall|q: int| 0 <= q < es.len() + 1 implies entries_view(es.push(e))[q] == (
        entries_view(es) + seq![(e.0@, tree_v(e.1))])[q] by {
            lemma_entries_view_index(es.push(e), q);
            if q < es.len() {
                lemma_entries_view_index(es, q);
            }
        }
    }
}

/// Leaf resolution with its diagnostic: used whenever the three nodes do
/// not all have object shape.
fn resolve_leaves(base: &Tree, a: &Tree, b: &Tree, path: &str, diags: &mut Vec<Diagnostic>) -> (r:
    (Tree, bool))
    requires
        !(base@ is Object && a@ is Object && b@ is Object),
    ensures
        r.0@ == merge_tree_v(base@, a@, b@).0,
        r.1 == merge_tree_v(base@, a@, b@).1,
        dview(final(diags)@) == dview(old(diags)@) + tree_diags(path@, base@, a@, b@),
{
    if a.tree_eq(b) {
        proof {
            assert(dview(diags@) + Seq::<DiagV>::empty() =~= dview(diags@));
        }
        (a.duplicate(), false)
    } else if a.tree_eq(base) {
        proof {
            assert(dview(diags@) + Seq::<DiagV>::empty() =~= dview(diags@));
        }
        (b.duplicate(), false)
    } else if b.tree_eq(base) {
        proof {
            assert(dview(diags@) + Seq::<DiagV>::empty() =~= dview(diags@));
        }
        (a.duplicate(), false)
    } else {
        let d = Diagnostic { path: path.to_owned(), kind: ConflictKind::ModifiedBoth };
        proof {
            lemma_dview_push(diags@, d);
        }
        diags.push(d);
        (a.duplicate(), true)
    }
}

} // verus!

verus! {

/// Merge of one node: three objects merge per key over the union of
/// their keys; any other shape resolves as leaves. Conflicts found below
/// are reported under `path`.
pub fn three_way_merge_recursive(
    base: &Tree,
    a: &Tree,
    b: &Tree,
    path: &str,
    diags: &mut Vec<Diagnostic>,
) -> (r: (Tree, bool))
    ensures
        r.0@ == merge_tree_v(base@, a@, b@).0,
        r.1 == merge_tree_v(base@, a@, b@).1,
        dview(final(diags)@) == dview(old(diags)@) + tree_diags(path@, base@, a@, b@),
    decreases *base, *a, *b,
{
    match base {
        Tree::Leaf(_) => {
            proof {
                assert(base@ is Leaf);
            }
            resolve_leaves(base, a, b, path, diags)
        }
        Tree::Object(bs) => match a {
            Tree::Leaf(_) => {
                proof {
                    assert(a@ is Leaf);
                }
                resolve_leaves(base, a, b, path, diags)
            }
            Tree::Object(xs) => match b {
                Tree::Leaf(_) => {
                    proof {
                        assert(b@ is Leaf);
                    }
                    resolve_leaves(base, a, b, path, diags)
                }
                Tree::Object(ys) => {
                    let mut out: Vec<(String, Tree)> = Vec::new();
                    let mut had_conflict = false;
                    let mut i: usize = 0;
                    let mut j: usize = 0;
                    let mut l: usize = 0;
                    let ghost mut emitted: Seq<DiagV> = Seq::empty();
                    proof {
                        lemma_entries_view_len(bs@);
                        lemma_entries_view_len(xs@);
                        lemma_entries_view_len(ys@);
                        assert(entries_view(bs@).skip(0) =~= entries_view(bs@));
                        assert(entries_view(xs@).skip(0) =~= entries_view(xs@));
                        assert(entries_view(ys@).skip(0) =~= entries_view(ys@));
                        assert(entries_view(out@) =~= Seq::<(Seq<char>, TreeV)>::empty());
                        assert(entries_view(out@) + merge_entries_v(
                            entries_view(bs@),
                            entries_view(xs@),
                            entries_view(ys@),
                        ).0 =~= merge_entries_v(
                            entries_view(bs@),
                            entries_view(xs@),
                            entries_view(ys@),
                        ).0);
                        assert(emitted + entries_diags(
                            path@,
                            entries_view(bs@),
                            entries_view(xs@),
                            entries_view(ys@),
                        ) =~= entries_diags(
                            path@,
                            entries_view(bs@),
                            entries_view(xs@),
                            entries_view(ys@),
                        ));
                        assert(dview(diags@) + emitted =~= dview(diags@));
                    }
                    while i < bs.len() || j < xs.len() || l < ys.len()
                        invariant
                            *base == Tree::Object(*bs),
                            *a == Tree::Object(*xs),
                            *b == Tree::Object(*ys),
                            i <= bs.len(),
                            j <= xs.len(),
                            l <= ys.len(),
                            entries_view(bs@).len() == bs@.len(),
                            entries_view(xs@).len() == xs@.len(),
                            entries_view(ys@).len() == ys@.len(),
                            merge_entries_v(
                                entries_view(bs@),
                                entries_view(xs@),
                                entries_view(ys@),
                            ).0 == entries_view(out@) + merge_entries_v(
                                entries_view(bs@).skip(i as int),
                                entries_view(xs@).skip(j as int),
                                entries_view(ys@).skip(l as int),
                            ).0,
                            merge_entries_v(
                                entries_view(bs@),
                                entries_view(xs@),
                                entries_view(ys@),
                            ).1 == (had_conflict || merge_entries_v(
                                entries_view(bs@).skip(i as int),
                                entries_view(xs@).skip(j as int),
                                entries_view(ys@).skip(l as int),
                            ).1),
                            entries_diags(
                                path@,
                                entries_view(bs@),
                                entries_view(xs@),
                                entries_view(ys@),
                            ) == emitted + entries_diags(
                                path@,
                                entries_view(bs@).skip(i as int),
                                entries_view(xs@).skip(j as int),
                                entries_view(ys@).skip(l as int),
                            ),
                            dview(diags@) == dview(old(diags)@) + emitted,
                        decreases (bs.len() - i) + (xs.len() - j) + (ys.len() - l),
                    {
                        proof {
                            if i < bs.len() {
                                lemma_entries_view_index(bs@, i as int);
                            }
                            if j < xs.len() {
                                lemma_entries_view_index(xs@, j as int);
                            }
                            if l < ys.len() {
                                lemma_entries_view_index(ys@, l as int);
                            }
                        }
                        let k: &String = if i < bs.len() {
                            if j < xs.len() {
                                if l < ys.len() {
                                    min_key(min_key(&bs[i].0, &xs[j].0), &ys[l].0)
                                } else {
                                    min_key(&bs[i].0, &xs[j].0)
                                }
                            } else {
                                if l < ys.len() {
                                    min_key(&bs[i].0, &ys[l].0)
                                } else {
                                    &bs[i].0
                                }
                            }
                        } else {
                            if j < xs.len() {
                                if l < ys.len() {
                                    min_key(&xs[j].0, &ys[l].0)
                                } else {
                                    &xs[j].0
                                }
                            } else {
                                &ys[l].0
                            }
                        };
                        let ghost oi = i as int;
                        let ghost oj = j as int;
                        let ghost ol = l as int;
                        let ghost out0 = out@;
                        let ghost flag0 = had_conflict;
                        let ghost em0 = emitted;
                        let ghost sbs = entries_view(bs@).skip(oi);
                        let ghost sxs = entries_view(xs@).skip(oj);
                        let ghost scs = entries_view(ys@).skip(ol);
                        let ghost kk = k@;
                        proof {
                            assert(kk == head_key(sbs, sxs, scs));
                        }
                        let pb = i < bs.len() && bs[i].0.eq(k);
                        let pa = j < xs.len() && xs[j].0.eq(k);
                        let pc = l < ys.len() && ys[l].0.eq(k);
                        proof {
                            assert(pb == (sbs.len() > 0 && sbs[0].0 == kk));
                            assert(pa == (sxs.len() > 0 && sxs[0].0 == kk));
                            assert(pc == (scs.len() > 0 && scs[0].0 == kk));
                            assert(pb || pa || pc);
                        }
                        let cp: String = if path.is_empty() {
                            k.clone()
                        } else {
                            let mut t = path.to_owned();
                            t.append("/");
                            t.append(k.as_str());
                            t
                        };
                        proof {
                            reveal_strlit("/");
                            assert("/"@ =~= seq!['/']);
                            assert(cp@ == joined_path(path@, kk));
                        }
                        if pb && pa && pc {
                            let bv = &bs[i].1;
                            let av = &xs[j].1;
                            let cv = &ys[l].1;
                            if av.tree_eq(cv) {
                                let e = (k.clone(), av.duplicate());
                                proof {
                                    lemma_entries_view_push(out@, e);
                                }
                                out.push(e);
                            } else if av.tree_eq(bv) {
                                let e = (k.clone(), cv.duplicate());
                                proof {
                                    lemma_entries_view_push(out@, e);
                                }
                                out.push(e);
                            } else if cv.tree_eq(bv) {
                                let e = (k.clone(), av.duplicate());
                                proof {
                                    lemma_entries_view_push(out@, e);
                                }
                                out.push(e);
                            } else if bv.is_object() && av.is_object() && cv.is_object() {
                                proof {
                                    let t = *base;
                                    assert(t == Tree::Object(*bs));
                                    assert(decreases_to!(t => t->Object_0@[oi].1));
                                    assert(t->Object_0@[oi].1 == bs@[oi].1);
                                }
                                let m = three_way_merge_recursive(bv, av, cv, cp.as_str(), diags);
                                if m.1 {
                                    had_conflict = true;
                                }
                                let e = (k.clone(), m.0);
                                proof {
                                    lemma_entries_view_push(out@, e);
                                }
                                out.push(e);
                                proof {
                                    emitted = emitted + tree_diags(cp@, bv@, av@, cv@);
                                }
                            } else {
                                had_conflict = true;
                                let e = (k.clone(), av.duplicate());
                                proof {
                                    lemma_entries_view_push(out@, e);
                                }
                                out.push(e);
                                let d = Diagnostic { path: cp, kind: ConflictKind::ModifiedBoth };
                                let ghost dv = d@;
                                proof {
                                    lemma_dview_push(diags@, d);
                                }
                                diags.push(d);
                                proof {
                                    emitted = emitted + seq![dv];
                                }
                            }
                        } else if !pb && pa && pc {
                            let av = &xs[j].1;
                            let cv = &ys[l].1;
                            if av.tree_eq(cv) {
                                let e = (k.clone(), av.duplicate());
                                proof {
                                    lemma_entries_view_push(out@, e);
                                }
                                out.push(e);
                            } else {
                                had_conflict = true;
                                let e = (k.clone(), av.duplicate());
                                proof {
                                    lemma_entries_view_push(out@, e);
                                }
                                out.push(e);
                                let d = Diagnostic { path: cp, kind: ConflictKind::AddedBoth };
                                let ghost dv = d@;
                                proof {
                                    lemma_dview_push(diags@, d);
                                }
                                diags.push(d);
                                proof {
                                    emitted = emitted + seq![dv];
                                }
                            }
                        } else if !pb && pa && !pc {
                            let e = (k.clone(), xs[j].1.duplicate());
                            proof {
                                lemma_entries_view_push(out@, e);
                            }
                            out.push(e);
                        } else if !pb && !pa && pc {
                            let e = (k.clone(), ys[l].1.duplicate());
                            proof {
                                lemma_entries_view_push(out@, e);
                            }
                            out.push(e);
                        } else if pb && pa && !pc {
                            if xs[j].1.tree_eq(&bs[i].1) {
                                // deleted in B, unchanged in A: the key is dropped
                            } else {
                                had_conflict = true;
                                let e = (k.clone(), xs[j].1.duplicate());
                                proof {
                                    lemma_entries_view_push(out@, e);
                                }
                                out.push(e);
                                let d = Diagnostic {
                                    path: cp,
                                    kind: ConflictKind::ModifiedVsDeleted,
                                };
                                let ghost dv = d@;
                                proof {
                                    lemma_dview_push(diags@, d);
                                }
                                diags.push(d);
                                proof {
                                    emitted = emitted + seq![dv];
                                }
                            }
                        } else if pb && !pa && pc {
                            if ys[l].1.tree_eq(&bs[i].1) {
                                // deleted in A, unchanged in B: the key is dropped
                            } else {
                                had_conflict = true;
                                let e = (k.clone(), ys[l].1.duplicate());
                                proof {
                                    lemma_entries_view_push(out@, e);
                                }
                                out.push(e);
                                let d = Diagnostic {
                                    path: cp,
                                    kind: ConflictKind::ModifiedVsDeleted,
                                };
                                let ghost dv = d@;
                                proof {
                                    lemma_dview_push(diags@, d);
                                }
                                diags.push(d);
                                proof {
                                    emitted = emitted + seq![dv];
                                }
                            }
                        } else {
                            // only the base still has this key: deleted in both
                        }
                        if pb {
                            i = i + 1;
                        }
                        if pa {
                            j = j + 1;
                        }
                        if pc {
                            l = l + 1;
                        }
                        proof {
                            let bs1 = if pb { sbs.drop_first() } else { sbs };
                            let xs1 = if pa { sxs.drop_first() } else { sxs };
                            let ys1 = if pc { scs.drop_first() } else { scs };
                            assert(entries_view(bs@).skip(i as int) =~= bs1);
                            assert(entries_view(xs@).skip(j as int) =~= xs1);
                            assert(entries_view(ys@).skip(l as int) =~= ys1);
                            let m_old = merge_entries_v(sbs, sxs, scs);
                            let m_new = merge_entries_v(bs1, xs1, ys1);
                            let d_old = entries_diags(path@, sbs, sxs, scs);
                            let d_new = entries_diags(path@, bs1, xs1, ys1);
                            lemma_entries_view_len(out0);
                            lemma_entries_view_len(out@);
                            let ov0 = entries_view(out0);
                            let ovn = entries_view(out@);
                            let pushed = ovn.skip(ov0.len() as int);
                            assert(ovn =~= ov0 + pushed);
                            let here = emitted.skip(em0.len() as int);
                            assert(emitted =~= em0 + here);
                            lemma_concat_assoc(ov0, pushed, m_new.0);
                            lemma_concat_assoc(em0, here, d_new);
                            lemma_concat_assoc(dview(old(diags)@), em0, here);
                            assert(m_old.0 == pushed + m_new.0);
                            assert((flag0 || m_old.1) == (had_conflict || m_new.1));
                            assert(d_old == here + d_new);
                        }
                    }
                    proof {
                        assert(entries_view(bs@).skip(i as int) =~= Seq::<(
                            Seq<char>,
                            TreeV,
                        )>::empty());
                        assert(entries_view(xs@).skip(j as int) =~= Seq::<(
                            Seq<char>,
                            TreeV,
                        )>::empty());
                        assert(entries_view(ys@).skip(l as int) =~= Seq::<(
                            Seq<char>,
                            TreeV,
                        )>::empty());
                        assert(entries_view(out@) + Seq::<(Seq<char>, TreeV)>::empty()
                            =~= entries_view(out@));
                        assert(emitted + Seq::<DiagV>::empty() =~= emitted);
                        assert(base@ == TreeV::Object(entries_view(bs@)));
                        assert(a@ == TreeV::Object(entries_view(xs@)));
                        assert(b@ == TreeV::Object(entries_view(ys@)));
                    }
                    (Tree::Object(out), had_conflict)
                }
            },
        },
    }
}

} // verus!

verus! {

/// Three-way merge of two branches against their common ancestor:
/// the merged tree, and whether any conflict occurred anywhere in it.
pub fn three_way_merge(base: &Tree, a: &Tree, b: &Tree) -> (r: (Tree, bool))
    ensures
        r.0@ == merge_tree_v(base@, a@, b@).0,
        r.1 == merge_tree_v(base@, a@, b@).1,
{
    let mut diags: Vec<Diagnostic> = Vec::new();
    three_way_merge_recursive(base, a, b, "", &mut diags)
}

/// As `three_way_merge`, and also returns one diagnostic record per
/// conflict, in the order of the walk.
pub fn three_way_merge_with_diagnostics(base: &Tree, a: &Tree, b: &Tree) -> (r: (
    Tree,
    bool,
    Vec<Diagnostic>,
))
    ensures
        r.0@ == merge_tree_v(base@, a@, b@).0,
        r.1 == merge_tree_v(base@, a@, b@).1,
        dview(r.2@) == tree_diags(Seq::empty(), base@, a@, b@),
{
    let mut diags: Vec<Diagnostic> = Vec::new();
    let ghost before = diags@;
    let m = three_way_merge_recursive(base, a, b, "", &mut diags);
    proof {
        reveal_strlit("");
        assert(""@ =~= Seq::<char>::empty());
        assert(dview(before) + tree_diags(""@, base@, a@, b@) =~= tree_diags(
            Seq::empty(),
            base@,
            a@,
            b@,
        ));
    }
    (m.0, m.1, diags)
}

} // verus!
