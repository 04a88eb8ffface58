//! The laws of the merge: properties proved of the merge model.

use vstd::prelude::*;
use crate::order::lex_lt;
use crate::order::min_key2;
use crate::order::lemma_lex_irrefl;
use crate::order::lemma_lex_asym;
use crate::order::lemma_lex_connex;
use crate::order::lemma_lex_trans;
use crate::tree::TreeV;
use crate::tree::sorted_keys;
use crate::tree::lookup_v;
use crate::tree::has_key;
use crate::tree::wf_v;
use crate::merge::merge_tree_v;
use crate::merge::merge_entries_v;
use crate::merge::entry_merge_v;
use crate::merge::head_key;
use crate::merge::tree_diags;
use crate::merge::entries_diags;
use crate::merge::joined_path;

verus! {

/// Merging equal entry lists changes nothing and finds no conflict.
proof fn lemma_entries_identity(es: Seq<(Seq<char>, TreeV)>)
    ensures
        merge_entries_v(es, es, es) == (es, false),
    decreases es,
{
    if es.len() == 0 {
        assert(merge_entries_v(es, es, es).0 =~= es);
    } else {
        lemma_entries_identity(es.drop_first());
        assert(merge_entries_v(es, es, es).0 =~= es);
    }
}

/// Merging a tree with itself on both branches returns the tree
/// unchanged and no conflict.
pub proof fn lemma_merge_identity(t: TreeV)
    ensures
        merge_tree_v(t, t, t) == (t, false),
{
    if t is Object {
        lemma_entries_identity(t->Object_0);
    }
}

} // verus!

verus! {

/// Walking base against itself and another list yields the other list.
proof fn lemma_entries_a_unchanged(es: Seq<(Seq<char>, TreeV)>, fs: Seq<(Seq<char>, TreeV)>)
    ensures
        merge_entries_v(es, es, fs) == (fs, false),
    decreases es, fs,
{
    if es.len() == 0 && fs.len() == 0 {
        assert(merge_entries_v(es, es, fs).0 =~= fs);
    } else if es.len() == 0 {
        lemma_entries_a_unchanged(es, fs.drop_first());
        assert(merge_entries_v(es, es, fs).0 =~= fs);
    } else if fs.len() == 0 {
        lemma_entries_a_unchanged(es.drop_first(), fs);
        assert(merge_entries_v(es, es, fs).0 =~= fs);
    } else {
        let e0 = es[0].0;
        let f0 = fs[0].0;
        lemma_lex_irrefl(e0);
        lemma_lex_irrefl(f0);
        if lex_lt(f0, e0) {
            lemma_lex_asym(f0, e0);
            lemma_entries_a_unchanged(es, fs.drop_first());
            assert(merge_entries_v(es, es, fs).0 =~= fs);
        } else if lex_lt(e0, f0) {
            lemma_lex_asym(e0, f0);
            lemma_entries_a_unchanged(es.drop_first(), fs);
            assert(merge_entries_v(es, es, fs).0 =~= fs);
        } else {
            lemma_lex_connex(e0, f0);
            lemma_entries_a_unchanged(es.drop_first(), fs.drop_first());
            assert(merge_entries_v(es, es, fs).0 =~= fs);
        }
    }
}

/// If branch A equals the base, the merge is branch B, with no conflict.
pub proof fn lemma_merge_a_unchanged(base: TreeV, b: TreeV)
    ensures
        merge_tree_v(base, base, b) == (b, false),
{
    if base is Object && b is Object {
        lemma_entries_a_unchanged(base->Object_0, b->Object_0);
    }
}

/// Walking base against another list and itself yields the other list.
proof fn lemma_entries_b_unchanged(es: Seq<(Seq<char>, TreeV)>, fs: Seq<(Seq<char>, TreeV)>)
    ensures
        merge_entries_v(es, fs, es) == (fs, false),
    decreases es, fs,
{
    if es.len() == 0 && fs.len() == 0 {
        assert(merge_entries_v(es, fs, es).0 =~= fs);
    } else if es.len() == 0 {
        lemma_entries_b_unchanged(es, fs.drop_first());
        assert(merge_entries_v(es, fs, es).0 =~= fs);
    } else if fs.len() == 0 {
        lemma_entries_b_unchanged(es.drop_first(), fs);
        assert(merge_entries_v(es, fs, es).0 =~= fs);
    } else {
        let e0 = es[0].0;
        let f0 = fs[0].0;
        lemma_lex_irrefl(e0);
        lemma_lex_irrefl(f0);
        if lex_lt(f0, e0) {
            lemma_lex_asym(f0, e0);
            lemma_entries_b_unchanged(es, fs.drop_first());
            assert(merge_entries_v(es, fs, es).0 =~= fs);
        } else if lex_lt(e0, f0) {
            lemma_lex_asym(e0, f0);
            lemma_entries_b_unchanged(es.drop_first(), fs);
            assert(merge_entries_v(es, fs, es).0 =~= fs);
        } else {
            lemma_lex_connex(e0, f0);
            lemma_entries_b_unchanged(es.drop_first(), fs.drop_first());
            assert(merge_entries_v(es, fs, es).0 =~= fs);
        }
    }
}

/// If branch B equals the base, the merge is branch A, with no conflict.
pub proof fn lemma_merge_b_unchanged(base: TreeV, a: TreeV)
    ensures
        merge_tree_v(base, a, base) == (a, false),
{
    if base is Object && a is Object {
        lemma_entries_b_unchanged(base->Object_0, a->Object_0);
    }
}

/// Tie-break determinism: where the three values do not all have object
/// shape and all three differ pairwise, the merge keeps branch A's value
/// and reports a conflict.
pub proof fn lemma_merge_tie_break(base: TreeV, a: TreeV, b: TreeV)
    requires
        !(base is Object && a is Object && b is Object),
        a != b,
        a != base,
        b != base,
    ensures
        merge_tree_v(base, a, b) == (a, true),
{
}

/// Deletion symmetry at one key: a key deleted in one branch and left
/// unchanged in the other leaves the merge, without conflict; deleted in
/// both it leaves too; deleted in one branch but modified in the other,
/// the modified value stays and the position conflicts.
pub proof fn lemma_entry_deletion(x: TreeV, y: TreeV)
    ensures
        entry_merge_v(Some(x), Some(x), None) == (None::<TreeV>, false),
        entry_merge_v(Some(x), None, Some(x)) == (None::<TreeV>, false),
        entry_merge_v(Some(x), None, None) == (None::<TreeV>, false),
        x != y ==> entry_merge_v(Some(x), Some(y), None) == (Some(y), true),
        x != y ==> entry_merge_v(Some(x), None, Some(y)) == (Some(y), true),
{
}

} // verus!

verus! {

proof fn lemma_min_key2_le(x: Seq<char>, y: Seq<char>)
    ensures
        min_key2(x, y) == x || min_key2(x, y) == y,
        !lex_lt(x, min_key2(x, y)),
        !lex_lt(y, min_key2(x, y)),
{
    lemma_lex_irrefl(x);
    lemma_lex_irrefl(y);
    if lex_lt(y, x) {
        lemma_lex_asym(y, x);
    }
}

proof fn lemma_sorted_tail(es: Seq<(Seq<char>, TreeV)>)
    requires
        sorted_keys(es),
        es.len() > 0,
    ensures
        sorted_keys(es.drop_first()),
{
    assert forall|i: int, j: int|
        0 <= i < j < es.drop_first().len() implies lex_lt(
        (#[trigger] es.drop_first()[i]).0,
        (#[trigger] es.drop_first()[j]).0,
    ) by {
        assert(es.drop_first()[i] == es[i + 1]);
        assert(es.drop_first()[j] == es[j + 1]);
    }
}

/// A key smaller than every key of a sorted list is not in the list.
proof fn lemma_sorted_absent(es: Seq<(Seq<char>, TreeV)>, k: Seq<char>)
    requires
        sorted_keys(es),
        es.len() == 0 || lex_lt(k, es[0].0),
    ensures
        lookup_v(es, k) is None,
    decreases es.len(),
{
    if es.len() > 0 {
        lemma_lex_irrefl(k);
        assert(es[0].0 != k);
        lemma_sorted_tail(es);
        if es.len() > 1 {
            assert(lex_lt(es[0].0, es[1].0));
            lemma_lex_trans(k, es[0].0, es[1].0);
            assert(es.drop_first()[0] == es[1]);
        }
        lemma_sorted_absent(es.drop_first(), k);
    }
}

/// The head facts of one step of the walk: the chosen key is a present
/// head, and every nonempty list's head is at least the chosen key.
proof fn lemma_head_key_facts(
    bs: Seq<(Seq<char>, TreeV)>,
    xs: Seq<(Seq<char>, TreeV)>,
    ys: Seq<(Seq<char>, TreeV)>,
)
    requires
        bs.len() > 0 || xs.len() > 0 || ys.len() > 0,
    ensures
        bs.len() > 0 ==> !lex_lt(bs[0].0, head_key(bs, xs, ys)),
        xs.len() > 0 ==> !lex_lt(xs[0].0, head_key(bs, xs, ys)),
        ys.len() > 0 ==> !lex_lt(ys[0].0, head_key(bs, xs, ys)),
        (bs.len() > 0 && bs[0].0 == head_key(bs, xs, ys)) || (xs.len() > 0 && xs[0].0 == head_key(
            bs,
            xs,
            ys,
        )) || (ys.len() > 0 && ys[0].0 == head_key(bs, xs, ys)),
{
    if bs.len() > 0 && xs.len() > 0 {
        lemma_min_key2_le(bs[0].0, xs[0].0);
        if ys.len() > 0 {
            lemma_min_key2_le(min_key2(bs[0].0, xs[0].0), ys[0].0);
            if lex_lt(bs[0].0, head_key(bs, xs, ys)) {
                lemma_lex_trans(bs[0].0, head_key(bs, xs, ys), min_key2(bs[0].0, xs[0].0));
            }
            if lex_lt(xs[0].0, head_key(bs, xs, ys)) {
                lemma_lex_trans(xs[0].0, head_key(bs, xs, ys), min_key2(bs[0].0, xs[0].0));
            }
        }
    } else if bs.len() > 0 && ys.len() > 0 {
        lemma_min_key2_le(bs[0].0, ys[0].0);
    } else if xs.len() > 0 && ys.len() > 0 {
        lemma_min_key2_le(xs[0].0, ys[0].0);
    } else {
        if bs.len() > 0 {
            lemma_lex_irrefl(bs[0].0);
        }
        if xs.len() > 0 {
            lemma_lex_irrefl(xs[0].0);
        }
        if ys.len() > 0 {
            lemma_lex_irrefl(ys[0].0);
        }
    }
}

} // verus!

verus! {

/// Union-of-keys completeness: the value of the merged object at any
/// key is exactly what per-key resolution says of the three values at
/// that key — present when resolution keeps the key, absent when it
/// drops it, and absent for keys outside the union.
pub proof fn lemma_merge_entries_lookup(
    bs: Seq<(Seq<char>, TreeV)>,
    xs: Seq<(Seq<char>, TreeV)>,
    ys: Seq<(Seq<char>, TreeV)>,
    k: Seq<char>,
)
    requires
        sorted_keys(bs),
        sorted_keys(xs),
        sorted_keys(ys),
    ensures
        lookup_v(merge_entries_v(bs, xs, ys).0, k) == entry_merge_v(
            lookup_v(bs, k),
            lookup_v(xs, k),
            lookup_v(ys, k),
        ).0,
    decreases bs, xs, ys,
{
    if bs.len() == 0 && xs.len() == 0 && ys.len() == 0 {
    } else {
        let hk = head_key(bs, xs, ys);
        let pb = bs.len() > 0 && bs[0].0 == hk;
        let pa = xs.len() > 0 && xs[0].0 == hk;
        let pc = ys.len() > 0 && ys[0].0 == hk;
        let bs1 = if pb { bs.drop_first() } else { bs };
        let xs1 = if pa { xs.drop_first() } else { xs };
        let ys1 = if pc { ys.drop_first() } else { ys };
        lemma_head_key_facts(bs, xs, ys);
        if pb {
            lemma_sorted_tail(bs);
        }
        if pa {
            lemma_sorted_tail(xs);
        }
        if pc {
            lemma_sorted_tail(ys);
        }
        if bs.len() > 0 && !pb {
            assert(lex_lt(hk, bs[0].0)) by {
                if !lex_lt(hk, bs[0].0) {
                    lemma_lex_connex(hk, bs[0].0);
                }
            }
        }
        if xs.len() > 0 && !pa {
            assert(lex_lt(hk, xs[0].0)) by {
                if !lex_lt(hk, xs[0].0) {
                    lemma_lex_connex(hk, xs[0].0);
                }
            }
        }
        if ys.len() > 0 && !pc {
            assert(lex_lt(hk, ys[0].0)) by {
                if !lex_lt(hk, ys[0].0) {
                    lemma_lex_connex(hk, ys[0].0);
                }
            }
        }
        lemma_merge_entries_lookup(bs1, xs1, ys1, k);
        let m = merge_entries_v(bs, xs, ys);
        let rest = merge_entries_v(bs1, xs1, ys1);
        if k == hk {
            // at the chosen key, the three lookups are the present heads
            if bs.len() > 0 && !pb {
                lemma_sorted_absent(bs, k);
            }
            if xs.len() > 0 && !pa {
                lemma_sorted_absent(xs, k);
            }
            if ys.len() > 0 && !pc {
                lemma_sorted_absent(ys, k);
            }
            // and it does not appear in any of the three tails
            if bs1.len() > 0 {
                assert(lex_lt(k, bs1[0].0));
            }
            if xs1.len() > 0 {
                assert(lex_lt(k, xs1[0].0));
            }
            if ys1.len() > 0 {
                assert(lex_lt(k, ys1[0].0));
            }
            lemma_sorted_absent(bs1, k);
            lemma_sorted_absent(xs1, k);
            lemma_sorted_absent(ys1, k);
            assert(lookup_v(rest.0, k) is None);
            if m.0.len() != rest.0.len() {
                assert(m.0[0].0 == hk);
                assert(lookup_v(m.0, k) == Some(m.0[0].1));
            }
        } else {
            // at any other key, this step changes nothing
            if pb {
                assert(lookup_v(bs, k) == lookup_v(bs1, k));
            }
            if pa {
                assert(lookup_v(xs, k) == lookup_v(xs1, k));
            }
            if pc {
                assert(lookup_v(ys, k) == lookup_v(ys1, k));
            }
            if m.0.len() != rest.0.len() {
                assert(m.0[0].0 == hk);
                assert(m.0.drop_first() =~= rest.0);
                assert(lookup_v(m.0, k) == lookup_v(rest.0, k));
            }
        }
    }
}

} // verus!

verus! {

/// Recursive conflict propagation: the walk over three (sorted) entry
/// lists reports a conflict exactly when some key of the union resolves
/// with a conflict; per-key resolution of nested objects is itself the
/// merge, so one conflict at any depth reaches the top flag.
pub proof fn lemma_merge_entries_conflict(
    bs: Seq<(Seq<char>, TreeV)>,
    xs: Seq<(Seq<char>, TreeV)>,
    ys: Seq<(Seq<char>, TreeV)>,
)
    requires
        sorted_keys(bs),
        sorted_keys(xs),
        sorted_keys(ys),
    ensures
        merge_entries_v(bs, xs, ys).1 <==> exists|k: Seq<char>|
            #[trigger] entry_merge_v(lookup_v(bs, k), lookup_v(xs, k), lookup_v(ys, k)).1,
    decreases bs, xs, ys,
{
    if bs.len() == 0 && xs.len() == 0 && ys.len() == 0 {
        assert forall|k: Seq<char>|
            !(#[trigger] entry_merge_v(lookup_v(bs, k), lookup_v(xs, k), lookup_v(ys, k)).1) by {
            assert(lookup_v(bs, k) is None);
        }
    } else {
        let hk = head_key(bs, xs, ys);
        let pb = bs.len() > 0 && bs[0].0 == hk;
        let pa = xs.len() > 0 && xs[0].0 == hk;
        let pc = ys.len() > 0 && ys[0].0 == hk;
        let bs1 = if pb { bs.drop_first() } else { bs };
        let xs1 = if pa { xs.drop_first() } else { xs };
        let ys1 = if pc { ys.drop_first() } else { ys };
        lemma_head_key_facts(bs, xs, ys);
        if pb {
            lemma_sorted_tail(bs);
        }
        if pa {
            lemma_sorted_tail(xs);
        }
        if pc {
            lemma_sorted_tail(ys);
        }
        if bs.len() > 0 && !pb {
            assert(lex_lt(hk, bs[0].0)) by {
                if !lex_lt(hk, bs[0].0) {
                    lemma_lex_connex(hk, bs[0].0);
                }
            }
        }
        if xs.len() > 0 && !pa {
            assert(lex_lt(hk, xs[0].0)) by {
                if !lex_lt(hk, xs[0].0) {
                    lemma_lex_connex(hk, xs[0].0);
                }
            }
        }
        if ys.len() > 0 && !pc {
            assert(lex_lt(hk, ys[0].0)) by {
                if !lex_lt(hk, ys[0].0) {
                    lemma_lex_connex(hk, ys[0].0);
                }
            }
        }
        // at the chosen key, the lookups are the present heads, and the
        // chosen key does not appear in any tail
        if bs.len() > 0 && !pb {
            lemma_sorted_absent(bs, hk);
        }
        if xs.len() > 0 && !pa {
            lemma_sorted_absent(xs, hk);
        }
        if ys.len() > 0 && !pc {
            lemma_sorted_absent(ys, hk);
        }
        if bs1.len() > 0 {
            assert(lex_lt(hk, bs1[0].0));
        }
        if xs1.len() > 0 {
            assert(lex_lt(hk, xs1[0].0));
        }
        if ys1.len() > 0 {
            assert(lex_lt(hk, ys1[0].0));
        }
        lemma_sorted_absent(bs1, hk);
        lemma_sorted_absent(xs1, hk);
        lemma_sorted_absent(ys1, hk);
        lemma_merge_entries_conflict(bs1, xs1, ys1);
        let m = merge_entries_v(bs, xs, ys);
        let rest = merge_entries_v(bs1, xs1, ys1);
        assert forall|k: Seq<char>| k != hk implies (#[trigger] entry_merge_v(
            lookup_v(bs, k),
            lookup_v(xs, k),
            lookup_v(ys, k),
        ).1 == entry_merge_v(lookup_v(bs1, k), lookup_v(xs1, k), lookup_v(ys1, k)).1) by {
            if pb {
                assert(lookup_v(bs, k) == lookup_v(bs1, k));
            }
            if pa {
                assert(lookup_v(xs, k) == lookup_v(xs1, k));
            }
            if pc {
                assert(lookup_v(ys, k) == lookup_v(ys1, k));
            }
        }
        if m.1 {
            if rest.1 {
                let kw = choose|k: Seq<char>|
                    #[trigger] entry_merge_v(
                        lookup_v(bs1, k),
                        lookup_v(xs1, k),
                        lookup_v(ys1, k),
                    ).1;
                assert(kw != hk);
                assert(entry_merge_v(lookup_v(bs, kw), lookup_v(xs, kw), lookup_v(ys, kw)).1);
            } else {
                assert(entry_merge_v(lookup_v(bs, hk), lookup_v(xs, hk), lookup_v(ys, hk)).1);
            }
        }
        if exists|k: Seq<char>|
            #[trigger] entry_merge_v(lookup_v(bs, k), lookup_v(xs, k), lookup_v(ys, k)).1 {
            let kw = choose|k: Seq<char>|
                #[trigger] entry_merge_v(lookup_v(bs, k), lookup_v(xs, k), lookup_v(ys, k)).1;
            if kw == hk {
                assert(m.1);
            } else {
                assert(entry_merge_v(lookup_v(bs1, kw), lookup_v(xs1, kw), lookup_v(ys1, kw)).1);
                assert(rest.1);
            }
        }
    }
}

} // verus!

verus! {

proof fn lemma_sorted_key_ge_head(es: Seq<(Seq<char>, TreeV)>, kk: Seq<char>)
    requires
        sorted_keys(es),
        has_key(es, kk),
    ensures
        es.len() > 0,
        kk == es[0].0 || lex_lt(es[0].0, kk),
    decreases es.len(),
{
    if es[0].0 != kk {
        lemma_sorted_tail(es);
        lemma_sorted_key_ge_head(es.drop_first(), kk);
        if es.len() > 1 {
            assert(es.drop_first()[0] == es[1]);
            if lex_lt(es[1].0, kk) {
                lemma_lex_trans(es[0].0, es[1].0, kk);
            }
        }
    }
}

/// The walk keeps the canonical form: sorted keys drawn from the union,
/// and every kept value well-formed.
proof fn lemma_merge_entries_wf(
    bs: Seq<(Seq<char>, TreeV)>,
    xs: Seq<(Seq<char>, TreeV)>,
    ys: Seq<(Seq<char>, TreeV)>,
)
    requires
        sorted_keys(bs),
        sorted_keys(xs),
        sorted_keys(ys),
        forall|i: int| 0 <= i < bs.len() ==> wf_v((#[trigger] bs[i]).1),
        forall|i: int| 0 <= i < xs.len() ==> wf_v((#[trigger] xs[i]).1),
        forall|i: int| 0 <= i < ys.len() ==> wf_v((#[trigger] ys[i]).1),
    ensures
        sorted_keys(merge_entries_v(bs, xs, ys).0),
        forall|i: int|
            0 <= i < merge_entries_v(bs, xs, ys).0.len() ==> wf_v(
                (#[trigger] merge_entries_v(bs, xs, ys).0[i]).1,
            ),
        forall|i: int|
            0 <= i < merge_entries_v(bs, xs, ys).0.len() ==> has_key(
                bs,
                (#[trigger] merge_entries_v(bs, xs, ys).0[i]).0,
            ) || has_key(xs, merge_entries_v(bs, xs, ys).0[i].0) || has_key(
                ys,
                merge_entries_v(bs, xs, ys).0[i].0,
            ),
    decreases bs, xs, ys,
{
    if bs.len() == 0 && xs.len() == 0 && ys.len() == 0 {
    } else {
        let hk = head_key(bs, xs, ys);
        let pb = bs.len() > 0 && bs[0].0 == hk;
        let pa = xs.len() > 0 && xs[0].0 == hk;
        let pc = ys.len() > 0 && ys[0].0 == hk;
        let bs1 = if pb { bs.drop_first() } else { bs };
        let xs1 = if pa { xs.drop_first() } else { xs };
        let ys1 = if pc { ys.drop_first() } else { ys };
        lemma_head_key_facts(bs, xs, ys);
        if pb {
            lemma_sorted_tail(bs);
        }
        if pa {
            lemma_sorted_tail(xs);
        }
        if pc {
            lemma_sorted_tail(ys);
        }
        if bs.len() > 0 && !pb {
            assert(lex_lt(hk, bs[0].0)) by {
                if !lex_lt(hk, bs[0].0) {
                    lemma_lex_connex(hk, bs[0].0);
                }
            }
        }
        if xs.len() > 0 && !pa {
            assert(lex_lt(hk, xs[0].0)) by {
                if !lex_lt(hk, xs[0].0) {
                    lemma_lex_connex(hk, xs[0].0);
                }
            }
        }
        if ys.len() > 0 && !pc {
            assert(lex_lt(hk, ys[0].0)) by {
                if !lex_lt(hk, ys[0].0) {
                    lemma_lex_connex(hk, ys[0].0);
                }
            }
        }
        if pb && pa && pc && bs[0].1 is Object && xs[0].1 is Object && ys[0].1 is Object {
            lemma_merge_wf(bs[0].1, xs[0].1, ys[0].1);
        }
        lemma_merge_entries_wf(bs1, xs1, ys1);
        let m = merge_entries_v(bs, xs, ys);
        let rest = merge_entries_v(bs1, xs1, ys1);
        // every key of the rest lies in a tail, hence is greater than hk
        assert forall|q: int| 0 <= q < rest.0.len() implies lex_lt(hk, (#[trigger] rest.0[q]).0)
        by {
            let kq = rest.0[q].0;
            if has_key(bs1, kq) {
                lemma_sorted_key_ge_head(bs1, kq);
                if pb && bs.len() > 1 {
                    assert(bs1[0] == bs[1]);
                    if kq != bs1[0].0 {
                        lemma_lex_trans(hk, bs1[0].0, kq);
                    }
                } else {
                    if kq != bs1[0].0 {
                        lemma_lex_trans(hk, bs1[0].0, kq);
                    }
                }
            } else if has_key(xs1, kq) {
                lemma_sorted_key_ge_head(xs1, kq);
                if kq != xs1[0].0 {
                    lemma_lex_trans(hk, xs1[0].0, kq);
                }
            } else {
                lemma_sorted_key_ge_head(ys1, kq);
                if kq != ys1[0].0 {
                    lemma_lex_trans(hk, ys1[0].0, kq);
                }
            }
        }
        // keys of the rest are also keys of the full lists
        assert forall|q: int|
            0 <= q < rest.0.len() implies (has_key(bs, (#[trigger] rest.0[q]).0) || has_key(
            xs,
            rest.0[q].0,
        ) || has_key(ys, rest.0[q].0)) by {
            let kq = rest.0[q].0;
            if pb {
                assert(lookup_v(bs, kq) == lookup_v(bs1, kq));
            }
            if pa {
                assert(lookup_v(xs, kq) == lookup_v(xs1, kq));
            }
            if pc {
                assert(lookup_v(ys, kq) == lookup_v(ys1, kq));
            }
        }
        if m.0.len() != rest.0.len() {
            // a kept entry stands first: key hk, value from the step
            assert(m.0[0].0 == hk);
            assert(m.0.drop_first() =~= rest.0);
            assert(has_key(bs, hk) || has_key(xs, hk) || has_key(ys, hk)) by {
                if pb {
                    assert(lookup_v(bs, hk) is Some);
                } else if pa {
                    assert(lookup_v(xs, hk) is Some);
                } else {
                    assert(lookup_v(ys, hk) is Some);
                }
            }
            assert forall|i: int, j: int| 0 <= i < j < m.0.len() implies lex_lt(
                (#[trigger] m.0[i]).0,
                (#[trigger] m.0[j]).0,
            ) by {
                if i > 0 {
                    assert(m.0[i] == rest.0[i - 1]);
                    assert(m.0[j] == rest.0[j - 1]);
                } else {
                    assert(m.0[j] == rest.0[j - 1]);
                    assert(lex_lt(hk, rest.0[j - 1].0));
                }
            }
        }
    }
}

/// Merging well-formed trees yields a well-formed tree: the canonical
/// sorted-key form is preserved at every object of the result.
pub proof fn lemma_merge_wf(base: TreeV, a: TreeV, b: TreeV)
    requires
        wf_v(base),
        wf_v(a),
        wf_v(b),
    ensures
        wf_v(merge_tree_v(base, a, b).0),
    decreases base, a, b,
{
    if base is Object && a is Object && b is Object {
        lemma_merge_entries_wf(base->Object_0, a->Object_0, b->Object_0);
    }
}

} // verus!

verus! {

/// Union-of-keys completeness at an object node: for every key, the
/// merged object holds exactly the value that per-key resolution keeps,
/// and no entry for a key whose resolution says "absent".
pub proof fn lemma_merge_object_resolution(base: TreeV, a: TreeV, b: TreeV, k: Seq<char>)
    requires
        base is Object,
        a is Object,
        b is Object,
        wf_v(base),
        wf_v(a),
        wf_v(b),
    ensures
        merge_tree_v(base, a, b).0 is Object,
        lookup_v(merge_tree_v(base, a, b).0->Object_0, k) == entry_merge_v(
            lookup_v(base->Object_0, k),
            lookup_v(a->Object_0, k),
            lookup_v(b->Object_0, k),
        ).0,
{
    lemma_merge_entries_lookup(base->Object_0, a->Object_0, b->Object_0, k);
}

/// Conflict propagation at an object node: the merge is flagged exactly
/// when some key of the union resolves with a conflict, at whatever
/// nesting depth that conflict sits.
pub proof fn lemma_merge_conflict_propagation(base: TreeV, a: TreeV, b: TreeV)
    requires
        base is Object,
        a is Object,
        b is Object,
        wf_v(base),
        wf_v(a),
        wf_v(b),
    ensures
        merge_tree_v(base, a, b).1 <==> exists|k: Seq<char>|
            #[trigger] entry_merge_v(
                lookup_v(base->Object_0, k),
                lookup_v(a->Object_0, k),
                lookup_v(b->Object_0, k),
            ).1,
{
    lemma_merge_entries_conflict(base->Object_0, a->Object_0, b->Object_0);
}

} // verus!

verus! {

/// The walk emits a diagnostic exactly when it reports a conflict.
proof fn lemma_entries_diags_flag(
    path: Seq<char>,
    bs: Seq<(Seq<char>, TreeV)>,
    xs: Seq<(Seq<char>, TreeV)>,
    ys: Seq<(Seq<char>, TreeV)>,
)
    ensures
        (entries_diags(path, bs, xs, ys).len() > 0) == merge_entries_v(bs, xs, ys).1,
    decreases bs, xs, ys,
{
    if bs.len() == 0 && xs.len() == 0 && ys.len() == 0 {
    } else {
        let hk = head_key(bs, xs, ys);
        let pb = bs.len() > 0 && bs[0].0 == hk;
        let pa = xs.len() > 0 && xs[0].0 == hk;
        let pc = ys.len() > 0 && ys[0].0 == hk;
        let bs1 = if pb { bs.drop_first() } else { bs };
        let xs1 = if pa { xs.drop_first() } else { xs };
        let ys1 = if pc { ys.drop_first() } else { ys };
        if pb && pa && pc && bs[0].1 is Object && xs[0].1 is Object && ys[0].1 is Object {
            lemma_tree_diags_flag(joined_path(path, hk), bs[0].1, xs[0].1, ys[0].1);
        }
        lemma_entries_diags_flag(path, bs1, xs1, ys1);
    }
}

/// A diagnostic is emitted if and only if the merge reports a conflict:
/// the conflict flag and the diagnostic side channel agree.
pub proof fn lemma_tree_diags_flag(path: Seq<char>, base: TreeV, a: TreeV, b: TreeV)
    ensures
        (tree_diags(path, base, a, b).len() > 0) == merge_tree_v(base, a, b).1,
    decreases base, a, b,
{
    if base is Object && a is Object && b is Object {
        lemma_entries_diags_flag(path, base->Object_0, a->Object_0, b->Object_0);
    }
}

/// Deletion symmetry at an object node: a key deleted in branch B and
/// left unchanged in branch A is absent from the merged object.
pub proof fn lemma_merge_deletion(base: TreeV, a: TreeV, b: TreeV, k: Seq<char>)
    requires
        base is Object,
        a is Object,
        b is Object,
        wf_v(base),
        wf_v(a),
        wf_v(b),
        lookup_v(base->Object_0, k) is Some,
        lookup_v(a->Object_0, k) == lookup_v(base->Object_0, k),
        lookup_v(b->Object_0, k) is None,
    ensures
        !has_key(merge_tree_v(base, a, b).0->Object_0, k),
{
    lemma_merge_object_resolution(base, a, b, k);
}

} // verus!
