//! Lexicographic order on object keys.
//!
//! Object entries are kept sorted by key, so every tree has one canonical
//! representation and structural equality of the models coincides with
//! map equality of the objects.

use vstd::prelude::*;

verus! {

/// Strict lexicographic order on key character sequences, by code point.
pub open spec fn lex_lt(a: Seq<char>, b: Seq<char>) -> bool
    decreases a.len(),
{
    if b.len() == 0 {
        false
    } else if a.len() == 0 {
        true
    } else if a[0] != b[0] {
        (a[0] as u32) < (b[0] as u32)
    } else {
        lex_lt(a.drop_first(), b.drop_first())
    }
}

proof fn lemma_char_inj(c1: char, c2: char)
    requires
        c1 as u32 == c2 as u32,
    ensures
        c1 == c2,
{
}

pub proof fn lemma_lex_irrefl(a: Seq<char>)
    ensures
        !lex_lt(a, a),
    decreases a.len(),
{
    if a.len() > 0 {
        lemma_lex_irrefl(a.drop_first());
    }
}

pub proof fn lemma_lex_asym(a: Seq<char>, b: Seq<char>)
    requires
        lex_lt(a, b),
    ensures
        !lex_lt(b, a),
    decreases a.len(),
{
    if a.len() > 0 && b.len() > 0 && a[0] == b[0] {
        lemma_lex_asym(a.drop_first(), b.drop_first());
    }
}

/// The order is total: two keys that are not ordered either way are equal.
pub proof fn lemma_lex_connex(a: Seq<char>, b: Seq<char>)
    requires
        !lex_lt(a, b),
        !lex_lt(b, a),
    ensures
        a == b,
    decreases a.len(),
{
    if a.len() == 0 {
        assert(b.len() == 0);
        assert(a =~= b);
    } else {
        assert(b.len() > 0);
        if a[0] != b[0] {
            assert(!((a[0] as u32) < (b[0] as u32)));
            assert(!((b[0] as u32) < (a[0] as u32)));
            assert(a[0] as u32 == b[0] as u32);
            lemma_char_inj(a[0], b[0]);
            assert(false);
        }
        assert(a[0] == b[0]);
        lemma_lex_connex(a.drop_first(), b.drop_first());
        assert(a =~= b) by {
            assert(a.drop_first() =~= b.drop_first());
            assert forall|i: int| 0 <= i < a.len() implies a[i] == b[i] by {
                if i > 0 {
                    assert(a[i] == a.drop_first()[i - 1]);
                    assert(b[i] == b.drop_first()[i - 1]);
                }
            }
        }
    }
}

pub proof fn lemma_lex_trans(a: Seq<char>, b: Seq<char>, c: Seq<char>)
    requires
        lex_lt(a, b),
        lex_lt(b, c),
    ensures
        lex_lt(a, c),
    decreases a.len(),
{
    if a.len() > 0 && b.len() > 0 && c.len() > 0 && a[0] == b[0] && b[0] == c[0] {
        lemma_lex_trans(a.drop_first(), b.drop_first(), c.drop_first());
    }
}

/// The three-way outcome of comparing two keys.
pub enum KeyOrder {
    Less,
    Equal,
    Greater,
}

/// Relies on `Ord::cmp` for `str`: strings compare lexicographically by
/// byte value, which std documents to be the same order as comparing the
/// sequences of code points.
#[verifier::external_body]
pub(crate) fn key_cmp(a: &str, b: &str) -> (r: KeyOrder)
    ensures
        r is Less ==> lex_lt(a@, b@),
        r is Equal ==> a@ == b@,
        r is Greater ==> lex_lt(b@, a@),
{
    match a.cmp(b) {
        core::cmp::Ordering::Less => KeyOrder::Less,
        core::cmp::Ordering::Equal => KeyOrder::Equal,
        core::cmp::Ordering::Greater => KeyOrder::Greater,
    }
}

/// The smaller of two keys; the first wins a tie.
pub open spec fn min_key2(k1: Seq<char>, k2: Seq<char>) -> Seq<char> {
    if lex_lt(k2, k1) {
        k2
    } else {
        k1
    }
}

/// Picks the smaller of two keys, preferring the first on a tie.
pub(crate) fn min_key<'a>(k1: &'a String, k2: &'a String) -> (r: &'a String)
    ensures
        r@ == min_key2(k1@, k2@),
{
    match key_cmp(k1.as_str(), k2.as_str()) {
        KeyOrder::Greater => k2,
        KeyOrder::Less => {
            proof {
                lemma_lex_asym(k1@, k2@);
            }
            k1
        }
        KeyOrder::Equal => {
            proof {
                lemma_lex_irrefl(k1@);
            }
            k1
        }
    }
}

} // verus!
