//! Lexicographic order on character sequences.

use vstd::prelude::*;

verus! {

/// Strict lexicographic order on character sequences, comparing characters
/// by code point: `a` comes before `b` when `a` is a proper prefix of `b`,
/// or when the two differ at the first position where they disagree and
/// `a` holds the smaller character there.
pub open spec fn lex_lt(a: Seq<char>, b: Seq<char>) -> bool
    decreases a.len(),
{
    if b.len() == 0 {
        false
    } else if a.len() == 0 {
        true
    } else if a[0] != b[0] {
        (a[0] as u32) < (b[0] as u32)
    } else {
        lex_lt(a.drop_first(), b.drop_first())
    }
}

/// Two nonempty sequences with the same head and the same tail are equal.
pub proof fn lemma_eq_head_tail(a: Seq<char>, b: Seq<char>)
    requires
        a.len() > 0,
        b.len() > 0,
        a[0] == b[0],
        a.drop_first() =~= b.drop_first(),
    ensures
        a =~= b,
{
    assert(a.len() == b.len()) by {
        assert(a.drop_first().len() == b.drop_first().len());
    }
    assert forall|k: int| 0 <= k < a.len() implies a[k] == b[k] by {
        if k > 0 {
            assert(a.drop_first()[k - 1] == a[k]);
            assert(b.drop_first()[k - 1] == b[k]);
        }
    }
}

/// No sequence comes before itself.
pub proof fn lemma_lex_lt_irreflexive(a: Seq<char>)
    ensures
        !lex_lt(a, a),
    decreases a.len(),
{
    if a.len() > 0 {
        lemma_lex_lt_irreflexive(a.drop_first());
    }
}

/// The order runs one way: two sequences never both precede each other.
pub proof fn lemma_lex_lt_asymmetric(a: Seq<char>, b: Seq<char>)
    requires
        lex_lt(a, b),
    ensures
        !lex_lt(b, a),
    decreases a.len(),
{
    if a.len() > 0 && b.len() > 0 && a[0] == b[0] {
        lemma_lex_lt_asymmetric(a.drop_first(), b.drop_first());
    }
}

/// Two strictly ascending listings with the same members are the same
/// listing: an ordered, duplicate-free enumeration is determined by the set
/// it enumerates. In particular, tries holding the same words enumerate any
/// prefix identically.
pub proof fn lemma_sorted_listing_unique(a: Seq<Seq<char>>, b: Seq<Seq<char>>)
    requires
        forall|i: int, j: int| 0 <= i < j < a.len() ==> lex_lt(#[trigger] a[i], #[trigger] a[j]),
        forall|i: int, j: int| 0 <= i < j < b.len() ==> lex_lt(#[trigger] b[i], #[trigger] b[j]),
        forall|x: Seq<char>| a.contains(x) <==> b.contains(x),
    ensures
        a =~= b,
    decreases a.len(),
{
    if a.len() == 0 {
        if b.len() > 0 {
            assert(b.contains(b[0]));
            assert(a.contains(b[0]));
            assert(false);
        }
        assert(a =~= b);
    } else {
        assert(a.contains(a[0]));
        assert(b.contains(a[0]));
        let i0 = choose|i: int| 0 <= i < b.len() && b[i] == a[0];
        if b.len() == 0 {
            assert(false);
        }
        assert(b.contains(b[0]));
        assert(a.contains(b[0]));
        let j0 = choose|j: int| 0 <= j < a.len() && a[j] == b[0];
        if a[0] != b[0] {
            assert(i0 > 0);
            assert(j0 > 0);
            assert(lex_lt(b[0], b[i0]));
            assert(lex_lt(a[0], a[j0]));
            lemma_lex_lt_asymmetric(a[0], b[0]);
            assert(false);
        }
        assert forall|x: Seq<char>|
            a.drop_first().contains(x) <==> b.drop_first().contains(x) by {
            if a.drop_first().contains(x) {
                let k = choose|k: int| 0 <= k < a.drop_first().len() && a.drop_first()[k] == x;
                assert(a[k + 1] == x);
                assert(lex_lt(a[0], a[k + 1]));
                lemma_lex_lt_irreflexive(a[0]);
                assert(x != a[0]);
                assert(a.contains(x));
                assert(b.contains(x));
                let m = choose|m: int| 0 <= m < b.len() && b[m] == x;
                assert(m != 0);
                assert(b.drop_first()[m - 1] == x);
                assert(b.drop_first().contains(x));
            }
            if b.drop_first().contains(x) {
                let k = choose|k: int| 0 <= k < b.drop_first().len() && b.drop_first()[k] == x;
                assert(b[k + 1] == x);
                assert(lex_lt(b[0], b[k + 1]));
                lemma_lex_lt_irreflexive(b[0]);
                assert(x != b[0]);
                assert(b.contains(x));
                assert(a.contains(x));
                let m = choose|m: int| 0 <= m < a.len() && a[m] == x;
                assert(m != 0);
                assert(a.drop_first()[m - 1] == x);
                assert(a.drop_first().contains(x));
            }
        }
        assert forall|i: int, j: int|
            0 <= i < j < a.drop_first().len() implies lex_lt(
            #[trigger] a.drop_first()[i],
            #[trigger] a.drop_first()[j],
        ) by {
            assert(a.drop_first()[i] == a[i + 1]);
            assert(a.drop_first()[j] == a[j + 1]);
        }
        assert forall|i: int, j: int|
            0 <= i < j < b.drop_first().len() implies lex_lt(
            #[trigger] b.drop_first()[i],
            #[trigger] b.drop_first()[j],
        ) by {
            assert(b.drop_first()[i] == b[i + 1]);
            assert(b.drop_first()[j] == b[j + 1]);
        }
        lemma_sorted_listing_unique(a.drop_first(), b.drop_first());
        assert(a.len() == b.len()) by {
            assert(a.drop_first().len() == b.drop_first().len());
        }
        assert forall|k: int| 0 <= k < a.len() implies a[k] == b[k] by {
            if k > 0 {
                assert(a.drop_first()[k - 1] == a[k]);
                assert(b.drop_first()[k - 1] == b[k]);
            }
        }
    }
}

/// A proper prefix comes strictly before every extension of it.
pub proof fn lemma_lex_lt_proper_prefix(a: Seq<char>, b: Seq<char>)
    requires
        a.len() < b.len(),
        a =~= b.take(a.len() as int),
    ensures
        lex_lt(a, b),
    decreases a.len(),
{
    if a.len() > 0 {
        assert(a[0] == b[0]);
        lemma_lex_lt_proper_prefix(a.drop_first(), b.drop_first());
    }
}

/// Two sequences that agree on a common prefix and then diverge are ordered
/// by the first characters after that prefix.
pub proof fn lemma_lex_lt_common_prefix(p: Seq<char>, a: Seq<char>, b: Seq<char>)
    requires
        p.len() < a.len(),
        p.len() < b.len(),
        p =~= a.take(p.len() as int),
        p =~= b.take(p.len() as int),
        (a[p.len() as int] as u32) < (b[p.len() as int] as u32),
    ensures
        lex_lt(a, b),
    decreases p.len(),
{
    if p.len() == 0 {
        assert(a[0] != b[0]);
    } else {
        assert(a.take(p.len() as int)[0] == a[0]);
        assert(b.take(p.len() as int)[0] == b[0]);
        assert(a[0] == b[0]);
        assert(p.drop_first() =~= a.drop_first().take(p.len() - 1));
        assert(p.drop_first() =~= b.drop_first().take(p.len() - 1));
        assert(a.drop_first()[p.len() - 1] == a[p.len() as int]);
        assert(b.drop_first()[p.len() - 1] == b[p.len() as int]);
        lemma_lex_lt_common_prefix(p.drop_first(), a.drop_first(), b.drop_first());
    }
}

} // verus!
