//! Lexicographic ordering of titles.
//!
//! Titles are compared case-sensitively, character by character, by code
//! point, with a shorter string ordering before any of its extensions.
//! This is the total order under which the catalog is kept sorted.

use vstd::prelude::*;

verus! {

/// `a` comes strictly before `b` in lexicographic order.
pub open spec fn lex_lt(a: Seq<char>, b: Seq<char>) -> bool
    decreases a.len(),
{
    if b.len() == 0 {
        false
    } else if a.len() == 0 {
        true
    } else if a[0] != b[0] {
        a[0] < b[0]
    } else {
        lex_lt(a.subrange(1, a.len() as int), b.subrange(1, b.len() as int))
    }
}

/// Strictness: a string never precedes itself, and two strings cannot
/// each precede the other.
pub proof fn lemma_lex_lt_asymmetric(a: Seq<char>, b: Seq<char>)
    requires
        lex_lt(a, b),
    ensures
        !lex_lt(b, a),
        a != b,
    decreases a.len(),
{
    if b.len() == 0 {
        // lex_lt(a, b) is false here; nothing to prove
    } else if a.len() == 0 {
        // b is nonempty, so lex_lt(b, a) is false and a != b
    } else if a[0] != b[0] {
        // code points differ, so the reverse comparison fails
    } else {
        lemma_lex_lt_asymmetric(a.subrange(1, a.len() as int), b.subrange(1, b.len() as int));
    }
}

/// A string never precedes itself.
pub proof fn lemma_lex_lt_irrefl(a: Seq<char>)
    ensures
        !lex_lt(a, a),
    decreases a.len(),
{
    if a.len() > 0 {
        lemma_lex_lt_irrefl(a.subrange(1, a.len() as int));
    }
}

/// Totality: any two strings are ordered one way or the other, or equal.
pub proof fn lemma_lex_lt_total(a: Seq<char>, b: Seq<char>)
    ensures
        lex_lt(a, b) || lex_lt(b, a) || a == b,
    decreases a.len(),
{
    if a.len() == 0 && b.len() == 0 {
        assert(a =~= b);
    } else if a.len() == 0 || b.len() == 0 {
        // the empty one precedes the other
    } else if a[0] != b[0] {
        // the smaller code point decides
    } else {
        let a1 = a.subrange(1, a.len() as int);
        let b1 = b.subrange(1, b.len() as int);
        lemma_lex_lt_total(a1, b1);
        if a1 == b1 {
            assert(a.len() == b.len());
            assert forall|k: int| 0 <= k < a.len() implies a[k] == b[k] by {
                if k >= 1 {
                    assert(a[k] == a1[k - 1]);
                    assert(b[k] == b1[k - 1]);
                }
            }
            assert(a =~= b);
        }
    }
}

/// Transitivity of the title order.
pub proof fn lemma_lex_lt_trans(a: Seq<char>, b: Seq<char>, c: Seq<char>)
    requires
        lex_lt(a, b),
        lex_lt(b, c),
    ensures
        lex_lt(a, c),
    decreases a.len() + b.len() + c.len(),
{
    if b.len() == 0 || c.len() == 0 {
        // one of the hypotheses is false here
    } else if a.len() == 0 {
        // c is nonempty, so lex_lt(a, c)
    } else {
        if a[0] == b[0] && b[0] == c[0] {
            lemma_lex_lt_trans(
                a.subrange(1, a.len() as int),
                b.subrange(1, b.len() as int),
                c.subrange(1, c.len() as int),
            );
        }
    }
}

/// The outcome of comparing two titles.
#[derive(PartialEq, Eq, Structural, Clone, Copy, Debug)]
pub enum TitleOrder {
    Before,
    Same,
    After,
}

/// Compares two titles under the catalog's total order.
pub fn compare_titles(a: &str, b: &str) -> (r: TitleOrder)
    ensures
        r == TitleOrder::Before <==> lex_lt(a@, b@),
        r == TitleOrder::Same <==> a@ == b@,
        r == TitleOrder::After <==> lex_lt(b@, a@),
{
    let a_len = a.unicode_len();
    let b_len = b.unicode_len();
    let mut i: usize = 0;
    while i < a_len && i < b_len
        invariant
            i <= a_len,
            i <= b_len,
            a_len == a@.len(),
            b_len == b@.len(),
            forall|k: int| 0 <= k < i ==> a@[k] == b@[k],
        decreases a_len - i,
    {
        let ca = a.get_char(i);
        let cb = b.get_char(i);
        if ca < cb {
            proof {
                lemma_lex_from_common_prefix(a@, b@, i as int);
                lemma_lex_lt_asymmetric(a@, b@);
            }
            return TitleOrder::Before;
        }
        if cb < ca {
            proof {
                lemma_lex_from_common_prefix(a@, b@, i as int);
                lemma_lex_lt_asymmetric(b@, a@);
            }
            return TitleOrder::After;
        }
        i = i + 1;
    }
    proof {
        lemma_lex_from_common_prefix(a@, b@, i as int);
    }
    if a_len == b_len {
        proof {
            lemma_lex_lt_irrefl(a@);
        }
        TitleOrder::Same
    } else if a_len < b_len {
        proof {
            lemma_lex_lt_asymmetric(a@, b@);
        }
        TitleOrder::Before
    } else {
        proof {
            lemma_lex_lt_asymmetric(b@, a@);
        }
        TitleOrder::After
    }
}

/// How two strings that agree on a common prefix compare: the first
/// position where they differ (or where one of them ends) decides.
pub proof fn lemma_lex_from_common_prefix(a: Seq<char>, b: Seq<char>, i: int)
    requires
        0 <= i <= a.len(),
        i <= b.len(),
        forall|k: int| 0 <= k < i ==> a[k] == b[k],
    ensures
        i < a.len() && i < b.len() && a[i] < b[i] ==> lex_lt(a, b),
        i < a.len() && i < b.len() && b[i] < a[i] ==> lex_lt(b, a),
        i == a.len() && i < b.len() ==> lex_lt(a, b),
        i == b.len() && i < a.len() ==> lex_lt(b, a),
        i == a.len() && i == b.len() ==> a == b,
    decreases i,
{
    if i == 0 {
        if a.len() == 0 && b.len() == 0 {
            assert(a =~= b);
        }
    } else {
        let a1 = a.subrange(1, a.len() as int);
        let b1 = b.subrange(1, b.len() as int);
        lemma_lex_from_common_prefix(a1, b1, i - 1);
        if i == a.len() && i == b.len() {
            assert(a1 == b1);
            assert(a =~= b);
        }
    }
}

} // verus!
