//! Lexicographic ordering of character sequences, by code point, with an
//! executable comparison on `&str`. Entries are ordered by their normalized
//! sort key, ties broken by path; both orders bottom out here.
use vstd::prelude::*;
use vstd::string::*;

verus! {

/// Lexicographic "less than or equal" on character sequences, comparing code
/// points position by position; a proper prefix sorts before its extensions.
pub open spec fn lex_le(a: Seq<char>, b: Seq<char>) -> bool
    decreases a.len(),
{
    if a.len() == 0 {
        true
    } else if b.len() == 0 {
        false
    } else if (a[0] as int) < (b[0] as int) {
        true
    } else if (a[0] as int) > (b[0] as int) {
        false
    } else {
        lex_le(a.skip(1), b.skip(1))
    }
}

pub proof fn lemma_lex_le_reflexive(a: Seq<char>)
    ensures
        lex_le(a, a),
    decreases a.len(),
{
    if a.len() > 0 {
        lemma_lex_le_reflexive(a.skip(1));
    }
}

pub proof fn lemma_lex_le_total(a: Seq<char>, b: Seq<char>)
    ensures
        lex_le(a, b) || lex_le(b, a),
    decreases a.len(),
{
    if a.len() > 0 && b.len() > 0 && a[0] == b[0] {
        lemma_lex_le_total(a.skip(1), b.skip(1));
    }
}

pub proof fn lemma_lex_le_antisymmetric(a: Seq<char>, b: Seq<char>)
    requires
        lex_le(a, b),
        lex_le(b, a),
    ensures
        a == b,
    decreases a.len(),
{
    if a.len() == 0 {
        assert(b.len() == 0);
        assert(a =~= b);
    } else {
        assert(b.len() > 0);
        assert(a[0] == b[0]);
        lemma_lex_le_antisymmetric(a.skip(1), b.skip(1));
        assert(a.skip(1).len() == a.len() - 1);
        assert(b.skip(1).len() == b.len() - 1);
        assert(a.len() == b.len());
        assert forall|i: int| 0 <= i < a.len() implies a[i] == b[i] by {
            if i > 0 {
                assert(a[i] == a.skip(1)[i - 1]);
                assert(b[i] == b.skip(1)[i - 1]);
            }
        }
        assert(a =~= b);
    }
}

pub proof fn lemma_lex_le_transitive(a: Seq<char>, b: Seq<char>, c: Seq<char>)
    requires
        lex_le(a, b),
        lex_le(b, c),
    ensures
        lex_le(a, c),
    decreases a.len(),
{
    if a.len() > 0 && b.len() > 0 && c.len() > 0 && a[0] == b[0] && b[0] == c[0] {
        lemma_lex_le_transitive(a.skip(1), b.skip(1), c.skip(1));
    }
}

/// Order on (key, path) pairs: by key, ties broken by path.
pub open spec fn pair_le(k1: Seq<char>, p1: Seq<char>, k2: Seq<char>, p2: Seq<char>) -> bool {
    if k1 != k2 {
        lex_le(k1, k2)
    } else {
        lex_le(p1, p2)
    }
}

pub proof fn lemma_pair_le_total(k1: Seq<char>, p1: Seq<char>, k2: Seq<char>, p2: Seq<char>)
    ensures
        pair_le(k1, p1, k2, p2) || pair_le(k2, p2, k1, p1),
{
    lemma_lex_le_total(k1, k2);
    lemma_lex_le_total(p1, p2);
}

pub proof fn lemma_pair_le_transitive(
    k1: Seq<char>,
    p1: Seq<char>,
    k2: Seq<char>,
    p2: Seq<char>,
    k3: Seq<char>,
    p3: Seq<char>,
)
    requires
        pair_le(k1, p1, k2, p2),
        pair_le(k2, p2, k3, p3),
    ensures
        pair_le(k1, p1, k3, p3),
{
    if k1 != k2 && k2 != k3 {
        lemma_lex_le_transitive(k1, k2, k3);
        if k1 == k3 {
            lemma_lex_le_antisymmetric(k1, k2);
        }
    } else if k1 == k2 && k2 == k3 {
        lemma_lex_le_transitive(p1, p2, p3);
    }
}

/// Executable lexicographic comparison of two strings.
pub fn str_le(a: &str, b: &str) -> (r: bool)
    ensures
        r == lex_le(a@, b@),
{
    let alen = a.unicode_len();
    let blen = b.unicode_len();
    let mut i: usize = 0;
    proof {
        assert(a@.skip(0) =~= a@);
        assert(b@.skip(0) =~= b@);
    }
    while i < alen && i < blen
        invariant
            i <= alen,
            i <= blen,
            alen == a@.len(),
            blen == b@.len(),
            lex_le(a@, b@) == lex_le(a@.skip(i as int), b@.skip(i as int)),
        decreases alen - i,
    {
        let ca = a.get_char(i);
        let cb = b.get_char(i);
        if (ca as u32) < (cb as u32) {
            return true;
        } else if (ca as u32) > (cb as u32) {
            return false;
        }
        proof {
            assert(a@.skip(i as int).skip(1) =~= a@.skip(i as int + 1));
            assert(b@.skip(i as int).skip(1) =~= b@.skip(i as int + 1));
        }
        i = i + 1;
    }
    i == alen
}

} // verus!
