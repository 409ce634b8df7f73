//! Lexicographic order on strings, with a verified three-way comparison.

use vstd::prelude::*;
use vstd::string::StrSliceExecFns;

verus! {

/// Strict lexicographic order on character sequences, by Unicode code point:
/// `a` comes before `b` when `a` is a proper prefix of `b`, or when at the
/// first position where the two differ, `a` holds the smaller character.
pub open spec fn lex_lt(a: Seq<char>, b: Seq<char>) -> bool
    decreases a.len(),
{
    if b.len() == 0 {
        false
    } else if a.len() == 0 {
        true
    } else if a[0] != b[0] {
        (a[0] as u32) < (b[0] as u32)
    } else {
        lex_lt(a.subrange(1, a.len() as int), b.subrange(1, b.len() as int))
    }
}

/// No sequence comes lexicographically before itself.
pub proof fn lemma_lex_lt_irrefl(a: Seq<char>)
    ensures
        !lex_lt(a, a),
    decreases a.len(),
{
    if a.len() > 0 {
        lemma_lex_lt_irrefl(a.subrange(1, a.len() as int));
    }
}

/// Lexicographic order is transitive.
pub proof fn lemma_lex_lt_trans(a: Seq<char>, b: Seq<char>, c: Seq<char>)
    requires
        lex_lt(a, b),
        lex_lt(b, c),
    ensures
        lex_lt(a, c),
    decreases a.len(),
{
    if a.len() > 0 && a[0] == b[0] && b[0] == c[0] {
        lemma_lex_lt_trans(
            a.subrange(1, a.len() as int),
            b.subrange(1, b.len() as int),
            c.subrange(1, c.len() as int),
        );
    }
}

/// When `a` and `b` agree on their first `j` characters and either `a` ends
/// there or holds the smaller character at position `j`, `a` comes first.
pub proof fn lemma_lex_lt_from_prefix(a: Seq<char>, b: Seq<char>, j: int)
    requires
        0 <= j <= a.len(),
        j < b.len(),
        forall|t: int| 0 <= t < j ==> a[t] == b[t],
        j == a.len() || (a[j] as u32) < (b[j] as u32),
    ensures
        lex_lt(a, b),
    decreases j,
{
    if j > 0 {
        let a1 = a.subrange(1, a.len() as int);
        let b1 = b.subrange(1, b.len() as int);
        assert(forall|t: int| 0 <= t < j - 1 ==> a1[t] == b1[t]);
        lemma_lex_lt_from_prefix(a1, b1, j - 1);
    }
}

/// The outcome of a three-way string comparison.
pub enum KeyCmp {
    Less,
    Equal,
    Greater,
}

/// Three-way lexicographic comparison of two strings, by Unicode code point.
pub fn str_cmp(a: &str, b: &str) -> (r: KeyCmp)
    ensures
        r is Less ==> lex_lt(a@, b@),
        r is Equal ==> a@ == b@,
        r is Greater ==> lex_lt(b@, a@),
{
    let alen = a.unicode_len();
    let blen = b.unicode_len();
    let mut i: usize = 0;
    loop
        invariant
            i <= alen,
            i <= blen,
            alen == a@.len(),
            blen == b@.len(),
            forall|t: int| 0 <= t < i ==> a@[t] == b@[t],
        decreases alen - i,
    {
        if i == alen && i == blen {
            proof {
                assert(a@ =~= b@);
            }
            return KeyCmp::Equal;
        }
        if i == alen {
            proof {
                lemma_lex_lt_from_prefix(a@, b@, i as int);
            }
            return KeyCmp::Less;
        }
        if i == blen {
            proof {
                lemma_lex_lt_from_prefix(b@, a@, i as int);
            }
            return KeyCmp::Greater;
        }
        let ca = a.get_char(i);
        let cb = b.get_char(i);
        if (ca as u32) < (cb as u32) {
            proof {
                lemma_lex_lt_from_prefix(a@, b@, i as int);
            }
            return KeyCmp::Less;
        }
        if (cb as u32) < (ca as u32) {
            proof {
                lemma_lex_lt_from_prefix(b@, a@, i as int);
            }
            return KeyCmp::Greater;
        }
        proof {
            assert(ca == cb) by {
                assert((ca as u32) == (cb as u32));
            }
        }
        i = i + 1;
    }
}

} // verus!
