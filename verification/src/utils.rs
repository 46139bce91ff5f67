//! Word handling: splitting a string into its Unicode scalar values and
//! comparing words lexicographically.

use vstd::prelude::*;

verus! {

/// Free-standing helpers on words.
pub struct Utils;

/// Strict lexicographic order on sequences of scalar values.  This agrees
/// with the byte order of the UTF-8 encodings of the two words.
pub open spec fn lex_lt(a: Seq<char>, b: Seq<char>) -> bool
    decreases a.len(),
{
    if b.len() == 0 {
        false
    } else if a.len() == 0 {
        true
    } else if (a[0] as u32) < (b[0] as u32) {
        true
    } else if (a[0] as u32) > (b[0] as u32) {
        false
    } else {
        lex_lt(a.drop_first(), b.drop_first())
    }
}

/// Length of the longest common prefix of two words.
pub open spec fn common_len(a: Seq<char>, b: Seq<char>) -> int
    decreases a.len(),
{
    if a.len() == 0 || b.len() == 0 {
        0
    } else if a[0] != b[0] {
        0
    } else {
        1 + common_len(a.drop_first(), b.drop_first())
    }
}

/// A word shares its whole length with itself.
pub proof fn lemma_common_len_self(a: Seq<char>)
    ensures
        common_len(a, a) == a.len(),
    decreases a.len(),
{
    if a.len() > 0 {
        lemma_common_len_self(a.drop_first());
    }
}

/// A proper prefix is lexicographically below the word it opens.
pub proof fn lemma_lex_prefix(a: Seq<char>, b: Seq<char>)
    requires
        a.len() < b.len(),
        forall|k: int| 0 <= k < a.len() ==> a[k] == b[k],
    ensures
        lex_lt(a, b),
    decreases a.len(),
{
    if a.len() > 0 {
        assert(forall|k: int|
            0 <= k < a.drop_first().len() ==> #[trigger] a.drop_first()[k] == b.drop_first()[k]);
        lemma_lex_prefix(a.drop_first(), b.drop_first());
    }
}

/// Where two words first differ, the word that is not below the other
/// carries the larger scalar value.
pub proof fn lemma_lex_first_diff(a: Seq<char>, b: Seq<char>, cp: int)
    requires
        !lex_lt(b, a),
        0 <= cp < a.len(),
        cp < b.len(),
        forall|k: int| 0 <= k < cp ==> a[k] == b[k],
        a[cp] != b[cp],
    ensures
        (b[cp] as u32) > (a[cp] as u32),
    decreases cp,
{
    if cp == 0 {
        if (b[0] as u32) < (a[0] as u32) {
            assert(lex_lt(b, a));
        }
        if (b[0] as u32) == (a[0] as u32) {
            crate::node::lemma_char_u32_injective(a[0], b[0]);
        }
    } else {
        assert(!lex_lt(b.drop_first(), a.drop_first())) by {
            if lex_lt(b.drop_first(), a.drop_first()) {
                assert(a[0] == b[0]);
                assert(lex_lt(b, a));
            }
        }
        assert(forall|k: int|
            0 <= k < cp - 1 ==> #[trigger] a.drop_first()[k] == b.drop_first()[k]);
        lemma_lex_first_diff(a.drop_first(), b.drop_first(), cp - 1);
        assert(a.drop_first()[cp - 1] == a[cp]);
        assert(b.drop_first()[cp - 1] == b[cp]);
    }
}

impl Utils {
    /// Splits a string into its Unicode scalar values, the granularity at
    /// which transitions are labeled.
    pub fn split_to_vec(s: &str) -> (r: Vec<char>)
        ensures
            r@ == s@,
    {
        let len = s.unicode_len();
        let mut r: Vec<char> = Vec::new();
        let mut i: usize = 0;
        while i < len
            invariant
                i <= len,
                len == s@.len(),
                r@ == s@.take(i as int),
            decreases len - i,
        {
            let c = s.get_char(i);
            r.push(c);
            i = i + 1;
            proof {
                assert(r@ =~= s@.take(i as int));
            }
        }
        proof {
            assert(r@ =~= s@);
        }
        r
    }

    /// Whether word `a` is strictly below word `b` in lexicographic order.
    pub fn word_lt(a: &Vec<char>, b: &Vec<char>) -> (r: bool)
        ensures
            r == lex_lt(a@, b@),
    {
        let mut i: usize = 0;
        proof {
            assert(a@.skip(0) =~= a@);
            assert(b@.skip(0) =~= b@);
        }
        loop
            invariant
                i <= a@.len(),
                i <= b@.len(),
                lex_lt(a@, b@) == lex_lt(a@.skip(i as int), b@.skip(i as int)),
            decreases a@.len() - i,
        {
            if i == b.len() {
                proof {
                    assert(b@.skip(i as int).len() == 0);
                }
                return false;
            }
            if i == a.len() {
                proof {
                    assert(a@.skip(i as int).len() == 0);
                    assert(b@.skip(i as int).len() > 0);
                }
                return true;
            }
            let ca = a[i];
            let cb = b[i];
            proof {
                assert(a@.skip(i as int)[0] == a@[i as int]);
                assert(b@.skip(i as int)[0] == b@[i as int]);
            }
            if (ca as u32) < (cb as u32) {
                return true;
            }
            if (ca as u32) > (cb as u32) {
                return false;
            }
            proof {
                assert(a@.skip(i as int).drop_first() =~= a@.skip(i + 1));
                assert(b@.skip(i as int).drop_first() =~= b@.skip(i + 1));
            }
            i = i + 1;
        }
    }

    /// Length of the longest common prefix of two words.
    pub fn common_prefix_len(a: &Vec<char>, b: &Vec<char>) -> (r: usize)
        ensures
            r == common_len(a@, b@),
            r <= a@.len(),
            r <= b@.len(),
            forall|k: int| 0 <= k < r ==> a@[k] == b@[k],
            r < a@.len() && r < b@.len() ==> a@[r as int] != b@[r as int],
    {
        let mut i: usize = 0;
        proof {
            assert(a@.skip(0) =~= a@);
            assert(b@.skip(0) =~= b@);
        }
        loop
            invariant
                i <= a@.len(),
                i <= b@.len(),
                forall|k: int| 0 <= k < i ==> a@[k] == b@[k],
                common_len(a@, b@) == i + common_len(a@.skip(i as int), b@.skip(i as int)),
            decreases a@.len() - i,
        {
            if i == a.len() || i == b.len() {
                proof {
                    assert(a@.skip(i as int).len() == 0 || b@.skip(i as int).len() == 0);
                }
                return i;
            }
            proof {
                assert(a@.skip(i as int)[0] == a@[i as int]);
                assert(b@.skip(i as int)[0] == b@[i as int]);
            }
            if a[i] != b[i] {
                return i;
            }
            proof {
                assert(a@.skip(i as int).drop_first() =~= a@.skip(i + 1));
                assert(b@.skip(i as int).drop_first() =~= b@.skip(i + 1));
            }
            i = i + 1;
        }
    }
}

} // verus!
