//! The lexicographic "smaller or equal" comparison on objective vectors:
//! equal vectors compare as smaller-or-equal, otherwise the values at the
//! first differing index decide. This is the sole dominance notion the search
//! strategies use for acceptance and replacement.

use vstd::prelude::*;

verus! {

/// `i` is the first index at which `a` and `b` differ, and `a` is smaller
/// there.
pub open spec fn lex_lt_at(a: Seq<i32>, b: Seq<i32>, i: int) -> bool {
    &&& 0 <= i < a.len()
    &&& i < b.len()
    &&& forall|j: int| 0 <= j < i ==> a[j] == b[j]
    &&& a[i] < b[i]
}

/// Lexicographically smaller or equal: equal, or smaller at the first index
/// where the vectors differ.
pub open spec fn lex_le(a: Seq<i32>, b: Seq<i32>) -> bool {
    a == b || exists|i: int| #[trigger] lex_lt_at(a, b, i)
}

/// The first index at which two different same-length vectors differ.
proof fn lemma_first_divergence(a: Seq<i32>, b: Seq<i32>) -> (i: int)
    requires
        a.len() == b.len(),
        a != b,
    ensures
        0 <= i < a.len(),
        a[i] != b[i],
        forall|j: int| 0 <= j < i ==> a[j] == b[j],
    decreases a.len(),
{
    if a.len() == 0 {
        assert(a =~= b);
        0
    } else if a[0] != b[0] {
        0
    } else {
        let sub_a = a.drop_first();
        let sub_b = b.drop_first();
        assert(sub_a != sub_b) by {
            if sub_a == sub_b {
                assert(a =~= b) by {
                    assert(forall|j: int| 1 <= j < a.len() ==> a[j] == sub_a[j - 1] && b[j] == sub_b[j - 1]);
                }
            }
        }
        let k = lemma_first_divergence(sub_a, sub_b);
        assert(forall|j: int| 0 <= j < k + 1 ==> a[j] == b[j]) by {
            assert(forall|j: int| 1 <= j < k + 1 ==> a[j] == sub_a[j - 1] && b[j] == sub_b[j - 1]);
        }
        k + 1
    }
}

/// Return whether `to_check` is lexicographically smaller than or equal to
/// `check_against`. A strict prefix of a longer vector is neither equal nor
/// different at any scanned index, so it compares as not smaller-or-equal.
#[verifier::loop_isolation(false)]
pub fn is_smaller_or_equal_lexicographic(to_check: &Vec<i32>, check_against: &Vec<i32>) -> (r: bool)
    requires
        to_check@.len() <= check_against@.len(),
    ensures
        r == lex_le(to_check@, check_against@),
{
    let n = to_check.len();
    let mut i: usize = 0;
    while i < n
        invariant
            0 <= i <= n,
            forall|j: int| 0 <= j < i ==> to_check@[j] == check_against@[j],
        decreases n - i,
    {
        if to_check[i] != check_against[i] {
            let smaller = to_check[i] < check_against[i];
            proof {
                if smaller {
                    assert(lex_lt_at(to_check@, check_against@, i as int));
                } else {
                    assert forall|k: int| !(#[trigger] lex_lt_at(
                        to_check@,
                        check_against@,
                        k,
                    )) by {
                        if lex_lt_at(to_check@, check_against@, k) {
                            if k < i as int {
                                assert(to_check@[k] == check_against@[k]);
                            } else if k > i as int {
                                assert(to_check@[i as int] == check_against@[i as int]);
                            }
                        }
                    }
                    assert(to_check@[i as int] != check_against@[i as int]);
                    assert(to_check@ != check_against@);
                }
            }
            return smaller;
        }
        i = i + 1;
    }
    if n == check_against.len() {
        proof {
            assert(to_check@ =~= check_against@);
        }
        true
    } else {
        proof {
            assert(to_check@.len() != check_against@.len());
            assert(to_check@ != check_against@);
            assert forall|k: int| !(#[trigger] lex_lt_at(to_check@, check_against@, k)) by {
                if lex_lt_at(to_check@, check_against@, k) {
                    assert(to_check@[k] == check_against@[k]);
                }
            }
        }
        false
    }
}

/// The comparison is reflexive: every vector is smaller than or equal to
/// itself.
pub proof fn lemma_lex_le_reflexive(a: Seq<i32>)
    ensures
        lex_le(a, a),
{
}

/// The comparison is antisymmetric up to equality: two same-length vectors
/// each smaller than or equal to the other are equal.
pub proof fn lemma_lex_le_antisymmetric(a: Seq<i32>, b: Seq<i32>)
    requires
        a.len() == b.len(),
        lex_le(a, b),
        lex_le(b, a),
    ensures
        a == b,
{
    if a != b {
        let i = choose|i: int| #[trigger] lex_lt_at(a, b, i);
        let k = choose|k: int| #[trigger] lex_lt_at(b, a, k);
        if i < k {
            assert(b[i] == a[i]);
        } else if k < i {
            assert(a[k] == b[k]);
        }
    }
}

/// The comparison is total on same-length vectors: one of the two directions
/// always holds, decided at the first differing coordinate.
pub proof fn lemma_lex_le_total(a: Seq<i32>, b: Seq<i32>)
    requires
        a.len() == b.len(),
    ensures
        lex_le(a, b) || lex_le(b, a),
{
    if a != b {
        let i = lemma_first_divergence(a, b);
        if a[i] < b[i] {
            assert(lex_lt_at(a, b, i));
        } else {
            assert(lex_lt_at(b, a, i));
        }
    }
}

/// The comparison is transitive on same-length vectors.
pub proof fn lemma_lex_le_transitive(a: Seq<i32>, b: Seq<i32>, c: Seq<i32>)
    requires
        a.len() == b.len(),
        b.len() == c.len(),
        lex_le(a, b),
        lex_le(b, c),
    ensures
        lex_le(a, c),
{
    if a == b || b == c {
    } else {
        let i = choose|i: int| #[trigger] lex_lt_at(a, b, i);
        let k = choose|k: int| #[trigger] lex_lt_at(b, c, k);
        if i < k {
            assert(b[i] == c[i]);
            assert(lex_lt_at(a, c, i));
        } else if k < i {
            assert(a[k] == b[k]);
            assert(lex_lt_at(a, c, k));
        } else {
            assert(lex_lt_at(a, c, i));
        }
    }
}

} // verus!
