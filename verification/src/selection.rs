//! Dense rank assignment for objective vectors: duplicate vectors share a
//! rank, and ranks count, from zero, the distinct vectors that order strictly
//! below.

use vstd::prelude::*;

verus! {

/// Some input was assigned the rank `k`.
pub open spec fn rank_assigned(r: Seq<usize>, k: int) -> bool {
    exists|q: int| 0 <= q < r.len() && #[trigger] r[q] == k
}

/// `i` is the first index at which `a` and `b` differ, with `a` smaller
/// there.
pub open spec fn vec_lt_at(a: Seq<i32>, b: Seq<i32>, i: int) -> bool {
    &&& 0 <= i < a.len()
    &&& i < b.len()
    &&& forall|j: int| 0 <= j < i ==> a[j] == b[j]
    &&& a[i] < b[i]
}

/// The strict lexicographic vector order: decided at the first differing
/// index, with a strict prefix ordering before any longer vector it prefixes.
pub open spec fn vec_lt(a: Seq<i32>, b: Seq<i32>) -> bool {
    ||| (a.len() < b.len() && a == b.take(a.len() as int))
    ||| exists|i: int| #[trigger] vec_lt_at(a, b, i)
}

/// Where two different vectors part: at a first differing index, or where
/// the shorter one ends.
proof fn lemma_divergence(a: Seq<i32>, b: Seq<i32>) -> (i: int)
    requires
        a != b,
    ensures
        forall|j: int| 0 <= j < i ==> a[j] == b[j],
        (0 <= i < a.len() && i < b.len() && a[i] != b[i]) || (i == a.len() && a.len() < b.len())
            || (i == b.len() && b.len() < a.len()),
    decreases a.len(),
{
    if a.len() == 0 {
        assert(b.len() != 0) by {
            if b.len() == 0 {
                assert(a =~= b);
            }
        }
        0
    } else if b.len() == 0 {
        0
    } else if a[0] != b[0] {
        0
    } else {
        let sub_a = a.drop_first();
        let sub_b = b.drop_first();
        assert(sub_a != sub_b) by {
            if sub_a == sub_b {
                assert(sub_a.len() == a.len() - 1);
                assert(sub_b.len() == b.len() - 1);
                assert(a.len() == b.len());
                assert forall|j: int| 0 <= j < a.len() implies a[j] == b[j] by {
                    if j >= 1 {
                        assert(a[j] == sub_a[j - 1]);
                        assert(b[j] == sub_b[j - 1]);
                    }
                }
                assert(a =~= b);
            }
        }
        let k = lemma_divergence(sub_a, sub_b);
        assert forall|j: int| 0 <= j < k + 1 implies a[j] == b[j] by {
            if j >= 1 {
                assert(a[j] == sub_a[j - 1]);
                assert(b[j] == sub_b[j - 1]);
                assert(sub_a[j - 1] == sub_b[j - 1]);
            }
        }
        k + 1
    }
}

pub proof fn lemma_vec_lt_irreflexive(a: Seq<i32>)
    ensures
        !vec_lt(a, a),
{
}

pub proof fn lemma_vec_lt_asymmetric(a: Seq<i32>, b: Seq<i32>)
    requires
        vec_lt(a, b),
    ensures
        !vec_lt(b, a),
{
    if !vec_lt(b, a) {
        return;
    }
    if a.len() < b.len() && a == b.take(a.len() as int) {
        if b.len() < a.len() && b == a.take(b.len() as int) {
        } else {
            let k = choose|k: int| #[trigger] vec_lt_at(b, a, k);
            assert(a[k] == b.take(a.len() as int)[k]);
        }
    } else {
        let i = choose|i: int| #[trigger] vec_lt_at(a, b, i);
        if b.len() < a.len() && b == a.take(b.len() as int) {
            assert(b[i] == a.take(b.len() as int)[i]);
        } else {
            let k = choose|k: int| #[trigger] vec_lt_at(b, a, k);
            if i < k {
                assert(b[i] == a[i]);
            } else if k < i {
                assert(a[k] == b[k]);
            }
        }
    }
}

pub proof fn lemma_vec_lt_transitive(a: Seq<i32>, b: Seq<i32>, c: Seq<i32>)
    requires
        vec_lt(a, b),
        vec_lt(b, c),
    ensures
        vec_lt(a, c),
{
    let alen = a.len() as int;
    let blen = b.len() as int;
    if a.len() < b.len() && a == b.take(alen) {
        if b.len() < c.len() && b == c.take(blen) {
            assert(a =~= c.take(alen)) by {
                assert(forall|j: int| 0 <= j < alen ==> a[j] == b[j] && b[j] == c[j]);
            }
        } else {
            let k = choose|k: int| #[trigger] vec_lt_at(b, c, k);
            assert(forall|j: int| 0 <= j < alen ==> a[j] == b[j]);
            if k < alen {
                assert(vec_lt_at(a, c, k));
            } else {
                assert(a =~= c.take(alen)) by {
                    assert(forall|j: int| 0 <= j < alen ==> a[j] == b[j] && b[j] == c[j]);
                }
            }
        }
    } else {
        let i = choose|i: int| #[trigger] vec_lt_at(a, b, i);
        if b.len() < c.len() && b == c.take(blen) {
            assert(forall|j: int| 0 <= j < blen ==> b[j] == c[j]);
            assert(vec_lt_at(a, c, i));
        } else {
            let k = choose|k: int| #[trigger] vec_lt_at(b, c, k);
            if i < k {
                assert(b[i] == c[i]);
                assert(vec_lt_at(a, c, i));
            } else if k < i {
                assert(a[k] == b[k]);
                assert(vec_lt_at(a, c, k));
            } else {
                assert(vec_lt_at(a, c, i));
            }
        }
    }
}

/// Any two different vectors order one way or the other.
pub proof fn lemma_vec_lt_connex(a: Seq<i32>, b: Seq<i32>)
    requires
        a != b,
    ensures
        vec_lt(a, b) || vec_lt(b, a),
{
    let i = lemma_divergence(a, b);
    if 0 <= i < a.len() && i < b.len() && a[i] != b[i] {
        if a[i] < b[i] {
            assert(vec_lt_at(a, b, i));
        } else {
            assert(vec_lt_at(b, a, i));
        }
    } else if i == a.len() && a.len() < b.len() {
        assert(a =~= b.take(a.len() as int));
    } else {
        assert(b =~= a.take(b.len() as int));
    }
}

/// Return whether `a` orders strictly below `b`.
#[verifier::loop_isolation(false)]
pub(crate) fn vec_lt_exec(a: &Vec<i32>, b: &Vec<i32>) -> (r: bool)
    ensures
        r == vec_lt(a@, b@),
{
    let n = a.len();
    let m = b.len();
    let limit: usize = if n < m {
        n
    } else {
        m
    };
    let mut i: usize = 0;
    while i < limit
        invariant
            0 <= i <= limit,
            forall|j: int| 0 <= j < i ==> a@[j] == b@[j],
        decreases limit - i,
    {
        if a[i] != b[i] {
            let smaller = a[i] < b[i];
            proof {
                if smaller {
                    assert(vec_lt_at(a@, b@, i as int));
                } else {
                    assert(vec_lt_at(b@, a@, i as int));
                    lemma_vec_lt_asymmetric(b@, a@);
                }
            }
            return smaller;
        }
        i = i + 1;
    }
    proof {
        if n < m {
            assert(a@ =~= b@.take(a@.len() as int));
        } else {
            assert forall|k: int| !(#[trigger] vec_lt_at(a@, b@, k)) by {
                if vec_lt_at(a@, b@, k) {
                    assert(a@[k] == b@[k]);
                }
            }
        }
    }
    n < m
}

/// Return whether `a` and `b` hold the same values.
#[verifier::loop_isolation(false)]
pub(crate) fn vec_eq_exec(a: &Vec<i32>, b: &Vec<i32>) -> (r: bool)
    ensures
        r == (a@ == b@),
{
    let n = a.len();
    if n != b.len() {
        proof {
            assert(a@ != b@);
        }
        return false;
    }
    let mut i: usize = 0;
    while i < n
        invariant
            0 <= i <= n,
            forall|j: int| 0 <= j < i ==> a@[j] == b@[j],
        decreases n - i,
    {
        if a[i] != b[i] {
            return false;
        }
        i = i + 1;
    }
    proof {
        assert(a@ =~= b@);
    }
    true
}

/// An owned copy of a gene or objective vector.
#[verifier::loop_isolation(false)]
pub(crate) fn copy_values(v: &Vec<i32>) -> (r: Vec<i32>)
    ensures
        r@ == v@,
{
    let n = v.len();
    let mut copy: Vec<i32> = Vec::new();
    let mut i: usize = 0;
    while i < n
        invariant
            0 <= i <= n,
            copy@ == v@.take(i as int),
        decreases n - i,
    {
        copy.push(v[i]);
        proof {
            assert(v@.take(i + 1) == v@.take(i as int).push(v@[i as int]));
        }
        i = i + 1;
    }
    proof {
        assert(v@.take(n as int) == v@);
    }
    copy
}

/// `e` is among the views of `vs`.
pub open spec fn appears(vs: Seq<Vec<i32>>, e: Seq<i32>) -> bool {
    exists|x: int| 0 <= x < vs.len() && (#[trigger] vs[x])@ == e
}

proof fn lemma_appears_push(vs: Seq<Vec<i32>>, v: Vec<i32>, e: Seq<i32>)
    ensures
        appears(vs.push(v), e) <==> (v@ == e || appears(vs, e)),
{
    let w = vs.push(v);
    if appears(w, e) {
        let x = choose|x: int| 0 <= x < w.len() && (#[trigger] w[x])@ == e;
        if x < vs.len() {
            assert(vs[x]@ == e);
        } else {
            assert(v@ == e);
        }
    }
    if v@ == e {
        assert(w[vs.len() as int]@ == e);
    }
    if appears(vs, e) {
        let x = choose|x: int| 0 <= x < vs.len() && (#[trigger] vs[x])@ == e;
        assert(w[x]@ == e);
    }
}

proof fn lemma_appears_remove0(vs: Seq<Vec<i32>>, e: Seq<i32>)
    requires
        vs.len() > 0,
    ensures
        appears(vs, e) <==> (vs[0]@ == e || appears(vs.remove(0), e)),
{
    let w = vs.remove(0);
    if appears(vs, e) {
        let x = choose|x: int| 0 <= x < vs.len() && (#[trigger] vs[x])@ == e;
        if x > 0 {
            assert(w[x - 1]@ == e);
        }
    }
    if appears(w, e) {
        let x = choose|x: int| 0 <= x < w.len() && (#[trigger] w[x])@ == e;
        assert(vs[x + 1]@ == e);
    }
}

proof fn lemma_appears_insert(vs: Seq<Vec<i32>>, i: int, v: Vec<i32>, e: Seq<i32>)
    requires
        0 <= i <= vs.len(),
    ensures
        appears(vs.insert(i, v), e) <==> (v@ == e || appears(vs, e)),
{
    let w = vs.insert(i, v);
    if appears(w, e) {
        let x = choose|x: int| 0 <= x < w.len() && (#[trigger] w[x])@ == e;
        if x < i {
            assert(vs[x]@ == e);
        } else if x > i {
            assert(vs[x - 1]@ == e);
        }
    }
    if v@ == e {
        assert(w[i]@ == e);
    }
    if appears(vs, e) {
        let x = choose|x: int| 0 <= x < vs.len() && (#[trigger] vs[x])@ == e;
        if x < i {
            assert(w[x]@ == e);
        } else {
            assert(w[x + 1]@ == e);
        }
    }
}

/// The distinct vectors of `entries`, in first-appearance order.
#[verifier::loop_isolation(false)]
fn distinct_of(entries: &Vec<Vec<i32>>) -> (u: Vec<Vec<i32>>)
    ensures
        forall|x: int, y: int|
            0 <= x < y < u@.len() ==> (#[trigger] u@[x])@ != (#[trigger] u@[y])@,
        forall|x: int| 0 <= x < u@.len() ==> appears(entries@, (#[trigger] u@[x])@),
        forall|e: int| 0 <= e < entries@.len() ==> appears(u@, (#[trigger] entries@[e])@),
{
    let n = entries.len();
    let mut unique_entries: Vec<Vec<i32>> = Vec::new();
    let mut p: usize = 0;
    while p < n
        invariant
            0 <= p <= n,
            forall|x: int, y: int|
                0 <= x < y < unique_entries@.len() ==> (#[trigger] unique_entries@[x])@ != (
                #[trigger] unique_entries@[y])@,
            forall|x: int|
                0 <= x < unique_entries@.len() ==> appears(
                    entries@,
                    (#[trigger] unique_entries@[x])@,
                ),
            forall|e: int| 0 <= e < p ==> appears(unique_entries@, (#[trigger] entries@[e])@),
        decreases n - p,
    {
        let ghost u_before = unique_entries@;
        let entry = &entries[p];
        let mut seen = false;
        let mut x: usize = 0;
        let u_len = unique_entries.len();
        while x < u_len
            invariant
                0 <= x <= u_len,
                u_len == unique_entries@.len(),
                seen <==> exists|y: int|
                    0 <= y < x && (#[trigger] unique_entries@[y])@ == entry@,
            decreases u_len - x,
        {
            if vec_eq_exec(&unique_entries[x], entry) {
                seen = true;
                proof {
                    assert(0 <= x < x + 1 && unique_entries@[x as int]@ == entry@);
                }
            }
            x = x + 1;
        }
        if !seen {
            unique_entries.push(copy_values(entry));
            proof {
                assert(unique_entries@ == u_before.push(unique_entries@[u_len as int]));
                assert(appears(entries@, entry@)) by {
                    assert(entries@[p as int]@ == entry@);
                }
                assert forall|x: int|
                    0 <= x < unique_entries@.len() implies appears(
                    entries@,
                    (#[trigger] unique_entries@[x])@,
                ) by {
                    if x < u_len {
                        assert(unique_entries@[x]@ == u_before[x]@);
                    } else {
                        assert(unique_entries@[x]@ == entry@);
                    }
                }
                assert forall|e: int|
                    0 <= e < p + 1 implies appears(
                    unique_entries@,
                    (#[trigger] entries@[e])@,
                ) by {
                    if e < p {
                        lemma_appears_push(
                            u_before,
                            unique_entries@[u_len as int],
                            entries@[e]@,
                        );
                    } else {
                        assert(unique_entries@[u_len as int]@ == entries@[e]@);
                    }
                }
            }
        } else {
            proof {
                let y0 = choose|y: int|
                    0 <= y < u_len && (#[trigger] unique_entries@[y])@ == entry@;
                assert forall|e: int|
                    0 <= e < p + 1 implies appears(
                    unique_entries@,
                    (#[trigger] entries@[e])@,
                ) by {
                    if e == p {
                        assert(unique_entries@[y0]@ == entries@[e]@);
                    }
                }
            }
        }
        p = p + 1;
    }
    unique_entries
}

/// The given pairwise-distinct vectors, rearranged into strictly ascending
/// order.
#[verifier::loop_isolation(false)]
#[verifier::rlimit(60)]
fn sort_distinct(unique_entries: Vec<Vec<i32>>) -> (s: Vec<Vec<i32>>)
    requires
        forall|x: int, y: int|
            0 <= x < y < unique_entries@.len() ==> (#[trigger] unique_entries@[x])@ != (
            #[trigger] unique_entries@[y])@,
    ensures
        forall|x: int, y: int|
            0 <= x < y < s@.len() ==> vec_lt((#[trigger] s@[x])@, (#[trigger] s@[y])@),
        forall|x: int| 0 <= x < s@.len() ==> appears(unique_entries@, (#[trigger] s@[x])@),
        forall|y: int|
            0 <= y < unique_entries@.len() ==> appears(s@, (#[trigger] unique_entries@[y])@),
{
    let ghost all_unique = unique_entries@;
    let mut sorted: Vec<Vec<i32>> = Vec::new();
    let mut remaining = unique_entries;
    proof {
        assert forall|y: int|
            0 <= y < all_unique.len() implies appears(
            remaining@,
            (#[trigger] all_unique[y])@,
        ) by {
            assert(remaining@[y]@ == all_unique[y]@);
        }
    }
    while remaining.len() > 0
        invariant
            forall|x: int, y: int|
                0 <= x < y < sorted@.len() ==> vec_lt(
                    (#[trigger] sorted@[x])@,
                    (#[trigger] sorted@[y])@,
                ),
            forall|x: int| 0 <= x < sorted@.len() ==> appears(all_unique, (#[trigger] sorted@[x])@),
            forall|x: int|
                0 <= x < remaining@.len() ==> appears(all_unique, (#[trigger] remaining@[x])@),
            forall|y: int|
                0 <= y < all_unique.len() ==> appears(sorted@, (#[trigger] all_unique[y])@)
                    || appears(remaining@, all_unique[y]@),
            forall|x: int, y: int|
                0 <= x < sorted@.len() && 0 <= y < remaining@.len() ==> (#[trigger] sorted@[x])@
                    != (#[trigger] remaining@[y])@,
            forall|x: int, y: int|
                0 <= x < y < remaining@.len() ==> (#[trigger] remaining@[x])@ != (
                #[trigger] remaining@[y])@,
        decreases remaining@.len(),
    {
        let ghost remaining_before = remaining@;
        let ghost sorted_before = sorted@;
        let item = remaining.remove(0);
        let s_len = sorted.len();
        let mut pos: usize = 0;
        let mut advancing = true;
        while advancing
            invariant
                0 <= pos <= s_len,
                s_len == sorted@.len(),
                forall|x: int| 0 <= x < pos ==> vec_lt((#[trigger] sorted@[x])@, item@),
                !advancing ==> pos == s_len || !vec_lt(sorted@[pos as int]@, item@),
            decreases s_len - pos + (if advancing { 1int } else { 0int }),
        {
            if pos < s_len {
                if vec_lt_exec(&sorted[pos], &item) {
                    pos = pos + 1;
                } else {
                    advancing = false;
                }
            } else {
                advancing = false;
            }
        }
        proof {
            assert(remaining_before[0] == item);
            // The inserted vector differs from everything already sorted, so
            // it orders strictly against each of them.
            assert forall|x: int| pos <= x < s_len implies vec_lt(
                item@,
                (#[trigger] sorted@[x])@,
            ) by {
                assert(sorted@[x]@ != item@);
                lemma_vec_lt_connex(sorted@[x]@, item@);
                if x > pos as int {
                    if vec_lt(sorted@[x]@, item@) {
                        if vec_lt(sorted@[pos as int]@, item@) {
                        } else {
                            lemma_vec_lt_transitive(sorted@[pos as int]@, sorted@[x]@, item@);
                        }
                    }
                } else {
                }
            }
        }
        sorted.insert(pos, item);
        proof {
            let pi = pos as int;
            assert(sorted@ == sorted_before.insert(pi, item));
            assert forall|x: int, y: int|
                0 <= x < y < sorted@.len() implies vec_lt(
                (#[trigger] sorted@[x])@,
                (#[trigger] sorted@[y])@,
            ) by {
                if x < pi && y == pi {
                } else if x == pi && y > pi {
                } else if x < pi && y > pi {
                    lemma_vec_lt_transitive(sorted@[x]@, sorted@[pi]@, sorted@[y]@);
                }
            }
            assert forall|x: int|
                0 <= x < sorted@.len() implies appears(
                all_unique,
                (#[trigger] sorted@[x])@,
            ) by {
                if x < pi {
                    assert(sorted@[x]@ == sorted_before[x]@);
                } else if x == pi {
                    assert(sorted@[x]@ == remaining_before[0]@);
                } else {
                    assert(sorted@[x]@ == sorted_before[x - 1]@);
                }
            }
            assert forall|y: int|
                0 <= y < all_unique.len() implies appears(sorted@, (#[trigger] all_unique[y])@)
                || appears(remaining@, all_unique[y]@) by {
                lemma_appears_remove0(remaining_before, all_unique[y]@);
                lemma_appears_insert(sorted_before, pi, item, all_unique[y]@);
            }
            assert forall|x: int, y: int|
                0 <= x < sorted@.len() && 0 <= y < remaining@.len() implies (
            #[trigger] sorted@[x])@ != (#[trigger] remaining@[y])@ by {
                assert(remaining@[y]@ == remaining_before[y + 1]@);
                if x < pi {
                    assert(sorted@[x]@ == sorted_before[x]@);
                } else if x == pi {
                    assert(sorted@[x]@ == remaining_before[0]@);
                } else {
                    assert(sorted@[x]@ == sorted_before[x - 1]@);
                }
            }
            assert forall|x: int, y: int|
                0 <= x < y < remaining@.len() implies (#[trigger] remaining@[x])@ != (
            #[trigger] remaining@[y])@ by {
                assert(remaining@[x]@ == remaining_before[x + 1]@);
                assert(remaining@[y]@ == remaining_before[y + 1]@);
            }
        }
    }
    sorted
}

/// Assign each input vector a dense, 0-based rank: duplicate vectors share a
/// rank, a vector's rank exceeds exactly the ranks of the distinct vectors
/// ordering strictly below it, and every rank below an assigned rank is
/// assigned too.
#[verifier::loop_isolation(false)]
#[verifier::rlimit(60)]
pub fn calculate_rank(entries: &Vec<Vec<i32>>) -> (r: Vec<usize>)
    ensures
        r@.len() == entries@.len(),
        forall|p: int, q: int|
            0 <= p < entries@.len() && 0 <= q < entries@.len() ==> ((entries@[p]@ == entries@[q]@)
                <==> #[trigger] r@[p] == #[trigger] r@[q]),
        forall|p: int, q: int|
            0 <= p < entries@.len() && 0 <= q < entries@.len() ==> (vec_lt(
                entries@[p]@,
                entries@[q]@,
            ) <==> #[trigger] r@[p] < #[trigger] r@[q]),
        forall|p: int, k: int|
            #![trigger r@[p], rank_assigned(r@, k)]
            0 <= p < entries@.len() && 0 <= k < r@[p] ==> rank_assigned(r@, k),
{
    let n = entries.len();
    let unique_entries = distinct_of(entries);
    let ghost all_unique = unique_entries@;
    let sorted = sort_distinct(unique_entries);

    // Each input's rank is its vector's position among the sorted distinct
    // vectors.
    let s_len = sorted.len();
    let mut ranks: Vec<usize> = Vec::new();
    let mut p: usize = 0;
    while p < n
        invariant
            0 <= p <= n,
            ranks@.len() == p,
            forall|e: int|
                0 <= e < p ==> (#[trigger] ranks@[e]) < sorted@.len() && sorted@[ranks@[e] as int]@
                    == entries@[e]@,
        decreases n - p,
    {
        let entry = &entries[p];
        let mut idx: usize = 0;
        let mut found = false;
        let mut x: usize = 0;
        while x < s_len
            invariant
                0 <= x <= s_len,
                s_len == sorted@.len(),
                found ==> idx < sorted@.len() && sorted@[idx as int]@ == entry@,
                !found ==> forall|y: int| 0 <= y < x ==> (#[trigger] sorted@[y])@ != entry@,
            decreases s_len - x,
        {
            if !found {
                if vec_eq_exec(&sorted[x], entry) {
                    found = true;
                    idx = x;
                }
            }
            x = x + 1;
        }
        proof {
            if !found {
                assert(appears(all_unique, entries@[p as int]@));
                let y0 = choose|y: int|
                    0 <= y < all_unique.len() && (#[trigger] all_unique[y])@
                        == entries@[p as int]@;
                assert(appears(sorted@, all_unique[y0]@));
                let x0 = choose|x: int|
                    0 <= x < sorted@.len() && (#[trigger] sorted@[x])@ == all_unique[y0]@;
                assert(sorted@[x0]@ == entry@);
            }
        }
        ranks.push(idx);
        p = p + 1;
    }

    proof {
        let rs = ranks@;
        let es = entries@;
        assert forall|p: int, q: int|
            0 <= p < es.len() && 0 <= q < es.len() implies ((es[p]@ == es[q]@)
            <==> #[trigger] rs[p] == #[trigger] rs[q]) by {
            if rs[p] == rs[q] {
                assert(es[p]@ == sorted@[rs[p] as int]@);
            } else {
                assert(sorted@[rs[p] as int]@ != sorted@[rs[q] as int]@);
            }
        }
        assert forall|p: int, q: int|
            0 <= p < es.len() && 0 <= q < es.len() implies (vec_lt(es[p]@, es[q]@)
            <==> #[trigger] rs[p] < #[trigger] rs[q]) by {
            if rs[p] < rs[q] {
                assert(vec_lt(sorted@[rs[p] as int]@, sorted@[rs[q] as int]@));
            }
            if vec_lt(es[p]@, es[q]@) {
                if rs[p] == rs[q] {
                    assert(es[p]@ == es[q]@);
                    lemma_vec_lt_irreflexive(es[p]@);
                } else if rs[q] < rs[p] {
                    assert(vec_lt(sorted@[rs[q] as int]@, sorted@[rs[p] as int]@));
                    lemma_vec_lt_asymmetric(es[p]@, es[q]@);
                }
            }
        }
        assert forall|p: int, k: int|
            #![trigger rs[p], rank_assigned(rs, k)]
            0 <= p < es.len() && 0 <= k < rs[p] implies rank_assigned(rs, k) by {
            assert(k < sorted@.len());
            assert(appears(all_unique, sorted@[k]@));
            let y0 = choose|y: int|
                0 <= y < all_unique.len() && (#[trigger] all_unique[y])@ == sorted@[k]@;
            assert(appears(es, all_unique[y0]@));
            let e0 = choose|e: int| 0 <= e < es.len() && (#[trigger] es[e])@ == all_unique[y0]@;
            assert(es[e0]@ == sorted@[k]@);
            assert(sorted@[rs[e0] as int]@ == entries@[e0]@);
            if rs[e0] != k {
                assert(sorted@[rs[e0] as int]@ != sorted@[k]@);
            }
            assert(rs[e0] == k);
        }
    }
    ranks
}

} // verus!
