//! The bounded best-of-run archive: candidates are appended, the archive is
//! sorted by fitness and trimmed to its capacity, so index 0 always holds the
//! best individual seen so far.

use crate::individual::{Individual, IndividualView};
use crate::selection::{vec_lt, vec_lt_exec, vec_eq_exec};
use vstd::prelude::*;
use vstd::multiset::Multiset;
use vstd::seq_lib::lemma_multiset_commutative;

verus! {

/// The order the archive sorts by: an unset fitness first, then the
/// lexicographic vector order on fitness values.
pub open spec fn fitness_le(a: Option<Seq<i32>>, b: Option<Seq<i32>>) -> bool {
    match (a, b) {
        (Option::None, _) => true,
        (Option::Some(_), Option::None) => false,
        (Option::Some(x), Option::Some(y)) => x == y || vec_lt(x, y),
    }
}

pub proof fn lemma_fitness_le_total(a: Option<Seq<i32>>, b: Option<Seq<i32>>)
    ensures
        fitness_le(a, b) || fitness_le(b, a),
{
    match (a, b) {
        (Option::Some(x), Option::Some(y)) => {
            if x != y {
                crate::selection::lemma_vec_lt_connex(x, y);
            }
        },
        _ => {},
    }
}

pub proof fn lemma_fitness_le_transitive(
    a: Option<Seq<i32>>,
    b: Option<Seq<i32>>,
    c: Option<Seq<i32>>,
)
    requires
        fitness_le(a, b),
        fitness_le(b, c),
    ensures
        fitness_le(a, c),
{
    match (a, b, c) {
        (Option::Some(x), Option::Some(y), Option::Some(z)) => {
            if x != y && y != z {
                crate::selection::lemma_vec_lt_transitive(x, y, z);
            }
        },
        _ => {},
    }
}

/// What a sequence of individuals amounts to.
pub open spec fn views_of(s: Seq<Individual>) -> Seq<IndividualView> {
    s.map_values(|x: Individual| x@)
}

pub open spec fn sorted_by_fitness(s: Seq<IndividualView>) -> bool {
    forall|x: int, y: int|
        0 <= x < y < s.len() ==> fitness_le((#[trigger] s[x]).fitness, (#[trigger] s[y]).fitness)
}

/// `arranged` rearranges `total` into fitness order while keeping the
/// original relative order of fitness-tied entries, as a stable sort does;
/// `perm` names each arranged entry's source position in `total`.
pub open spec fn stable_arrangement(
    total: Seq<IndividualView>,
    perm: Seq<int>,
    arranged: Seq<IndividualView>,
) -> bool {
    &&& perm.len() == total.len()
    &&& arranged.len() == total.len()
    &&& forall|x: int| 0 <= x < perm.len() ==> 0 <= #[trigger] perm[x] < total.len()
    &&& forall|x: int, y: int| 0 <= x < y < perm.len() ==> #[trigger] perm[x] != #[trigger] perm[y]
    &&& forall|x: int| 0 <= x < arranged.len() ==> #[trigger] arranged[x] == total[perm[x]]
    &&& sorted_by_fitness(arranged)
    &&& forall|x: int, y: int|
        0 <= x < y < arranged.len() && (#[trigger] arranged[x]).fitness == (
        #[trigger] arranged[y]).fitness ==> perm[x] < perm[y]
}

/// What one archive update leaves behind: as many entries as fit, sorted by
/// fitness, all taken from the prior entries and the candidates, anything
/// left out no better than everything kept, and the whole a prefix of a
/// stable fitness-ordering of the prior entries followed by the candidates —
/// so fitness-tied entries keep their append order, and ties at the cut keep
/// the earliest-appended entries.
pub open spec fn hof_update_post(
    prior: Seq<IndividualView>,
    cands: Seq<IndividualView>,
    maxsize: int,
    result: Seq<IndividualView>,
) -> bool {
    let total = (prior + cands).to_multiset();
    let kept = result.to_multiset();
    &&& result.len() == vstd::math::min((prior.len() + cands.len()) as int, maxsize)
    &&& sorted_by_fitness(result)
    &&& forall|v: IndividualView| #[trigger] kept.count(v) <= total.count(v)
    &&& forall|v: IndividualView|
        #[trigger] total.count(v) > kept.count(v) ==> forall|x: int|
            0 <= x < result.len() ==> fitness_le((#[trigger] result[x]).fitness, v.fitness)
    &&& exists|perm: Seq<int>, arranged: Seq<IndividualView>|
        #[trigger] stable_arrangement(prior + cands, perm, arranged) && result == arranged.take(
            result.len() as int,
        )
}

/// Inserting a value anywhere in a sequence inserts it into the sequence's
/// multiset.
proof fn lemma_insert_to_multiset(s: Seq<IndividualView>, i: int, v: IndividualView)
    requires
        0 <= i <= s.len(),
    ensures
        s.insert(i, v).to_multiset() == s.to_multiset().insert(v),
{
    let w = s.insert(i, v);
    w.to_multiset_ensures();
    s.to_multiset_ensures();
    assert(w.remove(i) =~= s);
    assert(w[i] == v);
    assert(w.remove(i).to_multiset() =~= w.to_multiset().remove(v));
    assert(w.to_multiset().contains(v)) by {
        assert(w.contains(v));
    }
    assert(w.to_multiset() =~= s.to_multiset().insert(v));
}

/// Removing the head of a sequence removes it from the sequence's multiset.
proof fn lemma_remove_head_to_multiset(s: Seq<IndividualView>)
    requires
        s.len() > 0,
    ensures
        s.remove(0).to_multiset() == s.to_multiset().remove(s[0]),
        s.to_multiset().count(s[0]) >= 1,
{
    s.to_multiset_ensures();
    assert(s.remove(0).to_multiset() =~= s.to_multiset().remove(s[0]));
    assert(s.contains(s[0]));
}

pub struct HallOfFame {
    pub items: Vec<Individual>,
    pub maxsize: usize,
}

impl HallOfFame {
    pub fn new(maxsize: usize) -> (r: HallOfFame)
        ensures
            r.items@.len() == 0,
            r.maxsize == maxsize,
    {
        HallOfFame { items: Vec::new(), maxsize }
    }

    /// The `index`-th best archived individual; index 0 is the best.
    pub fn get(&self, index: usize) -> (r: &Individual)
        requires
            index < self.items@.len(),
        ensures
            r@ == self.items@[index as int]@,
    {
        &self.items[index]
    }

    /// Append all candidates, sort the whole archive by fitness — stably, so
    /// fitness ties keep their append order — and keep the best `maxsize`
    /// entries.
    #[verifier::loop_isolation(false)]
    #[verifier::rlimit(100)]
    pub fn update(&mut self, individual: &Vec<Individual>)
        ensures
            final(self).maxsize == old(self).maxsize,
            hof_update_post(
                views_of(old(self).items@),
                views_of(individual@),
                old(self).maxsize as int,
                views_of(final(self).items@),
            ),
    {
        let ghost prior = views_of(old(self).items@);
        let ghost cands = views_of(individual@);

        // Gather the prior entries and the candidates.
        let mut appended: Vec<Individual> = Vec::new();
        let prior_len = self.items.len();
        let mut k: usize = 0;
        while k < prior_len
            invariant
                0 <= k <= prior_len,
                views_of(appended@) == prior.take(k as int),
            decreases prior_len - k,
        {
            let ghost before = appended@;
            appended.push(self.items[k].duplicate());
            proof {
                assert(views_of(appended@) =~= views_of(before).push(
                    appended@[before.len() as int]@,
                ));
                assert(prior.take(k + 1) =~= prior.take(k as int).push(prior[k as int]));
            }
            k = k + 1;
        }
        let n = individual.len();
        let mut k: usize = 0;
        while k < n
            invariant
                0 <= k <= n,
                views_of(appended@) == prior + cands.take(k as int),
            decreases n - k,
        {
            let ghost before = appended@;
            appended.push(individual[k].duplicate());
            proof {
                assert(views_of(appended@) =~= views_of(before).push(
                    appended@[before.len() as int]@,
                ));
                assert(prior + cands.take(k + 1) =~= (prior + cands.take(k as int)).push(
                    cands[k as int],
                ));
            }
            k = k + 1;
        }
        proof {
            assert(prior.take(prior_len as int) =~= prior);
            assert(prior + cands.take(0) =~= prior);
            assert(cands.take(n as int) =~= cands);
        }
        let ghost total_seq = prior + cands;

        // Sort the gathered archive by fitness, tracking each placed entry's
        // source position to show the arrangement is stable.
        let mut sorted: Vec<Individual> = Vec::new();
        let mut remaining = appended;
        let ghost mut processed: int = 0;
        let ghost mut src: Seq<int> = Seq::empty();
        proof {
            (views_of(sorted@)).to_multiset_ensures();
            assert(views_of(remaining@) =~= total_seq.skip(0));
        }
        while remaining.len() > 0
            invariant
                self.maxsize == old(self).maxsize,
                sorted_by_fitness(views_of(sorted@)),
                views_of(sorted@).to_multiset().add(views_of(remaining@).to_multiset())
                    == total_seq.to_multiset(),
                0 <= processed <= total_seq.len(),
                processed + remaining@.len() == total_seq.len(),
                views_of(remaining@) == total_seq.skip(processed),
                src.len() == views_of(sorted@).len(),
                forall|x: int| 0 <= x < src.len() ==> 0 <= #[trigger] src[x] < processed,
                forall|x: int, y: int|
                    0 <= x < y < src.len() ==> #[trigger] src[x] != #[trigger] src[y],
                forall|x: int|
                    0 <= x < src.len() ==> #[trigger] views_of(sorted@)[x] == total_seq[src[x]],
                forall|x: int, y: int|
                    0 <= x < y < src.len() && (#[trigger] views_of(sorted@)[x]).fitness == (
                    #[trigger] views_of(sorted@)[y]).fitness ==> src[x] < src[y],
            decreases remaining@.len(),
        {
            let ghost remaining_before = views_of(remaining@);
            let ghost sorted_before = views_of(sorted@);
            let item = remaining.remove(0);
            proof {
                assert(views_of(remaining@) =~= remaining_before.remove(0));
                lemma_remove_head_to_multiset(remaining_before);
                assert(remaining_before[0] == item@);
                assert(item@ == total_seq[processed]);
                assert(views_of(remaining@) =~= total_seq.skip(processed + 1));
            }
            let s_len = sorted.len();
            let mut pos: usize = 0;
            let mut advancing = true;
            while advancing
                invariant
                    0 <= pos <= s_len,
                    s_len == sorted@.len(),
                    forall|x: int|
                        0 <= x < pos ==> fitness_le(
                            (#[trigger] views_of(sorted@)[x]).fitness,
                            item@.fitness,
                        ),
                    !advancing ==> pos == s_len || !fitness_le(
                        views_of(sorted@)[pos as int].fitness,
                        item@.fitness,
                    ),
                decreases s_len - pos + (if advancing { 1int } else { 0int }),
            {
                if pos < s_len {
                    if fitness_le_exec(&sorted[pos].fitness, &item.fitness) {
                        pos = pos + 1;
                    } else {
                        advancing = false;
                    }
                } else {
                    advancing = false;
                }
            }
            proof {
                // Nothing at or past the insertion point sorts at or before
                // the inserted entry: the scan stopped at the first such
                // element, and sortedness carries that to the rest.
                assert forall|x: int| pos <= x < s_len implies !fitness_le(
                    (#[trigger] views_of(sorted@)[x]).fitness,
                    item@.fitness,
                ) by {
                    if x > pos as int && fitness_le(
                        views_of(sorted@)[x].fitness,
                        item@.fitness,
                    ) {
                        lemma_fitness_le_transitive(
                            views_of(sorted@)[pos as int].fitness,
                            views_of(sorted@)[x].fitness,
                            item@.fitness,
                        );
                    }
                }
                // So, by totality, the inserted entry sorts before them all.
                assert forall|x: int| pos <= x < s_len implies fitness_le(
                    item@.fitness,
                    (#[trigger] views_of(sorted@)[x]).fitness,
                ) by {
                    lemma_fitness_le_total(views_of(sorted@)[x].fitness, item@.fitness);
                }
            }
            sorted.insert(pos, item);
            proof {
                let pi = pos as int;
                let ghost src_before = src;
                src = src.insert(pi, processed);
                let new_views = views_of(sorted@);
                assert(new_views =~= sorted_before.insert(pi, new_views[pi]));
                assert(new_views[pi] == remaining_before[0]);
                lemma_insert_to_multiset(sorted_before, pi, remaining_before[0]);
                assert forall|x: int, y: int|
                    0 <= x < y < new_views.len() implies fitness_le(
                    (#[trigger] new_views[x]).fitness,
                    (#[trigger] new_views[y]).fitness,
                ) by {
                    if x < pi && y == pi {
                    } else if x == pi && y > pi {
                    } else if x < pi && y > pi {
                        lemma_fitness_le_transitive(
                            new_views[x].fitness,
                            new_views[pi].fitness,
                            new_views[y].fitness,
                        );
                    }
                }
                assert(new_views.to_multiset().add(
                    views_of(remaining@).to_multiset(),
                ) =~= total_seq.to_multiset());
                // Source positions: the new entry carries the largest one
                // seen so far, so all bookkeeping extends.
                assert forall|x: int| 0 <= x < src.len() implies 0 <= #[trigger] src[x] < processed
                    + 1 by {
                    if x < pi {
                        assert(src[x] == src_before[x]);
                    } else if x > pi {
                        assert(src[x] == src_before[x - 1]);
                    }
                }
                assert forall|x: int, y: int|
                    0 <= x < y < src.len() implies #[trigger] src[x] != #[trigger] src[y] by {
                    if y < pi {
                    } else if y == pi {
                        assert(src[x] == src_before[x]);
                        assert(src[y] == processed);
                    } else if x == pi {
                        assert(src[y] == src_before[y - 1]);
                        assert(src[x] == processed);
                    } else if x < pi {
                        assert(src[x] == src_before[x]);
                        assert(src[y] == src_before[y - 1]);
                    } else {
                        assert(src[x] == src_before[x - 1]);
                        assert(src[y] == src_before[y - 1]);
                    }
                }
                assert forall|x: int|
                    0 <= x < src.len() implies #[trigger] new_views[x] == total_seq[src[x]] by {
                    if x < pi {
                        assert(src[x] == src_before[x]);
                        assert(new_views[x] == sorted_before[x]);
                    } else if x == pi {
                        assert(src[x] == processed);
                        assert(new_views[x] == total_seq[processed]);
                    } else {
                        assert(src[x] == src_before[x - 1]);
                        assert(new_views[x] == sorted_before[x - 1]);
                    }
                }
                // Fitness ties keep append order: everything after the
                // insertion point sorts strictly later, so no tie crosses it
                // forward, and the new entry's source position tops them all.
                assert forall|x: int, y: int|
                    0 <= x < y < src.len() && (#[trigger] new_views[x]).fitness == (
                #[trigger] new_views[y]).fitness implies src[x] < src[y] by {
                    if y < pi {
                        assert(src[x] == src_before[x]);
                        assert(src[y] == src_before[y]);
                        assert(new_views[x] == sorted_before[x]);
                        assert(new_views[y] == sorted_before[y]);
                    } else if y == pi {
                        assert(src[x] == src_before[x]);
                        assert(src[y] == processed);
                    } else if x == pi {
                        assert(new_views[y] == sorted_before[y - 1]);
                        assert(!fitness_le(sorted_before[y - 1].fitness, new_views[x].fitness));
                    } else if x < pi {
                        assert(src[x] == src_before[x]);
                        assert(src[y] == src_before[y - 1]);
                        assert(new_views[x] == sorted_before[x]);
                        assert(new_views[y] == sorted_before[y - 1]);
                    } else {
                        assert(src[x] == src_before[x - 1]);
                        assert(src[y] == src_before[y - 1]);
                        assert(new_views[x] == sorted_before[x - 1]);
                        assert(new_views[y] == sorted_before[y - 1]);
                    }
                }
                processed = processed + 1;
            }
        }

        // Keep the best entries.
        let keep = self.maxsize;
        let ghost full = views_of(sorted@);
        let mut sorted = sorted;
        sorted.truncate(keep);
        proof {
            if keep < full.len() {
                assert(views_of(sorted@) =~= full.take(keep as int));
                assert(full =~= full.take(keep as int) + full.skip(keep as int));
                lemma_multiset_commutative(full.take(keep as int), full.skip(keep as int));
                full.skip(keep as int).to_multiset_ensures();
            } else {
                assert(views_of(sorted@) =~= full);
            }
            assert(views_of(remaining@).to_multiset() =~= Multiset::empty()) by {
                views_of(remaining@).to_multiset_ensures();
            }
            assert(full.to_multiset() =~= total_seq.to_multiset());
        }
        self.items = sorted;
        proof {
            broadcast use vstd::multiset::group_multiset_axioms;

            let result = views_of(self.items@);
            let total = total_seq.to_multiset();
            let kept = result.to_multiset();
            full.to_multiset_ensures();
            total_seq.to_multiset_ensures();
            result.to_multiset_ensures();
            assert(full.len() == total_seq.len()) by {
                assert(full.to_multiset().len() == total_seq.to_multiset().len());
            }
            assert(result.len() == vstd::math::min(
                (prior.len() + cands.len()) as int,
                old(self).maxsize as int,
            ));
            assert forall|v: IndividualView| #[trigger] kept.count(v) <= total.count(v) by {
                if keep < full.len() {
                    assert(full.to_multiset() == result.to_multiset().add(
                        full.skip(keep as int).to_multiset(),
                    ));
                }
            }
            assert(sorted_by_fitness(result)) by {
                assert forall|x: int, y: int|
                    0 <= x < y < result.len() implies fitness_le(
                    (#[trigger] result[x]).fitness,
                    (#[trigger] result[y]).fitness,
                ) by {
                    assert(result[x] == full[x]);
                    assert(result[y] == full[y]);
                }
            }
            // The sort placed every entry by source position, so the final
            // archive is a prefix of a stable arrangement of the whole.
            assert(stable_arrangement(prior + cands, src, full)) by {
                assert(src.len() == full.len());
            }
            assert(result == full.take(result.len() as int)) by {
                if keep < full.len() {
                } else {
                    assert(result =~= full.take(result.len() as int));
                }
            }
            assert forall|v: IndividualView| #[trigger]
                total.count(v) > kept.count(v) implies forall|x: int|
                0 <= x < result.len() ==> fitness_le(
                    (#[trigger] result[x]).fitness,
                    v.fitness,
                ) by {
                assert(keep < full.len());
                let rest = full.skip(keep as int);
                assert(rest.to_multiset().count(v) > 0);
                assert(rest.contains(v)) by {
                    rest.to_multiset_ensures();
                }
                let j = choose|j: int| 0 <= j < rest.len() && rest[j] == v;
                assert(full[keep + j] == v);
                assert forall|x: int| 0 <= x < result.len() implies fitness_le(
                    (#[trigger] result[x]).fitness,
                    v.fitness,
                ) by {
                    assert(result[x] == full[x]);
                    assert(fitness_le(full[x].fitness, full[keep + j].fitness));
                }
            }
        }
    }
}

/// Return whether `a` sorts at or before `b` in the archive's fitness order.
fn fitness_le_exec(a: &Option<Vec<i32>>, b: &Option<Vec<i32>>) -> (r: bool)
    ensures
        r == fitness_le(
            match a {
                Some(x) => Some(x@),
                None => None,
            },
            match b {
                Some(y) => Some(y@),
                None => None,
            },
        ),
{
    match (a, b) {
        (None, _) => true,
        (Some(_), None) => false,
        (Some(x), Some(y)) => {
            if vec_eq_exec(x, y) {
                true
            } else {
                vec_lt_exec(x, y)
            }
        },
    }
}

/// The archive never worsens: after an update, the best entry is no worse
/// than the best entry before, and no worse than any candidate.
pub proof fn lemma_update_monotone(
    prior: Seq<IndividualView>,
    cands: Seq<IndividualView>,
    maxsize: int,
    result: Seq<IndividualView>,
)
    requires
        hof_update_post(prior, cands, maxsize, result),
        result.len() > 0,
    ensures
        prior.len() > 0 ==> fitness_le(result[0].fitness, prior[0].fitness),
        forall|c: int|
            0 <= c < cands.len() ==> fitness_le(result[0].fitness, (#[trigger] cands[c]).fitness),
{
    let total_seq = prior + cands;
    let total = total_seq.to_multiset();
    let kept = result.to_multiset();
    total_seq.to_multiset_ensures();
    result.to_multiset_ensures();
    assert forall|v: IndividualView|
        total_seq.contains(v) implies fitness_le(result[0].fitness, v.fitness) by {
        if kept.count(v) > 0 {
            assert(result.contains(v));
            let x = choose|x: int| 0 <= x < result.len() && result[x] == v;
            if x > 0 {
                assert(fitness_le(result[0].fitness, result[x].fitness));
            }
        } else {
            assert(total.count(v) > kept.count(v)) by {
                assert(total.count(v) > 0);
            }
        }
    }
    if prior.len() > 0 {
        assert(total_seq.contains(prior[0])) by {
            assert(total_seq[0] == prior[0]);
        }
    }
    assert forall|c: int|
        0 <= c < cands.len() implies fitness_le(
        result[0].fitness,
        (#[trigger] cands[c]).fitness,
    ) by {
        assert(total_seq[prior.len() + c] == cands[c]);
        assert(total_seq.contains(cands[c]));
    }
}

/// Re-adding the archived best individual to a saturated archive changes
/// nothing: the update is idempotent once the archive holds it.
pub proof fn lemma_update_idempotent(
    prior: Seq<IndividualView>,
    best: IndividualView,
    maxsize: int,
    result: Seq<IndividualView>,
)
    requires
        hof_update_post(prior, seq![best], maxsize, result),
        prior.len() == maxsize,
        maxsize >= 1,
        forall|x: int| 0 <= x < prior.len() ==> (#[trigger] prior[x]) == best,
    ensures
        result == prior,
{
    let total_seq = prior + seq![best];
    let total = total_seq.to_multiset();
    let kept = result.to_multiset();
    total_seq.to_multiset_ensures();
    result.to_multiset_ensures();
    assert forall|x: int| 0 <= x < result.len() implies (#[trigger] result[x]) == best by {
        assert(result.contains(result[x]));
        assert(kept.count(result[x]) > 0);
        assert(total.count(result[x]) > 0);
        assert(total_seq.contains(result[x]));
        let y = choose|y: int| 0 <= y < total_seq.len() && total_seq[y] == result[x];
        if y < prior.len() {
            assert(total_seq[y] == prior[y]);
        } else {
            assert(total_seq[y] == best);
        }
    }
    assert(result =~= prior);
}

} // verus!
