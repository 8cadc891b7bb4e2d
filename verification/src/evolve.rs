use vstd::prelude::*;

use crate::common::{is_nan, spec_le, spec_lt, value_lt, Value};
use crate::mutator::{Arc, Mutator};

verus! {

/// One individual of the evolutionary population: a topology and the
/// error its trained weights achieved (an IEEE-754 double bit pattern,
/// like every value here).
#[derive(Clone, Debug)]
pub struct Mutation {
    pub mutator: Mutator,
    pub error: Value,
}

/// Whether an evolution run should start at all: there must be
/// iterations left in the budget and the seed's error must still exceed
/// the target.
pub open spec fn spec_begin(
    iterations_done: int,
    iterations_count: int,
    current_error: Value,
    target: Value,
) -> bool {
    iterations_done < iterations_count && spec_lt(target, current_error)
}

/// The begin guard, on bit patterns.
pub fn begin(
    iterations_done: usize,
    iterations_count: usize,
    current_error: Value,
    target: Value,
) -> (r: bool)
    ensures
        r == spec_begin(iterations_done as int, iterations_count as int, current_error, target),
{
    iterations_done < iterations_count && value_lt(target, current_error)
}

/// With a zero iteration budget the run never begins, so the caller
/// returns the seed unchanged.
pub proof fn lemma_zero_iterations_never_begin(
    iterations_done: int,
    current_error: Value,
    target: Value,
)
    requires
        iterations_done >= 0,
    ensures
        !spec_begin(iterations_done, 0, current_error, target),
{
}

/// Whether the iteration loop stops: the budget is used up, or some
/// individual's error has reached the target.
pub fn terminate(
    population: &Vec<Mutation>,
    iterations_done: usize,
    iterations_count: usize,
    target: Value,
) -> (r: bool)
    ensures
        r == (iterations_done >= iterations_count || exists|i: int|
            0 <= i < population@.len() && spec_le((#[trigger] population@[i]).error, target)),
{
    if iterations_done >= iterations_count {
        return true;
    }
    let n = population.len();
    let mut i: usize = 0;
    while i < n
        invariant
            n == population@.len(),
            i <= n,
            forall|k: int| 0 <= k < i ==> !spec_le((#[trigger] population@[k]).error, target),
        decreases n - i,
    {
        if crate::common::value_le(population[i].error, target) {
            return true;
        }
        i = i + 1;
    }
    false
}

/// The index of a first-minimal-error individual: no other individual
/// has a smaller error, and earlier individuals are strictly larger.
fn argmin(population: &Vec<Mutation>) -> (r: usize)
    requires
        population@.len() > 0,
        forall|k: int| 0 <= k < population@.len() ==> !is_nan((#[trigger] population@[k]).error),
    ensures
        r < population@.len(),
        forall|k: int|
            0 <= k < population@.len() ==> spec_le(
                population@[r as int].error,
                (#[trigger] population@[k]).error,
            ),
        forall|k: int|
            0 <= k < r ==> spec_lt(
                population@[r as int].error,
                (#[trigger] population@[k]).error,
            ),
{
    let n = population.len();
    let mut best: usize = 0;
    let mut i: usize = 1;
    while i < n
        invariant
            n == population@.len(),
            1 <= i <= n,
            best < i,
            forall|k: int|
                0 <= k < population@.len() ==> !is_nan((#[trigger] population@[k]).error),
            forall|k: int|
                0 <= k < i ==> spec_le(
                    population@[best as int].error,
                    (#[trigger] population@[k]).error,
                ),
            forall|k: int|
                0 <= k < best ==> spec_lt(
                    population@[best as int].error,
                    (#[trigger] population@[k]).error,
                ),
        decreases n - i,
    {
        if value_lt(population[i].error, population[best].error) {
            proof {
                assert forall|k: int|
                    0 <= k < i + 1 implies spec_le(
                    population@[i as int].error,
                    (#[trigger] population@[k]).error,
                ) by {
                    if k < i {
                        crate::common::lemma_le_transitive(
                            population@[i as int].error,
                            population@[best as int].error,
                            population@[k].error,
                        );
                    }
                }
                assert forall|k: int|
                    0 <= k < i implies spec_lt(
                    population@[i as int].error,
                    (#[trigger] population@[k]).error,
                ) by {}
            }
            best = i;
        } else {
            proof {
                crate::common::lemma_le_total(
                    population@[i as int].error,
                    population@[best as int].error,
                );
            }
        }
        i = i + 1;
    }
    best
}

/// The lowest-error individual's topology (the first one, on ties).
pub fn select_one(population: Vec<Mutation>) -> (r: Mutator)
    requires
        population@.len() > 0,
        forall|k: int| 0 <= k < population@.len() ==> !is_nan((#[trigger] population@[k]).error),
    ensures
        exists|i: int|
            0 <= i < population@.len() && r == (#[trigger] population@[i]).mutator && forall|
                k: int,
            |
                0 <= k < population@.len() ==> spec_le(
                    population@[i].error,
                    (#[trigger] population@[k]).error,
                ),
{
    let best = argmin(&population);
    let mut population = population;
    let picked = population.remove(best);
    picked.mutator
}

/// Keeps the `population_size` lowest-error individuals, by error
/// ascending, ties resolved in favour of earlier individuals.  The
/// survivors' errors are sorted and the first survivor's error is
/// minimal over the whole population — the elitism that keeps the best
/// individual alive across generations.
pub fn select(population: Vec<Mutation>, population_size: usize) -> (r: Vec<Mutation>)
    requires
        forall|k: int| 0 <= k < population@.len() ==> !is_nan((#[trigger] population@[k]).error),
    ensures
        r@.len() == (if population@.len() < population_size {
            population@.len() as int
        } else {
            population_size as int
        }),
        forall|i: int, j: int|
            0 <= i < j < r@.len() ==> spec_le((#[trigger] r@[i]).error, (#[trigger] r@[j]).error),
        r@.len() > 0 ==> forall|k: int|
            0 <= k < population@.len() ==> spec_le(
                r@[0].error,
                (#[trigger] population@[k]).error,
            ),
{
    let ghost pop0 = population@;
    let mut remaining = population;
    let mut r: Vec<Mutation> = Vec::new();
    while r.len() < population_size && remaining.len() > 0
        invariant
            forall|k: int|
                0 <= k < remaining@.len() ==> !is_nan((#[trigger] remaining@[k]).error),
            r@.len() <= population_size,
            r@.len() + remaining@.len() == pop0.len(),
            forall|i: int, j: int|
                0 <= i < j < r@.len() ==> spec_le(
                    (#[trigger] r@[i]).error,
                    (#[trigger] r@[j]).error,
                ),
            forall|i: int, k: int|
                0 <= i < r@.len() && 0 <= k < remaining@.len() ==> spec_le(
                    (#[trigger] r@[i]).error,
                    (#[trigger] remaining@[k]).error,
                ),
            r@.len() > 0 ==> forall|k: int|
                0 <= k < pop0.len() ==> spec_le(r@[0].error, (#[trigger] pop0[k]).error),
            r@.len() == 0 ==> remaining@ == pop0,
        decreases remaining@.len(),
    {
        let best = argmin(&remaining);
        let ghost rem0 = remaining@;
        let ghost r0 = r@;
        let picked = remaining.remove(best);
        r.push(picked);
        proof {
            assert(r@ == r0.push(rem0[best as int]));
            assert(remaining@ == rem0.remove(best as int));
            assert forall|i: int|
                0 <= i < remaining@.len() implies !is_nan(
                (#[trigger] remaining@[i]).error,
            ) by {
                let i0 = if i < best { i } else { i + 1 };
                assert(remaining@[i] == rem0[i0]);
            }
            assert forall|i: int, k: int|
                0 <= i < r@.len() && 0 <= k < remaining@.len() implies spec_le(
                (#[trigger] r@[i]).error,
                (#[trigger] remaining@[k]).error,
            ) by {
                let k0 = if k < best { k } else { k + 1 };
                assert(remaining@[k] == rem0[k0]);
                if i < r0.len() {
                    assert(spec_le(r0[i].error, rem0[k0].error));
                } else {
                    assert(r@[i] == rem0[best as int]);
                    assert(spec_le(rem0[best as int].error, rem0[k0].error));
                }
            }
            assert forall|i: int, j: int|
                0 <= i < j < r@.len() implies spec_le(
                (#[trigger] r@[i]).error,
                (#[trigger] r@[j]).error,
            ) by {
                if j == r@.len() - 1 {
                    assert(r@[j] == rem0[best as int]);
                    assert(spec_le(r0[i].error, rem0[best as int].error));
                }
            }
            if r0.len() == 0 {
                assert(rem0 == pop0);
                assert(r@[0] == rem0[best as int]);
                assert(forall|k: int|
                    0 <= k < pop0.len() ==> spec_le(r@[0].error, (#[trigger] pop0[k]).error));
            } else {
                assert(r@[0] == r0[0]);
            }
        }
    }
    r
}

/// A random permutation of the indices 0 .. n: the pairing step shuffles
/// the population twice this way and crosses the individuals the two
/// shuffles align.
pub fn shuffled_indices(rng: &mut rand::rngs::StdRng, n: usize) -> (r: Vec<usize>)
    ensures
        r@.to_multiset() == Seq::new(n as nat, |i: int| i as usize).to_multiset(),
        r@.len() == n,
        forall|i: int| 0 <= i < r@.len() ==> (#[trigger] r@[i]) < n,
{
    let mut v: Vec<usize> = Vec::new();
    let mut i: usize = 0;
    while i < n
        invariant
            i <= n,
            v@.len() == i,
            forall|k: int| 0 <= k < i ==> (#[trigger] v@[k]) == k,
        decreases n - i,
    {
        v.push(i);
        i = i + 1;
    }
    proof {
        assert(v@ =~= Seq::new(n as nat, |i: int| i as usize));
    }
    crate::rng::shuffle_indices(rng, &mut v);
    proof {
        let ident = Seq::new(n as nat, |i: int| i as usize);
        ident.to_multiset_ensures();
        v@.to_multiset_ensures();
        assert(v@.len() == n);
        assert forall|i: int| 0 <= i < v@.len() implies (#[trigger] v@[i]) < n by {
            v@.to_multiset_ensures();
            assert(v@.to_multiset().contains(v@[i]));
            assert(ident.to_multiset().contains(v@[i]));
            assert(ident.contains(v@[i]));
            let k = choose|k: int| 0 <= k < ident.len() && ident[k] == v@[i];
        }
    }
    v
}

/// The topology mutation the evolution step applies to one individual:
/// split a random arc, add a random arc, or remove a random arc and
/// prune.
pub enum MutationChoice {
    Split(Arc),
    AddArc,
    RmArc(Arc),
}

/// Draws one of the three topology mutations uniformly, with its random
/// arc where it needs one.  The caller performs the choice: it computes
/// the square root for a split, retries `try_random_add_arc` until an
/// arc is added, and prunes after a removal.
pub fn pick_mutation(m: &Mutator, rng: &mut rand::rngs::StdRng) -> (r: MutationChoice)
    requires
        m.wf(),
        m.spec_graph().arc_entries().len() > 0,
    ensures
        match r {
            MutationChoice::Split(a) => m.spec_graph().arc_map().dom().contains(a),
            MutationChoice::AddArc => true,
            MutationChoice::RmArc(a) => m.spec_graph().arc_map().dom().contains(a),
        },
{
    let kind = crate::rng::rand_below(rng, 3);
    if kind == 0 {
        MutationChoice::Split(m.random_arc(rng))
    } else if kind == 1 {
        MutationChoice::AddArc
    } else {
        MutationChoice::RmArc(m.random_arc(rng))
    }
}

} // verus!
