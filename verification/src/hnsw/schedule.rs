//! In which order and in which batches the vectors are inserted.
use crate::dataset::Dataset;
use crate::graph::GraphModel;
use crate::hnsw::builder::{
    buildable, built_levels, construction, first_position, lemma_counts, level_counts,
    linked_levels, runs_parallel,
};
use crate::hnsw::construction::{grown, Construction};
use crate::hnsw::HNSWBuildConfiguration;
use crate::levels::{from_level, highest};
use vstd::arithmetic::power2::pow2;
use vstd::prelude::*;

verus! {

/// The size of batch number `i`: the sizes double from `size` on until they reach `cap`.
pub open spec fn batch_size(size: nat, cap: nat, i: nat) -> nat {
    if size >= cap {
        size
    } else if size * pow2(i) <= cap {
        size * pow2(i)
    } else {
        cap
    }
}

/// Batch number `i` has the right size; only one that reaches the end may be smaller.
pub open spec fn batch_ok(end: nat, size: nat, cap: nat, cuts: Seq<nat>, i: int) -> bool {
    &&& cuts[i] < cuts[i + 1] <= end
    &&& cuts[i + 1] - cuts[i] == batch_size(size, cap, i as nat) || (cuts[i + 1] == end && cuts[i
        + 1] - cuts[i] < batch_size(size, cap, i as nat))
}

/// `cuts` divides the positions `p..end` into batches of the right sizes.
pub open spec fn cut_into_batches(
    p: nat,
    end: nat,
    size: nat,
    cap: nat,
    cuts: Seq<nat>,
) -> bool {
    &&& cuts.len() > 0
    &&& cuts[0] == p
    &&& cuts.last() == end
    &&& forall|i: int| 0 <= i < cuts.len() - 1 ==> #[trigger] batch_ok(end, size, cap, cuts, i)
}

/// Batch number `i` was inserted on the levels that the one before left.
pub open spec fn batch_inserted(
    cons: Construction,
    level: nat,
    cuts: Seq<nat>,
    states: Seq<Seq<GraphModel>>,
    i: int,
) -> bool {
    states[i + 1] == cons.insert_batch(
        states[i],
        cuts[i] as usize,
        (cuts[i + 1] - cuts[i]) as nat,
        level,
    )
}

/// `states` are the levels before the first batch and after each one.
pub open spec fn inserted_by_batches(
    cons: Construction,
    level: nat,
    cuts: Seq<nat>,
    states: Seq<Seq<GraphModel>>,
) -> bool {
    &&& states.len() == cuts.len()
    &&& forall|i: int|
        0 <= i < cuts.len() - 1 ==> #[trigger] batch_inserted(cons, level, cuts, states, i)
}

proof fn lemma_next_size(size: nat, cap: nat, i: nat)
    requires
        size >= 1,
    ensures
        batch_size(grown(size, cap), cap, i) == batch_size(size, cap, i + 1),
        batch_size(size, cap, 0) == size,
{
    vstd::arithmetic::power2::lemma2_to64();
    vstd::arithmetic::power2::lemma_pow2_unfold(i + 1);
    vstd::arithmetic::power2::lemma_pow2_pos(i);
    assert(pow2(i + 1) == 2 * pow2(i));
    assert(size * pow2(i + 1) == (2 * size) * pow2(i)) by (nonlinear_arith)
        requires
            pow2(i + 1) == 2 * pow2(i),
    ;
    assert(size * 1 == size);
    if size < cap && 2 * size > cap {
        assert((2 * size) * pow2(i) >= 2 * size) by (nonlinear_arith)
            requires
                pow2(i) >= 1,
                size >= 1,
        ;
    }
    if 2 * size == cap {
        assert((2 * size) * pow2(i) >= 2 * size) by (nonlinear_arith)
            requires
                pow2(i) >= 1,
                size >= 1,
        ;
    }
}

/// A run of insertions is made of batches that double in size until they reach the cap; each batch is
/// inserted on the levels that the one before left.
pub proof fn law_runs_are_made_of_doubling_batches(
    cons: Construction,
    levels: Seq<GraphModel>,
    p: usize,
    end: usize,
    size: nat,
    cap: nat,
    level: nat,
) -> (batches: (Seq<nat>, Seq<Seq<GraphModel>>))
    requires
        p <= end,
        size >= 1,
    ensures
        cut_into_batches(p as nat, end as nat, size, cap, batches.0),
        inserted_by_batches(cons, level, batches.0, batches.1),
        batches.1[0] == levels,
        batches.1.last() == cons.insert_run(levels, p, end, size, cap, level),
    decreases end - p,
{
    if p == end {
        (seq![p as nat], seq![levels])
    } else {
        let count: nat = if size <= end - p {
            size
        } else {
            (end - p) as nat
        };
        let next = cons.insert_batch(levels, p, count, level);
        let middle = (p + count) as usize;
        let (cuts, states) = law_runs_are_made_of_doubling_batches(
            cons,
            next,
            middle,
            end,
            grown(size, cap),
            cap,
            level,
        );
        let all_cuts = seq![p as nat] + cuts;
        let all_states = seq![levels] + states;
        lemma_next_size(size, cap, 0);
        assert forall|i: int| 0 <= i < all_cuts.len() - 1 implies #[trigger] batch_ok(
            end as nat,
            size,
            cap,
            all_cuts,
            i,
        ) by {
            if i > 0 {
                assert(all_cuts[i] == cuts[i - 1] && all_cuts[i + 1] == cuts[i]);
                lemma_next_size(size, cap, (i - 1) as nat);
                assert(batch_ok(end as nat, grown(size, cap), cap, cuts, i - 1));
            } else {
                assert(all_cuts[1] == cuts[0]);
            }
        }
        assert forall|i: int| 0 <= i < all_cuts.len() - 1 implies #[trigger] batch_inserted(
            cons,
            level,
            all_cuts,
            all_states,
            i,
        ) by {
            if i > 0 {
                assert(all_states[i] == states[i - 1]);
                assert(all_states[i + 1] == states[i]);
                assert(all_cuts[i] == cuts[i - 1] && all_cuts[i + 1] == cuts[i]);
                assert(batch_inserted(cons, level, cuts, states, i - 1));
            } else {
                assert(all_states[1] == states[0]);
                assert(all_cuts[1] == cuts[0]);
            }
        }
        assert(all_cuts.last() == cuts.last());
        assert(all_states.last() == states.last());
        (all_cuts, all_states)
    }
}

proof fn lemma_next_level(
    cons: Construction,
    counts: Seq<nat>,
    build_params: HNSWBuildConfiguration,
    c: int,
)
    requires
        0 <= c,
    ensures
        ({
            let above = linked_levels(cons, counts, build_params, c as nat);
            let first = first_position(counts, c) as usize;
            let end = counts[c + 1] as usize;
            let level = (cons.max_level - c) as nat;
            linked_levels(cons, counts, build_params, (c + 1) as nat) == if runs_parallel(
                counts,
                build_params,
                c,
            ) {
                cons.insert_run(
                    above,
                    first,
                    end,
                    build_params.initial_build_batch_size as nat,
                    build_params.max_build_batch_size as nat,
                    level,
                )
            } else {
                cons.insert_each(above, first, end, level)
            }
        }),
{
}

/// The index is built level by level, the highest level first. Before that, all nodes are there and
/// none has a neighbour. The vectors that come in with a level, but for the very first one, are
/// inserted in batches if there are more than twice as many as the largest batch may have, and one
/// after the other if not.
#[verifier::spinoff_prover]
pub proof fn law_levels_are_built_top_down<D: Dataset>(
    dataset: &D,
    build_params: HNSWBuildConfiguration,
    ids: Seq<usize>,
    drawn: Seq<u8>,
) -> (states: Seq<Seq<GraphModel>>)
    requires
        buildable(dataset.n_vectors() as nat, build_params, ids, drawn),
    ensures
        ({
            let cons = construction(
                dataset,
                from_level(ids, drawn, 0),
                highest(drawn) as nat,
                build_params.num_neighbors_per_vec,
                build_params.ef_construction,
            );
            &&& states.len() == highest(drawn) + 2
            &&& states.last() == built_levels(dataset, build_params, ids, drawn)
            &&& states[0].len() == highest(drawn) + 1
            &&& forall|c: int, u: int|
                0 <= c <= highest(drawn) && 0 <= u < from_level(
                    ids,
                    drawn,
                    highest(drawn) - c,
                ).len() ==> #[trigger] states[0][c].adj[u] == Seq::<usize>::empty()
            &&& forall|c: int|
                0 <= c <= highest(drawn) ==> (#[trigger] states[0][c]).adj.len() == from_level(
                    ids,
                    drawn,
                    highest(drawn) - c,
                ).len()
            &&& forall|level: int|
                0 <= level <= highest(drawn) ==> {
                    let c = highest(drawn) - level;
                    let end = from_level(ids, drawn, level).len();
                    let above = (#[trigger] from_level(ids, drawn, level + 1)).len();
                    let first = if level == highest(drawn) {
                        1
                    } else {
                        above
                    };
                    states[c + 1] == if end > first + 2 * build_params.max_build_batch_size {
                        cons.insert_run(
                            states[c],
                            first as usize,
                            end as usize,
                            build_params.initial_build_batch_size as nat,
                            build_params.max_build_batch_size as nat,
                            level as nat,
                        )
                    } else {
                        cons.insert_each(states[c], first as usize, end as usize, level as nat)
                    }
                }
        }),
{
    let top = highest(drawn) as int;
    let cons = construction(
        dataset,
        from_level(ids, drawn, 0),
        top as nat,
        build_params.num_neighbors_per_vec,
        build_params.ef_construction,
    );
    let counts = level_counts(ids, drawn);
    lemma_counts(ids, drawn);
    let states = Seq::new(
        (top + 2) as nat,
        |c: int| linked_levels(cons, counts, build_params, c as nat),
    );
    assert forall|level: int| 0 <= level <= top implies {
        let c = top - level;
        let end = from_level(ids, drawn, level).len();
        let above = (#[trigger] from_level(ids, drawn, level + 1)).len();
        let first = if level == top {
            1
        } else {
            above
        };
        states[c + 1] == if end > first + 2 * build_params.max_build_batch_size {
            cons.insert_run(
                states[c],
                first as usize,
                end as usize,
                build_params.initial_build_batch_size as nat,
                build_params.max_build_batch_size as nat,
                level as nat,
            )
        } else {
            cons.insert_each(states[c], first as usize, end as usize, level as nat)
        }
    } by {
        let c = top - level;
        assert(counts[c] == from_level(ids, drawn, level + 1).len());
        assert(counts[c + 1] == from_level(ids, drawn, level).len());
        if level < top {
            assert(counts[1] <= counts[c]);
        }
        lemma_next_level(cons, counts, build_params, c);
    }
    states
}

/// An index is built by the distances of its dataset: candidates are searched for with the new vector
/// in the place of a query and without relaxation, and compared with one another as stored vectors.
pub proof fn law_construction_goes_by_the_dataset<D: Dataset>(
    dataset: &D,
    ids: Seq<usize>,
    max_level: nat,
    m: usize,
    ef: usize,
    a: usize,
    b: usize,
    distance: i64,
    worst: i64,
)
    ensures
        ({
            let cons = construction(dataset, ids, max_level, m, ef);
            &&& (cons.from)(a, b) == dataset.vector_distance(a, b)
            &&& (cons.between)(a, b) == dataset.pair_distance(a, b)
            &&& (cons.within)(distance, worst) == D::within(distance, worst, 0)
            &&& cons.ids == ids
            &&& cons.max_level == max_level
            &&& cons.m == m
            &&& cons.ef == ef
        }),
{
}

} // verus!
