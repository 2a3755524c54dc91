//! The construction of an index.
use crate::beam::start;
use crate::dataset::{Dataset, QueryEvaluator};
use crate::graph::growable::{links_fit, links_view, pushed, FromGrowable};
use crate::graph::insertion::node_distance;
use crate::graph::table::storable;
use crate::graph::{GraphModel, GraphTrait, GrowableGraph};
use crate::hnsw::construction::{
    below, lemma_batches_of_one, lemma_bottom_entry, lemma_candidates, lemma_insert,
    lemma_level_ids, lemma_links, lemma_sizes, lemma_sound_hierarchy, lemma_upper_entry,
    links_sound, same_sizes, Construction, Links,
};
use crate::hnsw::hierarchy::{descent, upper_mapping};
use crate::hnsw::{lemma_search_eq, HNSWBuildConfiguration, HNSW};
use crate::levels::{
    compute_levels, from_level, highest, law_every_vector_has_a_level, law_levels_are_prefixes,
};
use crate::parallel::par_map;
use crate::permutation::is_permutation;
use crate::reorder::globals;
use crate::scored::ScoredItem;
use vstd::prelude::*;

verus! {

/// The graphs that are represented.
pub open spec fn models(graphs: Seq<GrowableGraph>) -> Seq<GraphModel> {
    Seq::new(graphs.len(), |c: int| graphs[c].model())
}

/// The construction over `dataset` with the given parameters.
pub open spec fn construction<D: Dataset>(
    dataset: &D,
    ids: Seq<usize>,
    max_level: nat,
    m: usize,
    ef: usize,
) -> Construction {
    Construction {
        ids,
        max_level,
        m,
        ef,
        from: |a: usize, b: usize| dataset.vector_distance(a, b),
        between: |a: usize, b: usize| dataset.pair_distance(a, b),
        within: |distance: i64, worst: i64| D::within(distance, worst, 0),
    }
}

/// The links of a new node on one level.
type LevelLinks = (Vec<usize>, Vec<(usize, Vec<usize>)>);

spec fn links_of(links: LevelLinks) -> Links {
    (links.0@, links_view(links.1@))
}

/// The links of a new node: on its upper levels from the highest one down, and on the ground
/// level.
struct NodePlan {
    upper: Vec<LevelLinks>,
    ground: LevelLinks,
}

/// The plan holds the links of the vector at position `p`.
spec fn plan_is(
    cons: Construction,
    levels: Seq<GraphModel>,
    p: usize,
    level: nat,
    plan: NodePlan,
) -> bool {
    &&& plan.upper@.len() == level
    &&& forall|k: int|
        0 <= k < level ==> links_of(#[trigger] plan.upper@[k]) == cons.links(
            levels,
            p,
            level,
            (cons.max_level - level + k) as nat,
        )
    &&& links_of(plan.ground) == cons.links(levels, p, level, cons.max_level)
}

/// The graphs are consistent and make up sound levels.
pub open spec fn graphs_sound(cons: Construction, graphs: Seq<GrowableGraph>) -> bool {
    &&& forall|c: int| 0 <= c < graphs.len() ==> (#[trigger] graphs[c]).wf()
    &&& cons.levels_sound(models(graphs))
}

/// The upper graphs from index `top` on have `p` inserted nodes.
pub open spec fn counted(graphs: Seq<GrowableGraph>, top: int, p: usize) -> bool {
    forall|c: int| top <= c < graphs.len() - 1 ==> (#[trigger] graphs[c]).inserted() == p
}

/// The upper graphs from index `top` on count `p` inserted nodes, and every other graph as many
/// as it did in `before`.
pub open spec fn counted_on(
    graphs: Seq<GrowableGraph>,
    before: Seq<GrowableGraph>,
    top: int,
    p: usize,
) -> bool {
    &&& graphs.len() == before.len()
    &&& forall|c: int|
        0 <= c < graphs.len() ==> (#[trigger] graphs[c]).inserted() == (if top <= c
            < graphs.len() - 1 {
            p
        } else {
            before[c].inserted()
        })
}

/// `after` are the graphs `before` once the vectors at the positions `start..end` were inserted
/// one after the other.
pub open spec fn inserted_in_turn(
    cons: Construction,
    before: Seq<GrowableGraph>,
    after: Seq<GrowableGraph>,
    start: usize,
    end: usize,
    level: nat,
) -> bool {
    &&& models(after) == cons.insert_each(models(before), start, end, level)
    &&& counted_on(
        after,
        before,
        cons.max_level - level,
        if start <= end { end } else { start },
    )
}

/// `after` are the graphs `before` once the vectors at the positions `start..end` were inserted
/// in batches that grow from `size` up to `cap`.
pub open spec fn inserted_in_batches(
    cons: Construction,
    before: Seq<GrowableGraph>,
    after: Seq<GrowableGraph>,
    start: usize,
    end: usize,
    size: nat,
    cap: nat,
    level: nat,
) -> bool {
    &&& models(after) == cons.insert_run(models(before), start, end, size, cap, level)
    &&& counted_on(
        after,
        before,
        cons.max_level - level,
        if start <= end { end } else { start },
    )
}

/// Inserting vectors in batches of one is inserting them one after the other: from the same
/// graphs, both lead to the same graphs, with the same numbers of inserted nodes.
pub proof fn law_batches_of_one_are_sequential(
    cons: Construction,
    before: Seq<GrowableGraph>,
    in_turn: Seq<GrowableGraph>,
    in_batches: Seq<GrowableGraph>,
    start: usize,
    end: usize,
    level: nat,
)
    requires
        inserted_in_turn(cons, before, in_turn, start, end, level),
        inserted_in_batches(cons, before, in_batches, start, end, 1, 1, level),
    ensures
        in_turn.len() == in_batches.len(),
        forall|c: int|
            0 <= c < in_turn.len() ==> {
                &&& (#[trigger] in_turn[c]).model() == in_batches[c].model()
                &&& in_turn[c].inserted() == in_batches[c].inserted()
            },
{
    lemma_batches_of_one(cons, models(before), start, end, 1, level);
    assert forall|c: int| 0 <= c < in_turn.len() implies {
        &&& (#[trigger] in_turn[c]).model() == in_batches[c].model()
        &&& in_turn[c].inserted() == in_batches[c].inserted()
    } by {
        assert(models(in_turn)[c] == models(in_batches)[c]);
    }
}

/// The search for a vector that is inserted is the one of its evaluator.
proof fn lemma_same_search<D: Dataset, E: QueryEvaluator>(
    cons: Construction,
    dataset: &D,
    evaluator: &E,
    inserted: usize,
    g: GraphModel,
)
    requires
        cons == construction(dataset, cons.ids, cons.max_level, cons.m, cons.ef),
        forall|id: usize| #[trigger]
            evaluator.distance_to(id) == dataset.vector_distance(inserted, id),
        forall|d: i64, worst: i64, l: u32| #[trigger]
            E::within_relaxation(d, worst, l) == D::within(d, worst, l),
    ensures
        forall|ef: usize| #[trigger]
            g.search(evaluator, ef, 0, 0) == g.search_by(
                cons.distances(inserted),
                cons.within,
                ef,
                0,
            ),
        node_distance(dataset, g) == cons.node_distance(g),
{
    let distance = cons.distances(inserted);
    assert forall|ef: usize| #[trigger]
        g.search(evaluator, ef, 0, 0) == g.search_by(distance, cons.within, ef, 0) by {
        lemma_search_eq::<D, E>(Seq::empty(), g, evaluator, distance, ef, 0, 0, 0);
    }
    assert(node_distance(dataset, g) =~= cons.node_distance(g));
}

/// Chooses the links of the vector at position `p` on all its levels.
fn plan_node<D: Dataset>(
    graphs: &Vec<GrowableGraph>,
    dataset: &D,
    ids: &[usize],
    p: usize,
    level: usize,
    max_level: usize,
    m: usize,
    ef: usize,
) -> (plan: NodePlan)
    requires
        ({
            let cons = construction(dataset, ids@, max_level as nat, m, ef);
            &&& cons.sound()
            &&& m >= 1
            &&& ef >= 1
            &&& dataset.n_vectors() == ids@.len()
            &&& graphs_sound(cons, graphs@)
            &&& level <= max_level
            &&& p < models(graphs@)[max_level - level].adj.len()
        }),
    ensures
        plan_is(
            construction(dataset, ids@, max_level as nat, m, ef),
            models(graphs@),
            p,
            level as nat,
            plan,
        ),
{
    let ghost cons = construction(dataset, ids@, max_level as nat, m, ef);
    let ghost levels = models(graphs@);
    let ghost n = ids@.len();
    proof {
        assert(cons.level_sound(levels[max_level - level], max_level - level));
        assert(ids@[p as int] < n);
        assert(ids@[0] < n);
    }
    let inserted: usize = ids[p];
    let evaluator = dataset.vector_evaluator(inserted);
    let ghost distance = cons.distances(inserted);
    let mut entry = ScoredItem { distance: evaluator.compute_distance(ids[0]), vector: 0 };
    let ghost first = cons.first_entry(inserted);
    let mut upper: Vec<LevelLinks> = Vec::new();
    if level > 0 {
        let top: usize = max_level - level;
        let mut c: usize = 0;
        while c < top
            invariant
                graphs_sound(cons, graphs@),
                cons == construction(dataset, ids@, max_level as nat, m, ef),
                cons.sound(),
                levels == models(graphs@),
                n == ids@.len(),
                n == cons.ids.len(),
                evaluator.n_known() == n,
                forall|id: usize| #[trigger]
                    evaluator.distance_to(id) == dataset.vector_distance(inserted, id),
                forall|d: i64, worst: i64, l: u32| #[trigger]
                    <D::Evaluator<'_> as QueryEvaluator>::within_relaxation(d, worst, l)
                        == D::within(d, worst, l),
                distance == cons.distances(inserted),
                top <= max_level,
                c <= top,
                first.vector == 0,
                entry == descent(levels, distance, cons.within, first, c as nat),
                entry.vector < levels[c as int].adj.len(),
            decreases top - c,
        {
            proof {
                assert(cons.level_sound(levels[c as int], c as int));
                assert(cons.sizes_grow(levels, c as int));
                assert(graphs@[c as int].model() == levels[c as int]);
                lemma_level_ids(cons, levels, c as int);
                lemma_same_search(cons, dataset, &evaluator, inserted, levels[c as int]);
            }
            entry = graphs[c].greedy_search_nearest(&evaluator, entry);
            c += 1;
        }
        while c < max_level
            invariant
                graphs_sound(cons, graphs@),
                cons == construction(dataset, ids@, max_level as nat, m, ef),
                cons.sound(),
                m >= 1,
                ef >= 1,
                levels == models(graphs@),
                n == ids@.len(),
                n == cons.ids.len(),
                n == dataset.n_vectors(),
                evaluator.n_known() == n,
                forall|id: usize| #[trigger]
                    evaluator.distance_to(id) == dataset.vector_distance(inserted, id),
                forall|d: i64, worst: i64, l: u32| #[trigger]
                    <D::Evaluator<'_> as QueryEvaluator>::within_relaxation(d, worst, l)
                        == D::within(d, worst, l),
                inserted == ids@[p as int],
                0 < level <= max_level,
                top == max_level - level,
                p < levels[top as int].adj.len(),
                top <= c <= max_level,
                entry == cons.upper_entry(levels, inserted, level as nat, c as nat),
                upper@.len() == c - top,
                forall|k: int|
                    0 <= k < c - top ==> links_of(#[trigger] upper@[k]) == cons.links(
                        levels,
                        p,
                        level as nat,
                        (top + k) as nat,
                    ),
            decreases max_level - c,
        {
            let ghost g = levels[c as int];
            proof {
                assert(cons.level_sound(g, c as int));
                assert(graphs@[c as int].model() == g);
                lemma_sizes(cons, levels, top as int, c as int);
                lemma_level_ids(cons, levels, c as int);
                lemma_same_search(cons, dataset, &evaluator, inserted, g);
                lemma_upper_entry(cons, levels, inserted, level as nat, c as nat);
                lemma_candidates(cons, g, inserted, entry);
                assert(g.has_external(p));
            }
            let (forward, reverse, new_entry) = graphs[c].find_and_prune_neighbors(
                dataset,
                &evaluator,
                entry,
                ef,
                m,
                p,
            );
            upper.push((forward, reverse));
            entry = new_entry;
            c += 1;
        }
    }
    proof {
        lemma_bottom_entry(cons, levels, inserted, level as nat);
        lemma_upper_entry(cons, levels, inserted, level as nat, max_level as nat);
        if max_level > 0 {
            lemma_level_ids(cons, levels, max_level - 1);
            assert(levels[max_level - 1].has_external(entry.vector));
            assert(graphs@[max_level - 1].model() == levels[max_level - 1]);
        }
    }
    let ground_id: usize = if max_level > 0 {
        graphs[max_level - 1].get_external_id(entry.vector)
    } else {
        ids[0]
    };
    let ground_entry = ScoredItem {
        distance: evaluator.compute_distance(ground_id),
        vector: ground_id,
    };
    proof {
        let g = levels[max_level as int];
        assert(ground_entry == cons.bottom_entry(levels, inserted, level as nat));
        assert(cons.level_sound(g, max_level as int));
        assert(graphs@[max_level as int].model() == g);
        lemma_level_ids(cons, levels, max_level as int);
        lemma_same_search(cons, dataset, &evaluator, inserted, g);
        lemma_candidates(cons, g, inserted, ground_entry);
        assert(g.has_external(inserted));
    }
    let (ground_neighbors, ground_reverse_links, _) = graphs[max_level].find_and_prune_neighbors(
        dataset,
        &evaluator,
        ground_entry,
        ef,
        2 * m,
        inserted,
    );
    NodePlan { upper, ground: (ground_neighbors, ground_reverse_links) }
}

/// The links fit the graph they are pushed to.
proof fn lemma_links_fit(links: Links, n: nat, degree: nat)
    requires
        links_sound(links, n, degree),
        n < u32::MAX,
    ensures
        storable(links.0),
        links_fit(links.1, n, degree),
{
    assert forall|i: int| 0 <= i < links.1.len() implies storable((#[trigger] links.1[i]).1) by {
        assert(below(links.1[i].1, n));
    }
}

/// Links the vector at position `p` into the graphs, as planned when the levels were `base`.
fn apply_plan(
    graphs: &mut Vec<GrowableGraph>,
    plan: &NodePlan,
    ids: &[usize],
    p: usize,
    level: usize,
    max_level: usize,
    Ghost(cons): Ghost<Construction>,
    Ghost(base): Ghost<Seq<GraphModel>>,
)
    requires
        cons.sound(),
        cons.m >= 1,
        cons.ef >= 1,
        cons.ids == ids@,
        cons.max_level == max_level,
        graphs_sound(cons, old(graphs)@),
        cons.levels_sound(base),
        same_sizes(models(old(graphs)@), base),
        level <= max_level,
        p < base[max_level - level].adj.len(),
        plan_is(cons, base, p, level as nat, *plan),
        counted(old(graphs)@, max_level - level, p),
    ensures
        graphs_sound(cons, final(graphs)@),
        models(final(graphs)@) == cons.insert(models(old(graphs)@), base, p, level as nat),
        same_sizes(models(final(graphs)@), base),
        counted_on(final(graphs)@, old(graphs)@, max_level - level, (p + 1) as usize),
{
    let ghost before = models(graphs@);
    let ghost after = cons.insert(before, base, p, level as nat);
    proof {
        assert(cons.level_sound(base[max_level - level], max_level - level));
        lemma_insert(cons, before, base, p, level as nat);
    }
    let inserted: usize = ids[p];
    let top: usize = max_level - level;
    let mut k: usize = 0;
    while k < level
        invariant
            cons.sound(),
            cons.m >= 1,
            cons.ef >= 1,
            cons.ids == ids@,
            cons.max_level == max_level,
            cons.levels_sound(before),
            cons.levels_sound(base),
            same_sizes(before, base),
            after == cons.insert(before, base, p, level as nat),
            inserted == ids@[p as int],
            top == max_level - level,
            level <= max_level,
            p < base[top as int].adj.len(),
            plan_is(cons, base, p, level as nat, *plan),
            k <= level,
            graphs@.len() == max_level + 1,
            before.len() == max_level + 1,
            forall|c: int| 0 <= c <= max_level ==> (#[trigger] graphs@[c]).wf(),
            forall|c: int|
                0 <= c <= max_level ==> (#[trigger] graphs@[c]).model() == if c < top + k {
                    after[c]
                } else {
                    before[c]
                },
            forall|c: int|
                0 <= c <= max_level ==> (#[trigger] graphs@[c]).inserted() == if top <= c < top
                    + k {
                    p + 1
                } else {
                    old(graphs)@[c].inserted() as int
                },
            counted(old(graphs)@, top as int, p),
            old(graphs)@.len() == max_level + 1,
            p < u32::MAX,
        decreases level - k,
    {
        let c: usize = top + k;
        proof {
            assert(cons.level_sound(base[c as int], c as int));
            assert(cons.level_sound(before[c as int], c as int));
            assert(before[c as int].adj.len() == base[c as int].adj.len());
            lemma_sizes(cons, base, top as int, c as int);
            lemma_links(cons, base, p, level as nat, c as nat);
            lemma_links_fit(
                cons.links(base, p, level as nat, c as nat),
                base[c as int].adj.len(),
                cons.degree(c as nat),
            );
            assert(links_of(plan.upper@[k as int]) == cons.links(base, p, level as nat, c as nat));
            assert(graphs@[c as int].model() == before[c as int]);
        }
        let links = &plan.upper[k];
        graphs[c].push_with_precomputed_reverse_links(
            Some(inserted),
            links.0.as_slice(),
            p,
            links.1.as_slice(),
        );
        graphs[c].advance_inserted_nodes(1);
        k += 1;
    }
    proof {
        let c = max_level as int;
        assert(cons.level_sound(base[c], c));
        assert(cons.level_sound(before[c], c));
        assert(ids@[p as int] < ids@.len());
        lemma_links(cons, base, p, level as nat, max_level as nat);
        lemma_links_fit(
            cons.links(base, p, level as nat, max_level as nat),
            base[c].adj.len(),
            cons.degree(max_level as nat),
        );
        assert(graphs@[c].model() == before[c]);
    }
    graphs[max_level].push_with_precomputed_reverse_links(
        None,
        plan.ground.0.as_slice(),
        inserted,
        plan.ground.1.as_slice(),
    );
    assert(models(graphs@) =~= after);
}

/// What the insertion of the positions `start..end` asks for.
pub open spec fn ready<D: Dataset>(
    cons: Construction,
    dataset: &D,
    graphs: Seq<GrowableGraph>,
    start: usize,
    end: usize,
    level: usize,
) -> bool {
    &&& cons == construction(dataset, cons.ids, cons.max_level, cons.m, cons.ef)
    &&& cons.sound()
    &&& dataset.n_vectors() == cons.ids.len()
    &&& graphs_sound(cons, graphs)
    &&& level <= cons.max_level
    &&& counted(graphs, cons.max_level - level, start)
    &&& start < end ==> {
        &&& end <= models(graphs)[cons.max_level - level].adj.len()
        &&& cons.m >= 1
        &&& cons.ef >= 1
    }
}

/// Inserts the vectors at the positions `start..end` one after the other.
pub(crate) fn process_level_sequentially<D: Dataset>(
    graphs: &mut Vec<GrowableGraph>,
    dataset: &D,
    ids: &[usize],
    start: usize,
    end: usize,
    level: usize,
    max_level: usize,
    m: usize,
    ef: usize,
)
    requires
        ready(
            construction(dataset, ids@, max_level as nat, m, ef),
            dataset,
            old(graphs)@,
            start,
            end,
            level,
        ),
    ensures
        graphs_sound(
            construction(dataset, ids@, max_level as nat, m, ef),
            final(graphs)@,
        ),
        same_sizes(models(final(graphs)@), models(old(graphs)@)),
        inserted_in_turn(
            construction(dataset, ids@, max_level as nat, m, ef),
            old(graphs)@,
            final(graphs)@,
            start,
            end,
            level as nat,
        ),
{
    let ghost cons = construction(dataset, ids@, max_level as nat, m, ef);
    let ghost before = models(graphs@);
    let ghost goal = cons.insert_each(before, start, end, level as nat);
    let mut p: usize = start;
    while p < end
        invariant
            cons == construction(dataset, ids@, max_level as nat, m, ef),
            p < end ==> ready(cons, dataset, graphs@, p, end, level),
            counted_on(graphs@, old(graphs)@, max_level - level, p),
            start <= p,
            start <= end ==> p <= end,
            start > end ==> p == start,
            graphs_sound(cons, graphs@),
            same_sizes(models(graphs@), before),
            cons.insert_each(models(graphs@), p, end, level as nat) == goal,
        decreases end - p,
    {
        let ghost base = models(graphs@);
        let plan = plan_node(&*graphs, dataset, ids, p, level, max_level, m, ef);
        apply_plan(graphs, &plan, ids, p, level, max_level, Ghost(cons), Ghost(base));
        proof {
            assert(models(graphs@)[max_level - level].adj.len() == base[max_level
                - level].adj.len());
        }
        p += 1;
    }
}

/// Inserts the vectors at the positions `start..end` in batches. The links of a batch are chosen
/// in parallel, on the graphs as they were before the batch.
pub(crate) fn process_level_parallelly<D: Dataset + Sync>(
    graphs: &mut Vec<GrowableGraph>,
    dataset: &D,
    ids: &[usize],
    start: usize,
    end: usize,
    level: usize,
    max_level: usize,
    m: usize,
    ef: usize,
    initial_batch_size: usize,
    max_batch_size: usize,
)
    requires
        ready(
            construction(dataset, ids@, max_level as nat, m, ef),
            dataset,
            old(graphs)@,
            start,
            end,
            level,
        ),
        initial_batch_size >= 1,
        2 * max_batch_size <= usize::MAX,
    ensures
        graphs_sound(
            construction(dataset, ids@, max_level as nat, m, ef),
            final(graphs)@,
        ),
        same_sizes(models(final(graphs)@), models(old(graphs)@)),
        inserted_in_batches(
            construction(dataset, ids@, max_level as nat, m, ef),
            old(graphs)@,
            final(graphs)@,
            start,
            end,
            initial_batch_size as nat,
            max_batch_size as nat,
            level as nat,
        ),
{
    let ghost cons = construction(dataset, ids@, max_level as nat, m, ef);
    let ghost before = models(graphs@);
    let ghost cap = max_batch_size as nat;
    let ghost goal = cons.insert_run(
        before,
        start,
        end,
        initial_batch_size as nat,
        cap,
        level as nat,
    );
    let mut size: usize = initial_batch_size;
    let mut p: usize = start;
    while p < end
        invariant
            cons == construction(dataset, ids@, max_level as nat, m, ef),
            cap == max_batch_size,
            2 * max_batch_size <= usize::MAX,
            size >= 1,
            p < end ==> ready(cons, dataset, graphs@, p, end, level),
            counted_on(graphs@, old(graphs)@, max_level - level, p),
            start <= p,
            start <= end ==> p <= end,
            start > end ==> p == start,
            graphs_sound(cons, graphs@),
            same_sizes(models(graphs@), before),
            cons.insert_run(models(graphs@), p, end, size as nat, cap, level as nat) == goal,
        decreases end - p,
    {
        let ghost base = models(graphs@);
        let count: usize = if size <= end - p {
            size
        } else {
            end - p
        };
        proof {
            assert(cons.level_sound(base[max_level - level], max_level - level));
        }
        let plans: Vec<NodePlan> = plan_batch(
            &*graphs,
            dataset,
            ids,
            p,
            count,
            level,
            max_level,
            m,
            ef,
        );
        let mut i: usize = 0;
        while i < count
            invariant
                cons == construction(dataset, ids@, max_level as nat, m, ef),
                cons.sound(),
                m >= 1,
                ef >= 1,
                level <= max_level,
                cons.levels_sound(base),
                p + count <= base[max_level - level].adj.len(),
                p + count <= end,
                plans@.len() == count,
                forall|k: usize|
                    k < count ==> plan_is(
                        cons,
                        base,
                        (p + k) as usize,
                        level as nat,
                        #[trigger] plans@[k as int],
                    ),
                i <= count,
                graphs_sound(cons, graphs@),
                same_sizes(models(graphs@), base),
                counted_on(graphs@, old(graphs)@, max_level - level, (p + i) as usize),
                models(graphs@) == cons.insert_batch(base, p, i as nat, level as nat),
            decreases count - i,
        {
            apply_plan(
                graphs,
                &plans[i],
                ids,
                p + i,
                level,
                max_level,
                Ghost(cons),
                Ghost(base),
            );
            i += 1;
        }
        proof {
            assert(models(graphs@)[max_level - level].adj.len() == base[max_level
                - level].adj.len());
        }
        p += count;
        if size < max_batch_size {
            size = if size * 2 <= max_batch_size {
                size * 2
            } else {
                max_batch_size
            };
        }
    }
}

/// Chooses the links of `count` vectors from position `p` on, in parallel.
fn plan_batch<D: Dataset + Sync>(
    graphs: &Vec<GrowableGraph>,
    dataset: &D,
    ids: &[usize],
    p: usize,
    count: usize,
    level: usize,
    max_level: usize,
    m: usize,
    ef: usize,
) -> (plans: Vec<NodePlan>)
    requires
        ({
            let cons = construction(dataset, ids@, max_level as nat, m, ef);
            &&& cons.sound()
            &&& m >= 1
            &&& ef >= 1
            &&& dataset.n_vectors() == ids@.len()
            &&& graphs_sound(cons, graphs@)
            &&& level <= max_level
            &&& p + count <= models(graphs@)[max_level - level].adj.len()
        }),
    ensures
        plans@.len() == count,
        forall|k: usize|
            k < count ==> plan_is(
                construction(dataset, ids@, max_level as nat, m, ef),
                models(graphs@),
                (p + k) as usize,
                level as nat,
                #[trigger] plans@[k as int],
            ),
{
    proof {
        let cons = construction(dataset, ids@, max_level as nat, m, ef);
        let c = max_level - level;
        assert(cons.level_sound(models(graphs@)[c], c));
        assert(ids.len() == ids@.len());
    }
    let batch = vstd::slice::slice_subrange(ids, p, p + count);
    let plan_one = |i: usize, _id: usize| -> (plan: NodePlan)
        requires
            i < count,
        ensures
            plan_is(
                construction(dataset, ids@, max_level as nat, m, ef),
                models(graphs@),
                (p + i) as usize,
                level as nat,
                plan,
            ),
    {
        plan_node(graphs, dataset, ids, p + i, level, max_level, m, ef)
    };
    par_map(batch, plan_one)
}

/// The numbers of vectors on the `i` highest levels.
pub open spec fn level_counts(ids: Seq<usize>, drawn: Seq<u8>) -> Seq<nat> {
    Seq::new(
        (highest(drawn) + 2) as nat,
        |i: int| from_level(ids, drawn, highest(drawn) + 1 - i).len(),
    )
}

/// The levels before any vector is linked in.
pub open spec fn unlinked_levels(cons: Construction, counts: Seq<nat>) -> Seq<GraphModel> {
    Seq::new(
        cons.max_level + 1,
        |c: int|
            GraphModel {
                adj: Seq::new(counts[c + 1], |u: int| Seq::<usize>::empty()),
                ids: if c < cons.max_level {
                    Some(cons.ids.take(counts[c + 1] as int))
                } else {
                    None
                },
                max_degree: cons.degree(c as nat) as usize,
            },
    )
}

/// The first position that is inserted with level index `c`. The very first vector is the entry
/// point and is linked to nothing.
pub open spec fn first_position(counts: Seq<nat>, c: int) -> nat {
    if counts[c] == 0 {
        1
    } else {
        counts[c]
    }
}

/// Level index `c` has enough new vectors to insert them in parallel.
pub open spec fn runs_parallel(
    counts: Seq<nat>,
    build_params: HNSWBuildConfiguration,
    c: int,
) -> bool {
    counts[c + 1] > first_position(counts, c) + 2 * build_params.max_build_batch_size
}

/// The levels after the vectors of the `c` highest levels were linked in.
pub open spec fn linked_levels(
    cons: Construction,
    counts: Seq<nat>,
    build_params: HNSWBuildConfiguration,
    c: nat,
) -> Seq<GraphModel>
    decreases c,
{
    if c == 0 {
        unlinked_levels(cons, counts)
    } else {
        let index = c - 1;
        let above = linked_levels(cons, counts, build_params, (c - 1) as nat);
        let first = first_position(counts, index) as usize;
        let end = counts[index + 1] as usize;
        let level = (cons.max_level - index) as nat;
        if runs_parallel(counts, build_params, index) {
            cons.insert_run(
                above,
                first,
                end,
                build_params.initial_build_batch_size as nat,
                build_params.max_build_batch_size as nat,
                level,
            )
        } else {
            cons.insert_each(above, first, end, level)
        }
    }
}

/// The levels of the index that is built when `ids[i]` draws the level `drawn[i]`.
pub open spec fn built_levels<D: Dataset>(
    dataset: &D,
    build_params: HNSWBuildConfiguration,
    ids: Seq<usize>,
    drawn: Seq<u8>,
) -> Seq<GraphModel> {
    let cons = construction(
        dataset,
        from_level(ids, drawn, 0),
        highest(drawn) as nat,
        build_params.num_neighbors_per_vec,
        build_params.ef_construction,
    );
    linked_levels(
        cons,
        level_counts(ids, drawn),
        build_params,
        (highest(drawn) + 1) as nat,
    )
}

/// An index of `n` vectors can be built with these parameters when `ids[i]` draws the level
/// `drawn[i]`.
pub open spec fn buildable(
    n: nat,
    build_params: HNSWBuildConfiguration,
    ids: Seq<usize>,
    drawn: Seq<u8>,
) -> bool {
    &&& 0 < n < u32::MAX
    &&& is_permutation(ids)
    &&& ids.len() == n
    &&& drawn.len() == n
    &&& 2 * build_params.num_neighbors_per_vec <= usize::MAX
    &&& n > 1 ==> build_params.num_neighbors_per_vec >= 1 && build_params.ef_construction >= 1
    &&& build_params.initial_build_batch_size >= 1 || forall|c: int|
        0 <= c <= highest(drawn) ==> !#[trigger] runs_parallel(
            level_counts(ids, drawn),
            build_params,
            c,
        )
}

/// `g` has the vectors that were drawn for `level` or a higher one, and keeps the degree bound:
/// twice the number of neighbours on the ground level, and the number itself above.
pub open spec fn holds_level(
    g: GraphModel,
    build_params: HNSWBuildConfiguration,
    ids: Seq<usize>,
    drawn: Seq<u8>,
    level: int,
) -> bool {
    &&& g.valid()
    &&& g.adj.len() == from_level(ids, drawn, level).len()
    &&& if level == 0 {
        g.ids is None && g.max_degree == 2 * build_params.num_neighbors_per_vec
    } else {
        g.ids == Some(from_level(ids, drawn, level)) && g.max_degree
            == build_params.num_neighbors_per_vec
    }
}

/// What the numbers of vectors per level satisfy.
pub proof fn lemma_counts(ids: Seq<usize>, drawn: Seq<u8>)
    requires
        is_permutation(ids),
        ids.len() == drawn.len(),
        ids.len() > 0,
    ensures
        ({
            let counts = level_counts(ids, drawn);
            &&& counts[0] == 0
            &&& counts[1] > 0
            &&& counts[highest(drawn) + 1] == ids.len()
            &&& forall|i: int, j: int|
                0 <= i <= j <= highest(drawn) + 1 ==> #[trigger] counts[i] <= #[trigger] counts[j]
            &&& forall|i: int|
                0 <= i <= highest(drawn) + 1 ==> from_level(ids, drawn, 0).take(
                    #[trigger] counts[i] as int,
                ) == from_level(ids, drawn, highest(drawn) + 1 - i)
        }),
{
    let counts = level_counts(ids, drawn);
    let top = highest(drawn) as int;
    law_every_vector_has_a_level(ids, drawn);
    assert forall|i: int, j: int| 0 <= i <= j <= top + 1 implies #[trigger] counts[i]
        <= #[trigger] counts[j] by {
        law_levels_are_prefixes(ids, drawn, top + 1 - j, top + 1 - i);
    }
    assert forall|i: int| 0 <= i <= top + 1 implies from_level(ids, drawn, 0).take(
        #[trigger] counts[i] as int,
    ) == from_level(ids, drawn, top + 1 - i) by {
        law_levels_are_prefixes(ids, drawn, 0, top + 1 - i);
    }
}

/// The levels are sound before any vector is linked in.
pub proof fn lemma_unlinked(cons: Construction, counts: Seq<nat>)
    requires
        cons.sound(),
        counts.len() == cons.max_level + 2,
        counts[1] > 0,
        counts[cons.max_level as int + 1] == cons.ids.len(),
        forall|i: int, j: int|
            0 <= i <= j <= cons.max_level + 1 ==> #[trigger] counts[i] <= #[trigger] counts[j],
    ensures
        cons.levels_sound(unlinked_levels(cons, counts)),
{
    let levels = unlinked_levels(cons, counts);
    assert forall|c: int| 0 <= c <= cons.max_level implies cons.level_sound(
        #[trigger] levels[c],
        c,
    ) by {
        assert(counts[1] <= counts[c + 1]);
        assert(counts[c + 1] <= counts[cons.max_level as int + 1]);
    }
    assert forall|c: int| 0 <= c < cons.max_level implies #[trigger] cons.sizes_grow(
        levels,
        c,
    ) by {
        assert(counts[c + 1] <= counts[c + 2]);
    }
}

fn copy_ids(ids: &Vec<usize>) -> (copy: Vec<usize>)
    ensures
        copy@ == ids@,
{
    let mut copy: Vec<usize> = Vec::new();
    let mut i: usize = 0;
    while i < ids.len()
        invariant
            i <= ids@.len(),
            copy@ == ids@.take(i as int),
        decreases ids@.len() - i,
    {
        copy.push(ids[i]);
        i += 1;
        assert(copy@ =~= ids@.take(i as int));
    }
    assert(ids@.take(i as int) =~= ids@);
    copy
}

/// The graph at level index `c` after the entry point was inserted.
pub open spec fn with_entry_point(
    g: GraphModel,
    entry_point_global_id: usize,
    c: int,
    max_level: int,
) -> GraphModel {
    if c < max_level {
        pushed(g, Some(entry_point_global_id), Seq::empty(), 0, Seq::empty())
    } else {
        pushed(g, None, Seq::empty(), entry_point_global_id, Seq::empty())
    }
}

/// Inserts the first vector: it is the first node of every upper level, and linked to nothing.
pub(crate) fn insert_entry_point(
    graphs: &mut Vec<GrowableGraph>,
    entry_point_global_id: usize,
    max_level: usize,
)
    requires
        old(graphs)@.len() == max_level + 1,
        max_level < usize::MAX,
        forall|c: int| 0 <= c <= max_level ==> (#[trigger] old(graphs)@[c]).wf(),
        forall|c: int|
            0 <= c < max_level ==> {
                &&& (#[trigger] old(graphs)@[c]).model().ids is Some
                &&& old(graphs)@[c].model().adj.len() > 0
                &&& old(graphs)@[c].inserted() < usize::MAX
            },
        old(graphs)@[max_level as int].model().ids is Some ==> entry_point_global_id < old(
            graphs,
        )@[max_level as int].model().adj.len(),
    ensures
        final(graphs)@.len() == max_level + 1,
        forall|c: int|
            0 <= c <= max_level ==> {
                &&& (#[trigger] final(graphs)@[c]).wf()
                &&& final(graphs)@[c].model() == with_entry_point(
                    old(graphs)@[c].model(),
                    entry_point_global_id,
                    c,
                    max_level as int,
                )
                &&& final(graphs)@[c].inserted() == old(graphs)@[c].inserted() + (if c < max_level {
                    1int
                } else {
                    0
                })
            },
{
    let ghost before = graphs@;
    let no_neighbors: Vec<usize> = Vec::new();
    let no_links: Vec<(usize, Vec<usize>)> = Vec::new();
    proof {
        assert(links_view(no_links@) =~= Seq::empty());
        assert(no_neighbors@ =~= Seq::empty());
    }
    let mut c: usize = 0;
    while c < max_level + 1
        invariant
            max_level < usize::MAX,
            before.len() == max_level + 1,
            graphs@.len() == max_level + 1,
            before == old(graphs)@,
            no_neighbors@ == Seq::<usize>::empty(),
            links_view(no_links@) == Seq::<(usize, Seq<usize>)>::empty(),
            forall|l: int|
                0 <= l < max_level ==> {
                    &&& (#[trigger] before[l]).model().ids is Some
                    &&& before[l].model().adj.len() > 0
                    &&& before[l].inserted() < usize::MAX
                },
            before[max_level as int].model().ids is Some ==> entry_point_global_id
                < before[max_level as int].model().adj.len(),
            c <= max_level + 1,
            forall|l: int| 0 <= l <= max_level ==> (#[trigger] graphs@[l]).wf(),
            forall|l: int| c <= l <= max_level ==> #[trigger] graphs@[l] == before[l],
            forall|l: int|
                0 <= l < c ==> {
                    &&& (#[trigger] graphs@[l]).model() == with_entry_point(
                        before[l].model(),
                        entry_point_global_id,
                        l,
                        max_level as int,
                    )
                    &&& graphs@[l].inserted() == before[l].inserted() + (if l < max_level {
                        1int
                    } else {
                        0
                    })
                },
        decreases max_level + 1 - c,
    {
        assert(graphs@[c as int] == before[c as int]);
        if c < max_level {
            graphs[c].push_with_precomputed_reverse_links(
                Some(entry_point_global_id),
                no_neighbors.as_slice(),
                0,
                no_links.as_slice(),
            );
            graphs[c].advance_inserted_nodes(1);
        } else {
            graphs[c].push_with_precomputed_reverse_links(
                None,
                no_neighbors.as_slice(),
                entry_point_global_id,
                no_links.as_slice(),
            );
        }
        c += 1;
    }
}

/// The levels know the entry point by its place already, so inserting it only counts it.
proof fn lemma_entry_point(
    cons: Construction,
    before: Seq<GrowableGraph>,
    after: Seq<GrowableGraph>,
)
    requires
        cons.sound(),
        graphs_sound(cons, before),
        after.len() == before.len(),
        forall|c: int|
            0 <= c < before.len() ==> {
                &&& (#[trigger] after[c]).wf()
                &&& after[c].model() == with_entry_point(
                    before[c].model(),
                    cons.ids[0],
                    c,
                    cons.max_level as int,
                )
            },
    ensures
        graphs_sound(cons, after),
        models(after) == models(before),
{
    assert forall|c: int| 0 <= c < before.len() implies #[trigger] models(after)[c] == models(
        before,
    )[c] by {
        let g = models(before)[c];
        assert(g == before[c].model());
        assert(after[c].model() == with_entry_point(g, cons.ids[0], c, cons.max_level as int));
        assert(cons.level_sound(g, c));
        if c < cons.max_level {
            let names = cons.ids.take(g.adj.len() as int);
            assert(names.update(0, cons.ids[0]) =~= names);
        }
    }
    assert(models(after) =~= models(before));
}

/// The graphs of all levels, without any links.
fn unlinked_graphs(
    levels_mapping: &Vec<Vec<usize>>,
    num_vectors: usize,
    max_level: usize,
    m: usize,
    Ghost(cons): Ghost<Construction>,
    Ghost(counts): Ghost<Seq<nat>>,
) -> (graphs: Vec<GrowableGraph>)
    requires
        cons.sound(),
        cons.max_level == max_level,
        cons.m == m,
        cons.ids.len() == num_vectors,
        num_vectors * (2 * m) <= usize::MAX,
        max_level < usize::MAX,
        levels_mapping@.len() == max_level,
        counts.len() == max_level + 2,
        counts[1] > 0,
        counts[max_level as int + 1] == num_vectors,
        forall|i: int, j: int|
            0 <= i <= j <= max_level + 1 ==> #[trigger] counts[i] <= #[trigger] counts[j],
        forall|i: int|
            0 <= i < max_level ==> (#[trigger] levels_mapping@[i])@ == cons.ids.take(
                counts[max_level - i] as int,
            ),
    ensures
        graphs_sound(cons, graphs@),
        models(graphs@) == unlinked_levels(cons, counts),
        forall|c: int| 0 <= c < graphs@.len() ==> (#[trigger] graphs@[c]).inserted() == 0,
{
    let ghost expected = unlinked_levels(cons, counts);
    proof {
        lemma_unlinked(cons, counts);
    }
    let mut graphs: Vec<GrowableGraph> = Vec::new();
    let mut i: usize = max_level;
    while i > 0
        invariant
            cons.sound(),
            cons.max_level == max_level,
            cons.m == m,
            cons.ids.len() == num_vectors,
            num_vectors * (2 * m) <= usize::MAX,
            levels_mapping@.len() == max_level,
            counts.len() == max_level + 2,
            counts[max_level as int + 1] == num_vectors,
            forall|i: int, j: int|
                0 <= i <= j <= max_level + 1 ==> #[trigger] counts[i] <= #[trigger] counts[j],
            forall|l: int|
                0 <= l < max_level ==> (#[trigger] levels_mapping@[l])@ == cons.ids.take(
                    counts[max_level - l] as int,
                ),
            expected == unlinked_levels(cons, counts),
            i <= max_level,
            graphs@.len() == max_level - i,
            forall|c: int|
                0 <= c < graphs@.len() ==> {
                    &&& (#[trigger] graphs@[c]).wf()
                    &&& graphs@[c].model() == expected[c]
                    &&& graphs@[c].inserted() == 0
                },
        decreases i,
    {
        i -= 1;
        let mapping = &levels_mapping[i];
        let size: usize = mapping.len();
        let mut graph = GrowableGraph::with_max_degree(m);
        proof {
            assert(counts[max_level - i] <= counts[max_level as int + 1]);
            assert(size * m <= num_vectors * (2 * m)) by (nonlinear_arith)
                requires
                    0 <= size <= num_vectors,
                    0 <= m,
            ;
        }
        graph.reserve(size);
        let set = graph.set_mapping(copy_ids(mapping));
        assert(set is Ok);
        graphs.push(graph);
    }
    let mut ground = GrowableGraph::with_max_degree(2 * m);
    ground.reserve(num_vectors);
    graphs.push(ground);
    assert(models(graphs@) =~= expected);
    graphs
}

/// The graphs in the form `G`.
fn finish<G: FromGrowable>(graphs: Vec<GrowableGraph>) -> (levels: Vec<G>)
    requires
        forall|c: int| 0 <= c < graphs@.len() ==> (#[trigger] graphs@[c]).wf(),
    ensures
        levels@.len() == graphs@.len(),
        forall|c: int|
            0 <= c < levels@.len() ==> (#[trigger] levels@[c]).wf() && levels@[c].model()
                == graphs@[c].model(),
{
    let ghost all = graphs@;
    let mut rest = graphs;
    let mut levels: Vec<G> = Vec::new();
    while rest.len() > 0
        invariant
            all.len() == levels@.len() + rest@.len(),
            rest@ == all.skip(levels@.len() as int),
            forall|c: int| 0 <= c < all.len() ==> (#[trigger] all[c]).wf(),
            forall|c: int|
                0 <= c < levels@.len() ==> (#[trigger] levels@[c]).wf() && levels@[c].model()
                    == all[c].model(),
        decreases rest@.len(),
    {
        let ghost at = levels@.len() as int;
        assert(rest@[0] == all[at]);
        let graph = rest.remove(0);
        levels.push(G::from_growable(graph));
        assert(rest@ =~= all.skip(at + 1));
    }
    levels
}

impl<D: Dataset + Sync, G: FromGrowable> HNSW<D, G> {
    /// Builds the index of a dataset.
    ///
    /// The vectors are inserted in the order of the levels drawn for them, the highest level
    /// first: `all_ids[i]` is on all levels up to `drawn[i]`. Levels with many new vectors are
    /// processed in parallel batches, the others one vector after the other.
    pub fn build_index(
        dataset: D,
        build_params: &HNSWBuildConfiguration,
        all_ids: &[usize],
        drawn: &[u8],
    ) -> (index: HNSW<D, G>)
        requires
            buildable(dataset.n_vectors() as nat, *build_params, all_ids@, drawn@),
            dataset.n_vectors() * (2 * build_params.num_neighbors_per_vec) <= usize::MAX,
            2 * build_params.max_build_batch_size <= usize::MAX,
        ensures
            index.wf(),
            index.level_models() == built_levels(&dataset, *build_params, all_ids@, drawn@),
            forall|c: int|
                0 <= c <= highest(drawn@) ==> holds_level(
                    #[trigger] index.level_models()[c],
                    *build_params,
                    all_ids@,
                    drawn@,
                    highest(drawn@) - c,
                ),
            index.spec_dataset() == dataset,
            index.spec_entry_point() == 0,
            index.spec_num_neighbors() == build_params.num_neighbors_per_vec,
            index.spec_level_mapping() == upper_mapping(index.level_models()),
    {
        let num_vectors: usize = dataset.len();
        let m: usize = build_params.num_neighbors_per_vec;
        let ef: usize = build_params.ef_construction;
        let assignment = compute_levels(all_ids, drawn);
        let max_level: usize = assignment.max_level as usize;
        let ids = assignment.ids_sorted_by_level.as_slice();
        let ghost counts = level_counts(all_ids@, drawn@);
        let ghost cons = construction(&dataset, ids@, max_level as nat, m, ef);
        proof {
            law_every_vector_has_a_level(all_ids@, drawn@);
            lemma_counts(all_ids@, drawn@);
            assert forall|i: int| 0 <= i < max_level implies (
            #[trigger] assignment.levels_mapping@[i])@ == cons.ids.take(
                counts[max_level - i] as int,
            ) by {
                assert(counts[max_level - i] == from_level(all_ids@, drawn@, i + 1).len());
            }
        }
        let mut graphs = unlinked_graphs(
            &assignment.levels_mapping,
            num_vectors,
            max_level,
            m,
            Ghost(cons),
            Ghost(counts),
        );
        let ghost unlinked = graphs@;
        proof {
            assert forall|c: int| 0 <= c < max_level implies {
                &&& (#[trigger] graphs@[c]).model().ids is Some
                &&& graphs@[c].model().adj.len() > 0
            } by {
                assert(models(graphs@)[c] == graphs@[c].model());
                assert(cons.level_sound(models(graphs@)[c], c));
            }
            assert(models(graphs@)[max_level as int] == graphs@[max_level as int].model());
            assert(cons.level_sound(models(graphs@)[max_level as int], max_level as int));
        }
        insert_entry_point(&mut graphs, ids[0], max_level);
        proof {
            lemma_entry_point(cons, unlinked, graphs@);
        }
        let mut c: usize = 0;
        while c < max_level + 1
            invariant
                cons == construction(&dataset, ids@, max_level as nat, m, ef),
                cons.sound(),
                dataset.n_vectors() == ids@.len(),
                num_vectors == ids@.len(),
                max_level < 256,
                ids@ == assignment.ids_sorted_by_level@,
                m == build_params.num_neighbors_per_vec,
                ef == build_params.ef_construction,
                2 * build_params.max_build_batch_size <= usize::MAX,
                num_vectors > 1 ==> m >= 1 && ef >= 1,
                build_params.initial_build_batch_size >= 1 || forall|c: int|
                    0 <= c <= max_level ==> !#[trigger] runs_parallel(counts, *build_params, c),
                counts.len() == max_level + 2,
                counts[0] == 0,
                counts[1] > 0,
                counts[max_level as int + 1] == num_vectors,
                forall|i: int, j: int|
                    0 <= i <= j <= max_level + 1 ==> #[trigger] counts[i] <= #[trigger] counts[j],
                assignment.cumulative_ids_per_level@.len() == max_level + 2,
                forall|i: int|
                    0 <= i < max_level + 2
                        ==> #[trigger] assignment.cumulative_ids_per_level@[i] == counts[i],
                c <= max_level + 1,
                graphs_sound(cons, graphs@),
                same_sizes(models(graphs@), unlinked_levels(cons, counts)),
                c <= max_level ==> counted(
                    graphs@,
                    c as int,
                    first_position(counts, c as int) as usize,
                ),
                models(graphs@) == linked_levels(cons, counts, *build_params, c as nat),
            decreases max_level + 1 - c,
        {
            let level: usize = max_level - c;
            let count: usize = assignment.cumulative_ids_per_level[c];
            let start: usize = if count == 0 {
                1
            } else {
                count
            };
            let end: usize = assignment.cumulative_ids_per_level[c + 1];
            proof {
                assert(counts[c as int] <= counts[c + 1]);
                assert(counts[1] <= counts[c + 1]);
                assert(counts[c + 1] <= counts[max_level as int + 1]);
                assert(models(graphs@)[c as int].adj.len() == counts[c + 1]);
            }
            if start < end && end - start > 2 * build_params.max_build_batch_size {
                assert(runs_parallel(counts, *build_params, c as int));
                process_level_parallelly(
                    &mut graphs,
                    &dataset,
                    ids,
                    start,
                    end,
                    level,
                    max_level,
                    m,
                    ef,
                    build_params.initial_build_batch_size,
                    build_params.max_build_batch_size,
                );
            } else {
                assert(!runs_parallel(counts, *build_params, c as int));
                process_level_sequentially(
                    &mut graphs,
                    &dataset,
                    ids,
                    start,
                    end,
                    level,
                    max_level,
                    m,
                    ef,
                );
            }
            c += 1;
        }
        let ghost linked = models(graphs@);
        proof {
            lemma_sound_hierarchy(cons, linked);
            assert(cons.level_sound(linked[0], 0));
        }
        let level1_to_level0_mapping: Vec<usize> = if max_level > 0 {
            copy_ids(&assignment.levels_mapping[0])
        } else {
            Vec::new()
        };
        let levels: Vec<G> = finish(graphs);
        let index = HNSW {
            levels,
            level1_to_level0_mapping,
            dataset,
            num_neighbors_per_vec: m,
            entry_point: 0,
        };
        proof {
            assert(index.level_models() =~= linked);
            assert forall|c: int| 0 <= c <= max_level implies holds_level(
                #[trigger] index.level_models()[c],
                *build_params,
                all_ids@,
                drawn@,
                max_level - c,
            ) by {
                assert(cons.level_sound(linked[c], c));
                assert(linked[c].adj.len() == counts[c + 1]);
            }
            if max_level > 0 {
                let upper = linked[max_level - 1];
                assert(cons.level_sound(upper, max_level - 1));
                assert(upper.adj.len() == counts[max_level as int]);
                assert(index.level1_to_level0_mapping@ =~= globals(upper));
            }
        }
        index
    }
}

} // verus!
