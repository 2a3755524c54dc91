//! An index whose vectors are put in another order.
use crate::dataset::Dataset;
use crate::egb::{compute_egb_permutation, is_bisection, reorders, BisectionSettings, Document};
use crate::graph::remap::{
    law_reordering_keeps_links, remapped_ground, remapped_level, reordered, MAX_NODES,
};
use crate::graph::{Graph, GraphModel, GraphTrait};
use crate::hnsw::construction::same_sizes;
use crate::hnsw::hierarchy::{hierarchy_ok, level_ok, nested, nested_at, upper_mapping};
use crate::hnsw::HNSW;
use crate::permutation::{inverted, is_permutation, law_inverse_takes_back};
use crate::reorder::{
    globals, lemma_new_order, new_order, upper_level_order_preserving_hnsw_prefixes,
};
use vstd::prelude::*;

verus! {

/// The vectors of the level above level `i`, by their old ids, in the new order of that level.
pub open spec fn previous_globals(
    levels: Seq<GraphModel>,
    permutation: Seq<usize>,
    i: nat,
) -> Seq<usize>
    decreases i,
{
    if i == 0 {
        Seq::empty()
    } else {
        let above = levels[i - 1];
        new_order(
            above,
            permutation,
            previous_globals(levels, permutation, (i - 1) as nat),
        ).map_values(|id: usize| above.external(id))
    }
}

/// The old local ids of the upper level `i` in their new order.
pub open spec fn level_order(
    levels: Seq<GraphModel>,
    permutation: Seq<usize>,
    i: int,
) -> Seq<usize> {
    new_order(levels[i], permutation, previous_globals(levels, permutation, i as nat))
}

/// The levels after the vectors went to their places in `permutation`.
pub open spec fn remapped(levels: Seq<GraphModel>, permutation: Seq<usize>) -> Seq<GraphModel> {
    Seq::new(
        levels.len(),
        |i: int|
            if i == levels.len() - 1 {
                remapped_ground(levels[i], permutation)
            } else {
                remapped_level(levels[i], level_order(levels, permutation, i), permutation)
            },
    )
}

/// Where the entry point goes.
pub open spec fn remapped_entry(
    levels: Seq<GraphModel>,
    permutation: Seq<usize>,
    entry_point: usize,
) -> usize {
    if levels.len() == 1 {
        permutation[entry_point as int]
    } else {
        inverted(level_order(levels, permutation, 0))[entry_point as int]
    }
}

proof fn lemma_globals_distinct(level: GraphModel, n: nat)
    requires
        level_ok(level, n, false),
        level.adj.len() <= usize::MAX,
    ensures
        globals(level).no_duplicates(),
{
    let names = globals(level);
    assert forall|i: int, j: int| 0 <= i < names.len() && 0 <= j < names.len() && i
        != j implies names[i] != names[j] by {
        assert(names[i] == level.external(i as usize));
        assert(names[j] == level.external(j as usize));
    }
}

/// The new order of an upper level is a permutation of its nodes that starts with the level
/// above.
pub proof fn lemma_level_order(
    levels: Seq<GraphModel>,
    permutation: Seq<usize>,
    n: nat,
    i: int,
)
    requires
        hierarchy_ok(levels, n),
        n <= usize::MAX,
        0 <= i < levels.len() - 1,
    ensures
        ({
            let order = level_order(levels, permutation, i);
            let previous = previous_globals(levels, permutation, i as nat);
            &&& levels[i].adj.len() <= n
            &&& is_permutation(order)
            &&& order.len() == levels[i].adj.len()
            &&& forall|j: int|
                0 <= j < previous.len() ==> globals(levels[i]).contains(#[trigger] previous[j])
            &&& forall|j: int|
                0 <= j < previous.len() ==> levels[i].external(#[trigger] order[j]) == previous[j]
            &&& previous.len() <= order.len()
        }),
    decreases i,
{
    let level = levels[i];
    let previous = previous_globals(levels, permutation, i as nat);
    assert(level_ok(level, n, false));
    lemma_level_sizes(levels, n, i);
    lemma_globals_distinct(level, n);
    if i > 0 {
        let above = levels[i - 1];
        let order = level_order(levels, permutation, i - 1);
        lemma_level_order(levels, permutation, n, i - 1);
        assert(level_ok(above, n, false));
        assert(nested_at(levels, i - 1));
        assert forall|j: int| 0 <= j < previous.len() implies globals(level).contains(
            #[trigger] previous[j],
        ) by {
            assert(order[j] < above.adj.len());
            assert(above.external(order[j]) == level.external(order[j]));
            assert(globals(level)[order[j] as int] == previous[j]);
        }
        assert forall|a: int, b: int|
            0 <= a < previous.len() && 0 <= b < previous.len() && a != b implies previous[a]
            != previous[b] by {
            if a < b {
                assert(order[a] != order[b]);
            } else {
                assert(order[b] != order[a]);
            }
            assert(above.external(order[a]) != above.external(order[b]));
        }
    }
    lemma_new_order(level, permutation, previous);
}

/// No level has more nodes than there are vectors.
pub proof fn lemma_level_sizes(levels: Seq<GraphModel>, n: nat, i: int)
    requires
        hierarchy_ok(levels, n),
        0 <= i < levels.len(),
    ensures
        levels[i].adj.len() <= n,
    decreases levels.len() - i,
{
    assert(level_ok(levels[i], n, i == levels.len() - 1));
    if i < levels.len() - 1 {
        assert(nested_at(levels, i));
        lemma_level_sizes(levels, n, i + 1);
    }
}

proof fn lemma_remapped_level(
    levels: Seq<GraphModel>,
    permutation: Seq<usize>,
    n: nat,
    i: int,
)
    requires
        hierarchy_ok(levels, n),
        n <= usize::MAX,
        is_permutation(permutation),
        permutation.len() == n,
        0 <= i < levels.len(),
    ensures
        level_ok(remapped(levels, permutation)[i], n, i == levels.len() - 1),
        remapped(levels, permutation)[i].adj.len() == levels[i].adj.len(),
{
    let g = levels[i];
    let r = remapped(levels, permutation)[i];
    let last = levels.len() - 1;
    assert(level_ok(g, n, i == last));
    if i == last {
        law_inverse_takes_back(permutation);
        law_reordering_keeps_links(g.adj, inverted(permutation), permutation);
        assert forall|u: int| 0 <= u < r.adj.len() implies (#[trigger] r.adj[u]).len()
            <= r.max_degree by {
            assert(inverted(permutation)[u] < n);
            assert(g.adj[inverted(permutation)[u] as int].len() <= g.max_degree);
        }
    } else {
        let order = level_order(levels, permutation, i);
        lemma_level_order(levels, permutation, n, i);
        law_inverse_takes_back(order);
        law_reordering_keeps_links(g.adj, order, inverted(order));
        assert forall|u: int| 0 <= u < r.adj.len() implies (#[trigger] r.adj[u]).len()
            <= r.max_degree by {
            assert(order[u] < order.len());
            assert(g.adj[order[u] as int].len() <= g.max_degree);
        }
        assert forall|id: usize| id < r.adj.len() implies #[trigger] r.has_external(id)
            && r.external(id) < n && r.external(id) == permutation[g.external(
            order[id as int],
        ) as int] by {
            assert(order[id as int] < order.len());
            assert(g.has_external(order[id as int]));
        }
        assert forall|a: usize, b: usize|
            a < r.adj.len() && b < r.adj.len() && #[trigger] r.external(a)
                == #[trigger] r.external(b) implies a == b by {
            assert(r.has_external(a) && r.has_external(b));
            let x = order[a as int];
            let y = order[b as int];
            assert(g.has_external(x) && g.has_external(y));
            let ex = g.external(x);
            let ey = g.external(y);
            if ex < ey {
                assert(permutation[ex as int] != permutation[ey as int]);
            } else if ey < ex {
                assert(permutation[ey as int] != permutation[ex as int]);
            }
            assert(x == y);
            if a < b {
                assert(order[a as int] != order[b as int]);
            } else if b < a {
                assert(order[b as int] != order[a as int]);
            }
        }
    }
}

/// The levels of a reordered index make up a hierarchy again: the upper levels are still nested,
/// and each one keeps its size.
pub proof fn law_reordering_keeps_hierarchy(
    levels: Seq<GraphModel>,
    permutation: Seq<usize>,
    n: nat,
)
    requires
        hierarchy_ok(levels, n),
        n <= usize::MAX,
        is_permutation(permutation),
        permutation.len() == n,
    ensures
        hierarchy_ok(remapped(levels, permutation), n),
        forall|i: int|
            0 <= i < levels.len() ==> (#[trigger] remapped(levels, permutation)[i]).adj.len()
                == levels[i].adj.len(),
{
    let r = remapped(levels, permutation);
    let last = levels.len() - 1;
    assert forall|i: int| 0 <= i < levels.len() implies level_ok(#[trigger] r[i], n, i == last)
        && r[i].adj.len() == levels[i].adj.len() by {
        lemma_remapped_level(levels, permutation, n, i);
    }
    assert forall|i: int| 0 <= i < last implies #[trigger] nested_at(r, i) by {
        assert(nested_at(levels, i));
        assert(r[i].adj.len() == levels[i].adj.len());
        assert(r[i + 1].adj.len() == levels[i + 1].adj.len());
        if i + 1 < last {
            lemma_level_order(levels, permutation, n, i);
            lemma_level_order(levels, permutation, n, i + 1);
            let order = level_order(levels, permutation, i);
            let below = level_order(levels, permutation, i + 1);
            let previous = previous_globals(levels, permutation, (i + 1) as nat);
            assert forall|id: usize| id < r[i].adj.len() implies #[trigger] r[i].external(id)
                == r[i + 1].external(id) by {
                assert(previous[id as int] == levels[i].external(order[id as int]));
                assert(levels[i + 1].external(below[id as int]) == previous[id as int]);
            }
        }
    }
}

/// The dataset ids of the nodes `locals`.
fn externals<G: GraphTrait>(graph: &G, locals: &[usize]) -> (ids: Vec<usize>)
    requires
        graph.wf(),
        forall|j: int| 0 <= j < locals@.len() ==> graph.model().has_external(#[trigger] locals@[j]),
    ensures
        ids@ == locals@.map_values(|id: usize| graph.model().external(id)),
{
    let ghost wanted = locals@.map_values(|id: usize| graph.model().external(id));
    let mut ids: Vec<usize> = Vec::new();
    let mut j: usize = 0;
    while j < locals.len()
        invariant
            graph.wf(),
            forall|l: int|
                0 <= l < locals@.len() ==> graph.model().has_external(#[trigger] locals@[l]),
            wanted == locals@.map_values(|id: usize| graph.model().external(id)),
            j <= locals@.len(),
            ids@ == wanted.take(j as int),
        decreases locals@.len() - j,
    {
        assert(graph.model().has_external(locals@[j as int]));
        ids.push(graph.get_external_id(locals[j]));
        j += 1;
        assert(ids@ =~= wanted.take(j as int));
    }
    assert(wanted.take(j as int) =~= wanted);
    ids
}

/// The dataset ids of all nodes.
pub(crate) fn all_externals<G: GraphTrait>(graph: &G) -> (ids: Vec<usize>)
    requires
        graph.wf(),
    ensures
        ids@ == globals(graph.model()),
{
    let ghost wanted = globals(graph.model());
    let n: usize = graph.n_nodes();
    let mut ids: Vec<usize> = Vec::new();
    let mut id: usize = 0;
    proof {
        graph.lemma_valid();
    }
    while id < n
        invariant
            graph.wf(),
            graph.model().valid(),
            wanted == globals(graph.model()),
            n == graph.model().adj.len(),
            id <= n,
            ids@ == wanted.take(id as int),
        decreases n - id,
    {
        ids.push(graph.get_external_id(id));
        id += 1;
        assert(ids@ =~= wanted.take(id as int));
    }
    assert(wanted.take(id as int) =~= wanted);
    ids
}

impl<D: Dataset> HNSW<D, Graph> {
    /// The index with every vector at its place in `permutation` (old id to new id), and the
    /// inverse permutation.
    ///
    /// `make_dataset` gets the dataset and the permutation and returns the dataset in which
    /// vector `permutation[old_id]` is the old vector `old_id`.
    pub fn remap_with_permutation<F: FnOnce(&D, &[usize]) -> D>(
        &self,
        permutation: &[usize],
        make_dataset: F,
    ) -> (result: (HNSW<D, Graph>, Vec<usize>))
        requires
            self.wf(),
            self.spec_dataset().n_vectors() <= MAX_NODES,
            permutation@.len() == self.spec_dataset().n_vectors(),
            is_permutation(permutation@),
            make_dataset.requires((&self.spec_dataset(), permutation)),
        ensures
            result.0.level_models() == remapped(self.level_models(), permutation@),
            result.0.spec_entry_point() == remapped_entry(
                self.level_models(),
                permutation@,
                self.spec_entry_point(),
            ),
            result.0.spec_num_neighbors() == self.spec_num_neighbors(),
            result.0.spec_level_mapping() == upper_mapping(result.0.level_models()),
            same_sizes(result.0.level_models(), self.level_models()),
            result.0.levels_ok(),
            make_dataset.ensures(
                (&self.spec_dataset(), permutation),
                result.0.spec_dataset(),
            ),
            result.1@ == inverted(permutation@),
            result.0.spec_dataset().n_vectors() == self.spec_dataset().n_vectors()
                ==> result.0.wf(),
    {
        let ghost levels = self.level_models();
        let ghost n = self.dataset.n_vectors() as nat;
        let ghost expected = remapped(levels, permutation@);
        let last: usize = self.levels.len() - 1;
        let mut new_levels: Vec<Graph> = Vec::new();
        let mut level1_to_level0_mapping: Vec<usize> = Vec::new();
        let mut entry_point: usize = self.entry_point;
        let mut previous: Vec<usize> = Vec::new();
        let mut i: usize = 0;
        while i < last
            invariant
                self.wf(),
                levels == self.level_models(),
                n == self.dataset.n_vectors(),
                n <= MAX_NODES,
                hierarchy_ok(levels, n),
                is_permutation(permutation@),
                permutation@.len() == n,
                expected == remapped(levels, permutation@),
                last == self.levels@.len() - 1,
                levels.len() == self.levels@.len(),
                i <= last,
                previous@ == previous_globals(levels, permutation@, i as nat),
                new_levels@.len() == i,
                forall|j: int|
                    0 <= j < i ==> (#[trigger] new_levels@[j]).wf() && new_levels@[j].model()
                        == expected[j],
                i == 0 ==> entry_point == self.entry_point,
                i > 0 ==> entry_point == remapped_entry(levels, permutation@, self.entry_point),
                i == 0 ==> level1_to_level0_mapping@ == Seq::<usize>::empty(),
                i == last && last > 0 ==> level1_to_level0_mapping@ == globals(
                    expected[last - 1],
                ),
            decreases last - i,
        {
            let level = &self.levels[i];
            let ghost g = levels[i as int];
            proof {
                assert(level.model() == g);
                assert(level_ok(g, n, false));
                lemma_level_order(levels, permutation@, n, i as int);
                lemma_remapped_level(levels, permutation@, n, i as int);
                let wanted_order = level_order(levels, permutation@, i as int);
                assert forall|j: int| 0 <= j < wanted_order.len() implies g.has_external(
                    #[trigger] wanted_order[j],
                ) by {
                    assert(wanted_order[j] < wanted_order.len());
                }
            }
            let order = upper_level_order_preserving_hnsw_prefixes(
                level,
                permutation,
                previous.as_slice(),
            );
            let (remapped_graph, local_mapping) = level.remap_level_with_old_local_order(
                order.as_slice(),
                permutation,
            );
            previous = externals(level, order.as_slice());
            if i == 0 {
                entry_point = local_mapping[self.entry_point];
            }
            if i + 1 == last {
                level1_to_level0_mapping = all_externals(&remapped_graph);
            }
            new_levels.push(remapped_graph);
            i += 1;
        }
        proof {
            self.lemma_ground();
            lemma_remapped_level(levels, permutation@, n, last as int);
            law_reordering_keeps_hierarchy(levels, permutation@, n);
        }
        let (ground, ground_inverse) = self.levels[last].remap_ground_with_permutation(
            permutation,
        );
        new_levels.push(ground);
        if self.levels.len() == 1 {
            entry_point = permutation[self.entry_point];
        }
        let hnsw = HNSW {
            levels: new_levels,
            level1_to_level0_mapping,
            dataset: make_dataset(&self.dataset, permutation),
            num_neighbors_per_vec: self.num_neighbors_per_vec,
            entry_point,
        };
        proof {
            assert(hnsw.level_models() =~= expected);
            if levels.len() > 1 {
                let order = level_order(levels, permutation@, 0);
                lemma_level_order(levels, permutation@, n, 0);
                law_inverse_takes_back(order);
                assert(inverted(order)[self.entry_point as int] < order.len());
            } else {
                assert(permutation@[self.entry_point as int] < n);
            }
        }
        (hnsw, ground_inverse)
    }

    /// The index in the order that a recursive graph bisection of its ground level gives, and the
    /// inverse permutation (new id to old id), which translates search results back.
    ///
    /// Searches then touch memory with more locality. The upper levels stay nested.
    /// `make_dataset` is as in [`HNSW::remap_with_permutation`], and `bisect` as in
    /// [`compute_egb_permutation`].
    pub fn reorder_by_egb<
        F: FnOnce(&D, &[usize]) -> D,
        B: FnOnce(Vec<Document>, usize, BisectionSettings) -> Vec<usize>,
    >(&self, make_dataset: F, bisect: B) -> (result: (HNSW<D, Graph>, Vec<usize>))
        requires
            self.wf(),
            self.spec_dataset().n_vectors() <= MAX_NODES,
            reorders(self.ground().adj, bisect),
            forall|permutation: &[usize]|
                is_permutation(permutation@) && permutation@.len()
                    == self.spec_dataset().n_vectors() ==> #[trigger] make_dataset.requires(
                    (&self.spec_dataset(), permutation),
                ),
        ensures
            exists|permutation: &[usize]|
                {
                    &&& is_permutation(permutation@)
                    &&& permutation@.len() == self.spec_dataset().n_vectors()
                    &&& is_bisection(self.ground().adj, bisect, permutation@)
                    &&& result.0.level_models() == remapped(self.level_models(), permutation@)
                    &&& result.0.spec_entry_point() == remapped_entry(
                        self.level_models(),
                        permutation@,
                        self.spec_entry_point(),
                    )
                    &&& #[trigger] make_dataset.ensures(
                        (&self.spec_dataset(), permutation),
                        result.0.spec_dataset(),
                    )
                    &&& result.1@ == inverted(permutation@)
                },
            result.0.spec_num_neighbors() == self.spec_num_neighbors(),
            result.0.spec_level_mapping() == upper_mapping(result.0.level_models()),
            same_sizes(result.0.level_models(), self.level_models()),
            result.0.levels_ok(),
            result.0.spec_dataset().n_vectors() == self.spec_dataset().n_vectors()
                ==> result.0.wf(),
    {
        proof {
            self.lemma_ground();
        }
        let last: usize = self.levels.len() - 1;
        let permutation = compute_egb_permutation(&self.levels[last], bisect);
        let result = self.remap_with_permutation(permutation.as_slice(), make_dataset);
        result
    }
}

} // verus!
