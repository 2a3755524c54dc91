//! Hierarchical navigable small-world indexes.
pub mod acorn;
pub mod builder;
pub mod config;
pub mod construction;
pub mod hierarchy;
pub mod insertion_laws;
pub mod linkage;
pub mod parts;
pub mod remap;
pub mod schedule;
pub mod transparency;
pub mod way_down;

pub use crate::hnsw::config::{
    EarlyTerminationStrategy, HNSWBuildConfiguration, HNSWSearchConfiguration,
};

use crate::beam::{closed, start, start_filtered, SearchModel};
use crate::best_first::{
    ends_with, finds_nearest, law_graph_searches_are_best_first, neighbors_shown, two_hops_shown,
    well_behaved,
};
use crate::dataset::{Dataset, QueryEvaluator};
use crate::exhaustive::{holds, law_unfilled_beam_found_everything};
use crate::graph::{accepts, first, lemma_take_push, GraphModel, GraphTrait};
use crate::hnsw::hierarchy::{
    descent, ground_entry, hierarchy_ok, lemma_ground_entry, level_ok, nested_at, upper_mapping,
};
use crate::hnsw::way_down::{arrives_at, law_search_starts_where_the_way_down_ends};
use crate::scored::{in_order, ScoredItem};
use crate::soundness::{
    everything, law_search_is_sound, law_two_hop_search_is_sound, reachable, results_sound,
};
use crate::text::{append_decimal, decimal};
use vstd::prelude::*;
use vstd::string::*;

verus! {

/// A hierarchical navigable small-world index over a dataset.
///
/// It finds the approximate nearest neighbours of a query among the vectors of the dataset. `D`
/// is the type of the dataset, `G` the way the graphs are stored.
pub struct HNSW<D, G> {
    /// The levels, the highest and sparsest one first. The last one is the ground level and has
    /// all vectors.
    levels: Vec<G>,
    /// The dataset ids of the nodes of the level just above the ground level.
    level1_to_level0_mapping: Vec<usize>,
    dataset: D,
    /// The number of neighbours per vector, known as `M`.
    num_neighbors_per_vec: usize,
    /// The node of the highest level from which every search begins.
    entry_point: usize,
}

impl<D: Dataset, G: GraphTrait> HNSW<D, G> {
    /// The levels as they are stored, the highest one first.
    pub closed spec fn stored_levels(&self) -> Seq<G> {
        self.levels@
    }

    /// The levels, the highest one first.
    pub open spec fn level_models(&self) -> Seq<GraphModel> {
        Seq::new(self.stored_levels().len(), |i: int| self.stored_levels()[i].model())
    }

    pub closed spec fn spec_dataset(&self) -> D {
        self.dataset
    }

    pub closed spec fn spec_entry_point(&self) -> usize {
        self.entry_point
    }

    pub closed spec fn spec_num_neighbors(&self) -> usize {
        self.num_neighbors_per_vec
    }

    /// The dataset ids that are stored for the level just above the ground level.
    pub closed spec fn spec_level_mapping(&self) -> Seq<usize> {
        self.level1_to_level0_mapping@
    }

    /// Each stored level is consistent.
    pub open spec fn levels_ok(&self) -> bool {
        forall|i: int|
            0 <= i < self.stored_levels().len() ==> (#[trigger] self.stored_levels()[i]).wf()
    }

    /// The stored levels are consistent, and so is the mapping of the level above the ground level.
    pub open spec fn stored_ok(&self) -> bool {
        &&& self.levels_ok()
        &&& self.stored_levels().len() > 1 ==> self.spec_level_mapping() == upper_mapping(
            self.level_models(),
        )
    }

    /// The index is consistent.
    pub open spec fn wf(&self) -> bool {
        &&& self.stored_ok()
        &&& hierarchy_ok(self.level_models(), self.spec_dataset().n_vectors() as nat)
        &&& self.spec_entry_point() < self.level_models()[0].adj.len()
    }

    /// The number of the highest level, counted from the ground level.
    #[must_use]
    pub fn max_level(&self) -> (level: usize)
        ensures
            level == (if self.level_models().len() == 0 {
                0
            } else {
                self.level_models().len() - 1
            }),
    {
        if self.levels.len() == 0 {
            0
        } else {
            self.levels.len() - 1
        }
    }

    /// The number of nodes on each level, from the highest to the ground level.
    #[must_use]
    pub fn nodes_per_level(&self) -> (counts: Vec<usize>)
        requires
            self.levels_ok(),
        ensures
            counts@.len() == self.level_models().len(),
            forall|i: int|
                0 <= i < counts@.len() ==> #[trigger] counts@[i]
                    == self.level_models()[i].adj.len(),
    {
        let mut counts: Vec<usize> = Vec::new();
        let mut i: usize = 0;
        while i < self.levels.len()
            invariant
                self.levels_ok(),
                i <= self.levels@.len(),
                counts@.len() == i,
                forall|j: int|
                    0 <= j < i ==> #[trigger] counts@[j] == self.level_models()[j].adj.len(),
            decreases self.levels@.len() - i,
        {
            assert(self.stored_levels()[i as int].wf());
            counts.push(self.levels[i].n_nodes());
            i += 1;
        }
        counts
    }

    /// The number of indexed vectors.
    pub fn n_elements(&self) -> (n: usize)
        ensures
            n == self.spec_dataset().n_vectors(),
    {
        self.dataset.len()
    }

    /// The dimension of the indexed vectors.
    pub fn dim(&self) -> (dim: usize)
        ensures
            dim == self.spec_dataset().dimension(),
    {
        self.dataset.input_dim()
    }

    /// The bytes that the dataset and the levels take.
    pub fn space_usage_parts(&self) -> (parts: (usize, usize))
        requires
            self.wf(),
            self.spec_dataset().space_bytes() <= usize::MAX,
            total_bytes(self.stored_levels()) <= usize::MAX,
        ensures
            parts.0 == self.spec_dataset().space_bytes(),
            parts.1 == total_bytes(self.stored_levels()),
    {
        let mut bytes: usize = 0;
        let mut i: usize = 0;
        while i < self.levels.len()
            invariant
                self.wf(),
                total_bytes(self.levels@) <= usize::MAX,
                i <= self.levels@.len(),
                bytes == total_bytes(self.levels@.take(i as int)),
            decreases self.levels@.len() - i,
        {
            proof {
                lemma_take_push(self.levels@, i as int);
                lemma_total_bytes(self.levels@, i + 1);
            }
            bytes = bytes + self.levels[i].get_space_usage_bytes();
            i += 1;
        }
        assert(self.levels@.take(i as int) =~= self.levels@);
        (self.dataset.space_usage_bytes(), bytes)
    }

    /// The bytes that the dataset and all levels take together.
    pub fn space_usage_bytes(&self) -> (bytes: usize)
        requires
            self.wf(),
            self.spec_dataset().space_bytes() + total_bytes(self.stored_levels()) <= usize::MAX,
        ensures
            bytes == self.spec_dataset().space_bytes() + total_bytes(self.stored_levels()),
    {
        let (dataset_size, index_size) = self.space_usage_parts();
        dataset_size + index_size
    }

    /// One line that tells the bytes that the dataset, the levels and both together take.
    pub fn space_usage_message(&self) -> (message: String)
        requires
            self.wf(),
            self.spec_dataset().space_bytes() + total_bytes(self.stored_levels()) <= usize::MAX,
        ensures
            message@ == usage_message(
                self.spec_dataset().space_bytes() as nat,
                total_bytes(self.stored_levels()),
            ),
    {
        let (dataset_size, index_size) = self.space_usage_parts();
        let mut message = String::from_str("[######] Space usage: Dataset: ");
        append_decimal(&mut message, dataset_size);
        message.append(" bytes, Index: ");
        append_decimal(&mut message, index_size);
        message.append(" bytes, Total: ");
        append_decimal(&mut message, dataset_size + index_size);
        message.append(" bytes");
        message
    }

    /// An index over another dataset, with the same graphs as `hnsw`.
    ///
    /// Only the dataset is replaced. The new one must have the same vectors in the same order.
    pub fn convert_dataset_from<T: Dataset, C: FnOnce(T) -> D>(
        hnsw: HNSW<T, G>,
        convert: C,
    ) -> (index: HNSW<D, G>)
        requires
            convert.requires((hnsw.spec_dataset(),)),
        ensures
            convert.ensures((hnsw.spec_dataset(),), index.spec_dataset()),
            index.stored_levels() == hnsw.stored_levels(),
            index.level_models() == hnsw.level_models(),
            index.spec_entry_point() == hnsw.spec_entry_point(),
            index.spec_level_mapping() == hnsw.spec_level_mapping(),
            index.spec_num_neighbors() == hnsw.spec_num_neighbors(),
            hnsw.wf() && index.spec_dataset().n_vectors() == hnsw.spec_dataset().n_vectors()
                ==> index.wf(),
    {
        let index = HNSW {
            levels: hnsw.levels,
            level1_to_level0_mapping: hnsw.level1_to_level0_mapping,
            dataset: convert(hnsw.dataset),
            num_neighbors_per_vec: hnsw.num_neighbors_per_vec,
            entry_point: hnsw.entry_point,
        };
        assert(index.level_models() =~= hnsw.level_models());
        index
    }

    /// The same index over another dataset that is made of the present one.
    pub fn convert_dataset_into<T: Dataset, C: FnOnce(D) -> T>(self, convert: C) -> (index: HNSW<
        T,
        G,
    >)
        requires
            convert.requires((self.spec_dataset(),)),
        ensures
            convert.ensures((self.spec_dataset(),), index.spec_dataset()),
            index.stored_levels() == self.stored_levels(),
            index.level_models() == self.level_models(),
            index.spec_entry_point() == self.spec_entry_point(),
            index.spec_level_mapping() == self.spec_level_mapping(),
            index.spec_num_neighbors() == self.spec_num_neighbors(),
            self.wf() && index.spec_dataset().n_vectors() == self.spec_dataset().n_vectors()
                ==> index.wf(),
    {
        HNSW::<T, G>::convert_dataset_from(self, convert)
    }

    /// The same index over another dataset that is made from a view of the present one.
    pub fn convert_dataset_into_ref<T: Dataset, C: FnOnce(&D) -> T>(
        self,
        convert: C,
    ) -> (index: HNSW<T, G>)
        requires
            convert.requires((&self.spec_dataset(),)),
        ensures
            convert.ensures((&self.spec_dataset(),), index.spec_dataset()),
            index.stored_levels() == self.stored_levels(),
            index.level_models() == self.level_models(),
            index.spec_entry_point() == self.spec_entry_point(),
            index.spec_level_mapping() == self.spec_level_mapping(),
            index.spec_num_neighbors() == self.spec_num_neighbors(),
            self.wf() && index.spec_dataset().n_vectors() == self.spec_dataset().n_vectors()
                ==> index.wf(),
    {
        let dataset = convert(&self.dataset);
        let index = HNSW {
            levels: self.levels,
            level1_to_level0_mapping: self.level1_to_level0_mapping,
            dataset,
            num_neighbors_per_vec: self.num_neighbors_per_vec,
            entry_point: self.entry_point,
        };
        assert(index.level_models() =~= self.level_models());
        index
    }

    /// The entry point scored, then walked greedily down the upper levels: the item that the
    /// search of the ground level starts from.
    fn find_ground_entry<E: QueryEvaluator>(&self, evaluator: &E) -> (entry: ScoredItem)
        requires
            self.wf(),
            evaluator.n_known() == self.dataset.n_vectors(),
        ensures
            entry == ground_entry(
                self.level_models(),
                |id: usize| evaluator.distance_to(id),
                |distance: i64, worst: i64| E::within_relaxation(distance, worst, 0),
                self.entry_point,
            ),
            entry.vector < self.dataset.n_vectors(),
    {
        let ghost levels = self.level_models();
        let ghost n = self.dataset.n_vectors() as nat;
        let ghost distance = |id: usize| evaluator.distance_to(id);
        let ghost within = |distance: i64, worst: i64| E::within_relaxation(distance, worst, 0);
        let num_levels: usize = self.levels.len();
        let last: usize = num_levels - 1;
        proof {
            assert(level_ok(levels[0], n, 0 == last));
            assert(self.levels@[0].model() == levels[0]);
            assert(levels[0].has_external(self.entry_point));
        }
        let external: usize = self.levels[0].get_external_id(self.entry_point);
        let mut entry = ScoredItem {
            distance: evaluator.compute_distance(external),
            vector: self.entry_point,
        };
        let ghost entry0 = entry;
        let mut i: usize = 0;
        while i < last
            invariant
                self.wf(),
                levels == self.level_models(),
                n == self.dataset.n_vectors(),
                evaluator.n_known() == n,
                hierarchy_ok(levels, n),
                num_levels == self.levels@.len(),
                last == num_levels - 1,
                num_levels >= 1,
                distance == (|id: usize| evaluator.distance_to(id)),
                within == (|distance: i64, worst: i64|
                    E::within_relaxation(distance, worst, 0)),
                i <= last,
                entry.vector < levels[i as int].adj.len(),
                i > 0 ==> entry.vector < levels[i - 1].adj.len(),
                entry == descent(levels, distance, within, entry0, i as nat),
                i == 0 ==> entry == entry0,
            decreases last - i,
        {
            proof {
                assert(level_ok(levels[i as int], n, i == last));
                assert(self.levels@[i as int].model() == levels[i as int]);
                assert(nested_at(levels, i as int));
            }
            entry = self.levels[i].greedy_search_nearest(evaluator, entry);
            i += 1;
        }
        if num_levels > 1 {
            proof {
                assert(level_ok(levels[last - 1], n, false));
                assert(levels[last - 1].has_external(entry.vector));
            }
            ScoredItem {
                distance: entry.distance,
                vector: self.level1_to_level0_mapping[entry.vector],
            }
        } else {
            proof {
                assert(level_ok(levels[0], n, true));
            }
            entry
        }
    }

    /// The ground level.
    pub open spec fn ground(&self) -> GraphModel {
        self.level_models().last()
    }

    /// The distances from `query` to the vectors.
    pub open spec fn query_distances<'q>(&self, query: D::Query<'q>) -> spec_fn(usize) -> i64 {
        |id: usize| self.spec_dataset().query_distance(query, id)
    }

    /// The test that the relaxation `lambda` stands for.
    pub open spec fn relaxed(lambda: u32) -> spec_fn(i64, i64) -> bool {
        |distance: i64, worst: i64| D::within(distance, worst, lambda)
    }

    /// The item that the search for `query` on the ground level starts from.
    pub open spec fn ground_start<'q>(&self, query: D::Query<'q>) -> ScoredItem {
        ground_entry(
            self.level_models(),
            self.query_distances(query),
            Self::relaxed(0),
            self.spec_entry_point(),
        )
    }

    /// The search for the `k` nearest vectors to `query` on the graph `g`. The beam has room for
    /// `k` items in any case.
    pub open spec fn query_search<'q>(
        &self,
        g: GraphModel,
        query: D::Query<'q>,
        k: usize,
        search_params: &HNSWSearchConfiguration,
    ) -> SearchModel {
        g.search_by(
            self.query_distances(query),
            Self::relaxed(search_params.early_termination.relaxation()),
            if search_params.ef_search >= k {
                search_params.ef_search
            } else {
                k
            },
            k,
        )
    }

    /// A search with an adaptive strategy and the relaxation 0 is the search with the standard
    /// strategy.
    pub proof fn law_no_relaxation_is_standard<'q>(
        &self,
        g: GraphModel,
        query: D::Query<'q>,
        k: usize,
        ef_search: usize,
    )
        ensures
            self.query_search(
                g,
                query,
                k,
                &(HNSWSearchConfiguration {
                    ef_search,
                    early_termination: EarlyTerminationStrategy::DistanceAdaptive { lambda: 0 },
                }),
            ) == self.query_search(
                g,
                query,
                k,
                &(HNSWSearchConfiguration {
                    ef_search,
                    early_termination: EarlyTerminationStrategy::Standard,
                }),
            ),
    {
    }

    /// A search returns fewer than `k` results only if there are no more: every vector that can be
    /// reached on the ground level from where the search starts is then among them.
    pub proof fn law_missing_results_do_not_exist<'q>(
        &self,
        query: D::Query<'q>,
        k: usize,
        search_params: &HNSWSearchConfiguration,
        id: usize,
    )
        requires
            self.wf(),
            reachable(self.ground().adj, self.ground_start(query).vector, id),
        ensures
            ({
                let m = self.query_search(self.ground(), query, k, search_params);
                let results = first(
                    m.outcome(m.expansion(), start(self.ground_start(query))),
                    k as nat,
                );
                results.len() < k ==> holds(results, id)
            }),
    {
        self.lemma_ground();
        lemma_ground_entry(
            self.level_models(),
            self.dataset.n_vectors() as nat,
            self.query_distances(query),
            Self::relaxed(0),
            self.entry_point,
        );
        let m = self.query_search(self.ground(), query, k, search_params);
        let found = m.outcome(m.expansion(), start(self.ground_start(query)));
        if first(found, k as nat).len() < k {
            law_unfilled_beam_found_everything(m, self.ground_start(query), id);
        }
    }

    /// What holds of the results of every search: at most `k` different vectors that satisfy
    /// `good`, with their distances from `query`, nearest first.
    pub open spec fn results_of<'q>(
        &self,
        query: D::Query<'q>,
        k: nat,
        good: spec_fn(usize) -> bool,
        results: Seq<ScoredItem>,
    ) -> bool {
        &&& results.len() <= k
        &&& in_order(results)
        &&& forall|i: int|
            0 <= i < results.len() ==> {
                let x = #[trigger] results[i];
                &&& x.vector < self.spec_dataset().n_vectors()
                &&& x.distance == self.spec_dataset().query_distance(query, x.vector)
                &&& good(x.vector)
            }
        &&& forall|i: int, j: int|
            0 <= i < j < results.len() ==> (#[trigger] results[i]).vector != (
            #[trigger] results[j]).vector
    }

    proof fn lemma_results<'q>(
        &self,
        g: GraphModel,
        query: D::Query<'q>,
        k: usize,
        search_params: &HNSWSearchConfiguration,
        good: spec_fn(usize) -> bool,
        found: Seq<ScoredItem>,
    )
        requires
            self.wf(),
            g.ids is None,
            g.adj.len() == self.dataset.n_vectors(),
            results_sound(
                self.query_search(g, query, k, search_params),
                self.ground_start(query),
                good,
                found,
            ),
        ensures
            self.results_of(query, k as nat, good, first(found, k as nat)),
    {
        lemma_ground_entry(
            self.level_models(),
            self.dataset.n_vectors() as nat,
            self.query_distances(query),
            Self::relaxed(0),
            self.entry_point,
        );
        let results = first(found, k as nat);
        assert forall|i: int| 0 <= i < results.len() implies {
            let x = #[trigger] results[i];
            &&& x.vector < self.spec_dataset().n_vectors()
            &&& x.distance == self.spec_dataset().query_distance(query, x.vector)
            &&& good(x.vector)
        } by {
            assert(results[i] == found[i]);
        }
    }

    /// The three searches of a graph over the vectors of the index go best-first from where the way
    /// down ends. The beam has room for `ef_search` vectors, or `k` if that is more, and whether a
    /// vector stands up to the worst one found is decided by the relaxation of the configuration:
    /// that of the adaptive strategy, and none with the standard one.
    pub proof fn law_index_searches_are_best_first<'q>(
        &self,
        g: GraphModel,
        query: D::Query<'q>,
        k: usize,
        search_params: &HNSWSearchConfiguration,
        pass: spec_fn(usize) -> bool,
    )
        requires
            self.wf(),
            closed(g.adj),
            g.ids is None,
            g.adj.len() == self.spec_dataset().n_vectors(),
        ensures
            arrives_at(
                self.level_models(),
                |id: usize| self.spec_dataset().query_distance(query, id),
                self.spec_entry_point(),
                self.ground_start(query).vector,
            ),
            ({
                let lambda: u32 = match search_params.early_termination {
                    EarlyTerminationStrategy::Standard => 0,
                    EarlyTerminationStrategy::DistanceAdaptive { lambda } => lambda,
                };
                let size: usize = if search_params.ef_search >= k {
                    search_params.ef_search
                } else {
                    k
                };
                let distance = |id: usize| self.spec_dataset().query_distance(query, id);
                let within = |d: i64, w: i64| D::within(d, w, lambda);
                let m = self.query_search(g, query, k, search_params);
                let entry = self.ground_start(query);
                size > 0 && well_behaved(distance, within, g.adj.len()) ==> {
                    &&& ends_with(
                        neighbors_shown(g.adj),
                        distance,
                        within,
                        size as nat,
                        everything(),
                        entry.vector,
                        m.outcome(m.expansion(), start(entry)),
                    )
                    &&& ends_with(
                        neighbors_shown(g.adj),
                        distance,
                        within,
                        size as nat,
                        pass,
                        entry.vector,
                        m.outcome(m.passing_expansion(pass), start_filtered(entry, pass)),
                    )
                    &&& ends_with(
                        two_hops_shown(g.adj, pass),
                        distance,
                        within,
                        size as nat,
                        pass,
                        entry.vector,
                        m.outcome(m.two_hop_expansion(pass), start_filtered(entry, pass)),
                    )
                }
            }),
    {
        let lambda: u32 = match search_params.early_termination {
            EarlyTerminationStrategy::Standard => 0,
            EarlyTerminationStrategy::DistanceAdaptive { lambda } => lambda,
        };
        let size: usize = if search_params.ef_search >= k {
            search_params.ef_search
        } else {
            k
        };
        let distance = |id: usize| self.spec_dataset().query_distance(query, id);
        let within = |d: i64, w: i64| D::within(d, w, lambda);
        let entry = self.ground_start(query);
        lemma_ground_entry(
            self.level_models(),
            self.dataset.n_vectors() as nat,
            self.query_distances(query),
            Self::relaxed(0),
            self.entry_point,
        );
        law_search_starts_where_the_way_down_ends(
            self.level_models(),
            self.dataset.n_vectors() as nat,
            self.query_distances(query),
            Self::relaxed(0),
            self.entry_point,
        );
        assert((|id: usize| distance(g.external(id))) =~= distance);
        assert(self.query_distances(query) =~= distance);
        assert(Self::relaxed(search_params.early_termination.relaxation()) =~= within);
        if size > 0 && well_behaved(distance, within, g.adj.len()) {
            law_graph_searches_are_best_first(g, distance, within, size, k, entry, pass);
        }
    }

    /// The `k` approximate nearest vectors to `query`, nearest first.
    pub fn search<'q>(
        &'q self,
        query: D::Query<'q>,
        k: usize,
        search_params: &HNSWSearchConfiguration,
    ) -> (results: Vec<ScoredItem>)
        requires
            self.wf(),
            self.spec_dataset().fits(query),
        ensures
            results@ == ({
                let m = self.query_search(self.ground(), query, k, search_params);
                first(m.outcome(m.expansion(), start(self.ground_start(query))), k as nat)
            }),
            self.results_of(query, k as nat, everything(), results@),
            k > 0 ==> results@.len() > 0,
            arrives_at(
                self.level_models(),
                |id: usize| self.spec_dataset().query_distance(query, id),
                self.spec_entry_point(),
                self.ground_start(query).vector,
            ),
            ({
                let lambda: u32 = match search_params.early_termination {
                    EarlyTerminationStrategy::Standard => 0,
                    EarlyTerminationStrategy::DistanceAdaptive { lambda } => lambda,
                };
                let size: usize = if search_params.ef_search >= k {
                    search_params.ef_search
                } else {
                    k
                };
                let distance = |id: usize| self.spec_dataset().query_distance(query, id);
                let within = |d: i64, w: i64| D::within(d, w, lambda);
                size > 0 && well_behaved(
                    distance,
                    within,
                    self.spec_dataset().n_vectors() as nat,
                ) ==> finds_nearest(
                    neighbors_shown(self.ground().adj),
                    distance,
                    within,
                    size as nat,
                    everything(),
                    self.ground_start(query).vector,
                    k as nat,
                    results@,
                )
            }),
    {
        let evaluator = self.dataset.query_evaluator(query);
        let entry = self.find_ground_entry(&evaluator);
        let last: usize = self.levels.len() - 1;
        let ef: usize = if search_params.ef_search >= k {
            search_params.ef_search
        } else {
            k
        };
        let lambda: u32 = search_params.early_termination.lambda();
        proof {
            self.lemma_ground();
            lemma_search_eq::<D, D::Evaluator<'q>>(
                self.level_models(),
                self.ground(),
                &evaluator,
                self.query_distances(query),
                ef,
                k,
                lambda,
                self.entry_point,
            );
        }
        proof {
            let m = self.query_search(self.ground(), query, k, search_params);
            law_search_is_sound(m, entry);
            self.law_index_searches_are_best_first(
                self.ground(),
                query,
                k,
                search_params,
                everything(),
            );
            self.lemma_results(
                self.ground(),
                query,
                k,
                search_params,
                everything(),
                m.outcome(m.expansion(), start(entry)),
            );
        }
        self.levels[last].greedy_search_topk(&evaluator, entry, k, ef, lambda)
    }

    /// The `k` approximate nearest vectors to `query` that the predicate accepts, nearest first.
    ///
    /// The predicate is asked about dataset ids while the graph is traversed: nodes that fail are
    /// not returned, and their neighbours are inspected in their place.
    pub fn search_filtered<'q, F: Fn(usize) -> bool>(
        &'q self,
        query: D::Query<'q>,
        k: usize,
        search_params: &HNSWSearchConfiguration,
        predicate: F,
    ) -> (results: Vec<ScoredItem>)
        requires
            self.wf(),
            self.spec_dataset().fits(query),
            self.ground().decided_by(predicate),
        ensures
            results@ == ({
                let m = self.query_search(self.ground(), query, k, search_params);
                let pass = self.ground().passing(predicate);
                first(
                    m.outcome(
                        m.two_hop_expansion(pass),
                        start_filtered(self.ground_start(query), pass),
                    ),
                    k as nat,
                )
            }),
            forall|pass: spec_fn(usize) -> bool| #[trigger]
                self.ground().decided_as(predicate, pass) ==> results@ == ({
                    let m = self.query_search(self.ground(), query, k, search_params);
                    first(
                        m.outcome(
                            m.two_hop_expansion(pass),
                            start_filtered(self.ground_start(query), pass),
                        ),
                        k as nat,
                    )
                }),
            self.results_of(query, k as nat, |id: usize| accepts(predicate, id), results@),
            arrives_at(
                self.level_models(),
                |id: usize| self.spec_dataset().query_distance(query, id),
                self.spec_entry_point(),
                self.ground_start(query).vector,
            ),
            ({
                let lambda: u32 = match search_params.early_termination {
                    EarlyTerminationStrategy::Standard => 0,
                    EarlyTerminationStrategy::DistanceAdaptive { lambda } => lambda,
                };
                let size: usize = if search_params.ef_search >= k {
                    search_params.ef_search
                } else {
                    k
                };
                let distance = |id: usize| self.spec_dataset().query_distance(query, id);
                let within = |d: i64, w: i64| D::within(d, w, lambda);
                size > 0 && well_behaved(
                    distance,
                    within,
                    self.spec_dataset().n_vectors() as nat,
                ) ==> forall|pass: spec_fn(usize) -> bool| #[trigger]
                    self.ground().decided_as(predicate, pass) ==> finds_nearest(
                        two_hops_shown(self.ground().adj, pass),
                        distance,
                        within,
                        size as nat,
                        pass,
                        self.ground_start(query).vector,
                        k as nat,
                        results@,
                    )
            }),
    {
        let evaluator = self.dataset.query_evaluator(query);
        let entry = self.find_ground_entry(&evaluator);
        let last: usize = self.levels.len() - 1;
        let ef: usize = if search_params.ef_search >= k {
            search_params.ef_search
        } else {
            k
        };
        let lambda: u32 = search_params.early_termination.lambda();
        proof {
            self.lemma_ground();
            lemma_search_eq::<D, D::Evaluator<'q>>(
                self.level_models(),
                self.ground(),
                &evaluator,
                self.query_distances(query),
                ef,
                k,
                lambda,
                self.entry_point,
            );
        }
        proof {
            let m = self.query_search(self.ground(), query, k, search_params);
            let pass = self.ground().passing(predicate);
            law_two_hop_search_is_sound(m, entry, pass);
            self.law_index_searches_are_best_first(self.ground(), query, k, search_params, pass);
            self.lemma_results(
                self.ground(),
                query,
                k,
                search_params,
                pass,
                m.outcome(m.two_hop_expansion(pass), start_filtered(entry, pass)),
            );
        }
        let top_candidates = self.levels[last].acorn_search_candidates_filtered(
            &evaluator,
            entry,
            ef,
            k,
            lambda,
            &predicate,
        );
        let mut results = top_candidates.into_sorted_vec();
        results.truncate(k);
        proof {
            let size: usize = ef;
            let distance = |id: usize| self.spec_dataset().query_distance(query, id);
            let within = |d: i64, w: i64| D::within(d, w, lambda);
            let start_node = self.ground_start(query).vector;
            if size > 0 && well_behaved(
                distance,
                within,
                self.spec_dataset().n_vectors() as nat,
            ) {
                assert forall|pass: spec_fn(usize) -> bool| #[trigger]
                    self.ground().decided_as(predicate, pass) implies finds_nearest(
                    two_hops_shown(self.ground().adj, pass),
                    distance,
                    within,
                    size as nat,
                    pass,
                    start_node,
                    k as nat,
                    results@,
                ) by {
                    self.law_index_searches_are_best_first(
                        self.ground(),
                        query,
                        k,
                        search_params,
                        pass,
                    );
                    let m = self.query_search(self.ground(), query, k, search_params);
                    let found = m.outcome(
                        m.two_hop_expansion(pass),
                        start_filtered(self.ground_start(query), pass),
                    );
                    assert(ends_with(
                        two_hops_shown(self.ground().adj, pass),
                        distance,
                        within,
                        size as nat,
                        pass,
                        start_node,
                        found,
                    ));
                    assert(results@ == first(found, k as nat));
                }
            }
        }
        results
    }

    proof fn lemma_ground(&self)
        requires
            self.wf(),
        ensures
            self.levels@.len() > 0,
            self.levels@.last().wf(),
            self.levels@.last().model() == self.ground(),
            closed(self.ground().adj),
            self.ground().ids is None,
            self.ground().adj.len() == self.dataset.n_vectors(),
    {
        assert(level_ok(
            self.level_models()[self.levels@.len() - 1],
            self.dataset.n_vectors() as nat,
            true,
        ));
    }
}

/// The bytes that several graphs take together.
pub open spec fn total_bytes<G: GraphTrait>(levels: Seq<G>) -> nat
    decreases levels.len(),
{
    if levels.len() == 0 {
        0
    } else {
        total_bytes(levels.drop_last()) + levels.last().space_bytes()
    }
}

/// What is said of the bytes that an index takes.
pub open spec fn usage_message(dataset: nat, index: nat) -> Seq<char> {
    "[######] Space usage: Dataset: "@ + decimal(dataset) + " bytes, Index: "@ + decimal(index)
        + " bytes, Total: "@ + decimal(dataset + index) + " bytes"@
}

proof fn lemma_total_bytes<G: GraphTrait>(levels: Seq<G>, i: int)
    requires
        0 <= i <= levels.len(),
    ensures
        total_bytes(levels.take(i)) <= total_bytes(levels),
    decreases levels.len() - i,
{
    if i < levels.len() {
        lemma_take_push(levels, i);
        lemma_total_bytes(levels, i + 1);
    } else {
        assert(levels.take(i) =~= levels);
    }
}

/// The search that an evaluator defines is the one of its distances.
pub(crate) proof fn lemma_search_eq<D: Dataset, E: QueryEvaluator>(
    levels: Seq<GraphModel>,
    g: GraphModel,
    evaluator: &E,
    distance: spec_fn(usize) -> i64,
    ef: usize,
    k: usize,
    lambda: u32,
    entry_point: usize,
)
    requires
        forall|id: usize| #[trigger] evaluator.distance_to(id) == distance(id),
        forall|d: i64, worst: i64, l: u32| #[trigger]
            E::within_relaxation(d, worst, l) == D::within(d, worst, l),
    ensures
        g.search(evaluator, ef, k, lambda) == g.search_by(
            distance,
            |d: i64, worst: i64| D::within(d, worst, lambda),
            ef,
            k,
        ),
        ground_entry(
            levels,
            |id: usize| evaluator.distance_to(id),
            |d: i64, worst: i64| E::within_relaxation(d, worst, 0),
            entry_point,
        ) == ground_entry(
            levels,
            distance,
            |d: i64, worst: i64| D::within(d, worst, 0),
            entry_point,
        ),
{
    assert((|id: usize| evaluator.distance_to(id)) =~= distance);
    assert((|d: i64, worst: i64| E::within_relaxation(d, worst, lambda)) =~= (|
        d: i64,
        worst: i64,
    | D::within(d, worst, lambda)));
    assert((|d: i64, worst: i64| E::within_relaxation(d, worst, 0)) =~= (|d: i64, worst: i64|
        D::within(d, worst, 0)));
}

} // verus!
