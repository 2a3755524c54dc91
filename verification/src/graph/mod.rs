//! The common interface of proximity graphs and the searches that run on it.
pub mod compact;
pub mod fixed;
pub mod growable;
pub mod insertion;
pub mod remap;
pub mod selection;
pub mod slots;
pub mod table;

pub use crate::graph::compact::Graph;
pub use crate::graph::fixed::GraphFixedDegree;
pub use crate::graph::growable::GrowableGraph;

use crate::beam::{
    beam_ok, closed, fresh, lemma_descend, lemma_filter_push, lemma_fresh, lemma_offer_admitted_ok,
    lemma_offer_all_ok, lemma_outcome, lemma_scan_around_ok, lemma_scan_ok, lemma_visited_bound,
    max, start, start_filtered, work_left, Beam, SearchModel,
};
use crate::dataset::QueryEvaluator;
use crate::hnsw::way_down::{law_greedy_walk_goes_to_nearest_neighbors, walks_through};
use crate::locality::{lemma_skipping_outcome, lemma_two_hop_outcome};
use crate::scored::{in_order, Frontier, ScoredItem, TopList};
use crate::soundness::{law_skipping_search_is_sound, law_two_hop_search_is_sound};
use std::collections::HashSet;
use vstd::prelude::*;

verus! {

broadcast use vstd::std_specs::hash::group_hash_axioms;

/// The number of links in all adjacency lists together.
pub open spec fn n_links(adj: Seq<Seq<usize>>) -> nat
    decreases adj.len(),
{
    if adj.len() == 0 {
        0
    } else {
        n_links(adj.drop_last()) + adj.last().len()
    }
}

/// The first `k` items of `s`, or all of them if there are fewer.
pub open spec fn first<T>(s: Seq<T>, k: nat) -> Seq<T> {
    if k <= s.len() {
        s.take(k as int)
    } else {
        s
    }
}

/// The predicate says yes to a dataset id.
pub open spec fn accepts<F: Fn(usize) -> bool>(predicate: F, id: usize) -> bool {
    predicate.ensures((id,), true)
}

/// The predicate can be asked about a dataset id, and always gives the same answer.
pub open spec fn decides<F: Fn(usize) -> bool>(predicate: F, id: usize) -> bool {
    predicate.requires((id,)) && !(accepts(predicate, id) && predicate.ensures((id,), false))
}

/// The predicate says nothing but `answer` to a dataset id.
pub open spec fn says<F: Fn(usize) -> bool>(predicate: F, id: usize, answer: bool) -> bool {
    !predicate.ensures((id,), !answer)
}

/// The predicate has given an answer to a dataset id.
pub open spec fn answered<F: Fn(usize) -> bool>(predicate: F, id: usize) -> bool {
    predicate.ensures((id,), true) || predicate.ensures((id,), false)
}

/// What a graph is, whatever way it is stored.
#[verifier::ext_equal]
pub struct GraphModel {
    /// The adjacency lists, one per node.
    pub adj: Seq<Seq<usize>>,
    /// The dataset ids of the nodes; without them a node goes by its own id.
    pub ids: Option<Seq<usize>>,
    /// The bound on the length of an adjacency list.
    pub max_degree: usize,
}

impl GraphModel {
    /// The dataset id of a node.
    pub open spec fn external(self, id: usize) -> usize {
        match self.ids {
            Some(ids) => ids[id as int],
            None => id,
        }
    }

    /// The lists keep the degree bound, and every node has a dataset id.
    pub open spec fn valid(self) -> bool {
        &&& forall|u: int|
            0 <= u < self.adj.len() ==> (#[trigger] self.adj[u]).len() <= self.max_degree
        &&& self.ids matches Some(ids) ==> ids.len() == self.adj.len()
    }

    /// The dataset id of `id` is defined.
    pub open spec fn has_external(self, id: usize) -> bool {
        self.ids matches Some(ids) ==> id < ids.len()
    }

    /// Every node has a dataset id below `bound`.
    pub open spec fn ids_below(self, bound: nat) -> bool {
        forall|id: usize|
            id < self.adj.len() ==> #[trigger] self.has_external(id) && self.external(id) < bound
    }

    /// The predicate can be asked about every node, and always gives the same answer.
    pub open spec fn decided_by<F: Fn(usize) -> bool>(self, predicate: F) -> bool {
        forall|id: usize|
            id < self.adj.len() ==> #[trigger] decides(predicate, self.external(id))
    }

    /// The nodes whose dataset ids the predicate accepts.
    pub open spec fn passing<F: Fn(usize) -> bool>(self, predicate: F) -> spec_fn(usize) -> bool {
        |id: usize| accepts(predicate, self.external(id))
    }

    /// The predicate says of every node what `pass` says.
    pub open spec fn decided_as<F: Fn(usize) -> bool>(
        self,
        predicate: F,
        pass: spec_fn(usize) -> bool,
    ) -> bool {
        forall|id: usize|
            id < self.adj.len() ==> #[trigger] says(predicate, self.external(id), pass(id))
    }

    /// The search on the graph that goes by the distances of the dataset ids.
    pub open spec fn search_by(
        self,
        distance: spec_fn(usize) -> i64,
        within: spec_fn(i64, i64) -> bool,
        ef: usize,
        k: usize,
    ) -> SearchModel {
        SearchModel {
            adj: self.adj,
            score: |id: usize| distance(self.external(id)),
            within,
            ef: ef as nat,
            k: k as nat,
        }
    }

    /// The search that `evaluator` defines on the graph.
    pub open spec fn search<E: QueryEvaluator>(
        self,
        evaluator: &E,
        ef: usize,
        k: usize,
        lambda: u32,
    ) -> SearchModel {
        self.search_by(
            |id: usize| evaluator.distance_to(id),
            |distance: i64, worst: i64| E::within_relaxation(distance, worst, lambda),
            ef,
            k,
        )
    }
}

/// Offers `x` to the beam: it joins the best items and the frontier while there is room or if
/// it stands up to the worst item, and the worst item leaves an over-full beam.
fn offer_item<E: QueryEvaluator>(
    top_candidates: &mut TopList,
    candidates: &mut Frontier,
    x: ScoredItem,
    ef: usize,
    lambda: u32,
    Ghost(m): Ghost<SearchModel>,
    Ghost(visited): Ghost<Set<usize>>,
)
    requires
        in_order(old(top_candidates)@),
        in_order(old(candidates)@),
        m.ef == ef,
        forall|a: i64, b: i64| (m.within)(a, b) == E::within_relaxation(a, b, lambda),
    ensures
        (Beam { top: final(top_candidates)@, frontier: final(candidates)@, visited }) == m.offer(
            (Beam { top: old(top_candidates)@, frontier: old(candidates)@, visited }),
            x,
        ),
        in_order(final(top_candidates)@),
        in_order(final(candidates)@),
{
    let should_add = if top_candidates.len() < ef {
        true
    } else {
        match top_candidates.peek() {
            Some(worst) => E::is_within_relaxation(x.distance, worst.distance, lambda),
            None => false,
        }
    };
    if should_add {
        candidates.push(x);
        top_candidates.push(x);
    }
    if top_candidates.len() > ef {
        top_candidates.pop();
    }
}

/// A proximity graph: nodes `0..n`, each with a list of neighbours, and the ids that the nodes
/// have in the dataset.
pub trait GraphTrait: Sized {
    /// The representation is consistent.
    spec fn wf(&self) -> bool;

    /// The graph that is represented.
    spec fn model(&self) -> GraphModel;

    /// The bytes that the representation takes.
    spec fn space_bytes(&self) -> nat;

    proof fn lemma_valid(&self)
        requires
            self.wf(),
        ensures
            self.model().valid(),
    ;

    /// The local ids of the neighbours of node `u`.
    fn neighbors(&self, u: usize) -> (nbrs: Vec<usize>)
        requires
            self.wf(),
            u < self.model().adj.len(),
        ensures
            nbrs@ == self.model().adj[u as int],
    ;

    /// The number of nodes in the graph.
    fn n_nodes(&self) -> (n: usize)
        requires
            self.wf(),
        ensures
            n == self.model().adj.len(),
    ;

    /// Whether the graph has no node.
    fn is_empty(&self) -> (empty: bool)
        requires
            self.wf(),
        ensures
            empty == (self.model().adj.len() == 0),
    {
        self.n_nodes() == 0
    }

    /// The number of edges in the graph.
    fn n_edges(&self) -> (n: usize)
        requires
            self.wf(),
            n_links(self.model().adj) <= usize::MAX,
        ensures
            n == n_links(self.model().adj),
    ;

    /// The bound on the degree of a node.
    fn max_degree(&self) -> (degree: usize)
        requires
            self.wf(),
        ensures
            degree == self.model().max_degree,
    ;

    /// The dataset id of a node; the local id itself where the graph has no mapping.
    fn get_external_id(&self, id: usize) -> (external: usize)
        requires
            self.wf(),
            self.model().has_external(id),
        ensures
            external == self.model().external(id),
    ;

    /// The bytes that the graph structure takes.
    fn get_space_usage_bytes(&self) -> (bytes: usize)
        requires
            self.wf(),
            self.space_bytes() <= usize::MAX,
        ensures
            bytes == self.space_bytes(),
    ;

    /// Walks greedily from `entry_point` to ever nearer neighbours, as far as it leads.
    fn greedy_search_nearest<E: QueryEvaluator>(
        &self,
        evaluator: &E,
        entry_point: ScoredItem,
    ) -> (nearest: ScoredItem)
        requires
            self.wf(),
            closed(self.model().adj),
            self.model().ids_below(evaluator.n_known() as nat),
            entry_point.vector < self.model().adj.len(),
        ensures
            nearest == self.model().search(evaluator, 0, 0, 0).descend(entry_point),
            nearest.vector < self.model().adj.len(),
            entry_point.distance == evaluator.distance_to(self.model().external(entry_point.vector))
                ==> {
                &&& walks_through(
                    self.model(),
                    |id: usize| evaluator.distance_to(id),
                    entry_point.vector,
                    nearest.vector,
                )
                &&& nearest.distance == evaluator.distance_to(
                    self.model().external(nearest.vector),
                )
            },
    {
        let ghost g = self.model();
        let ghost m = g.search(evaluator, 0, 0, 0);
        let mut nearest = entry_point;
        let mut updated = true;
        let ghost mut hops: nat = 0;
        while updated
            invariant
                self.wf(),
                g == self.model(),
                closed(g.adj),
                g.ids_below(evaluator.n_known() as nat),
                m == g.search(evaluator, 0, 0, 0),
                nearest.vector < g.adj.len(),
                nearest == m.walk(entry_point, hops),
                !updated ==> m.settled(nearest),
            decreases
                    nearest.distance - i64::MIN,
                    (if updated {
                        1int
                    } else {
                        0int
                    }),
        {
            updated = false;
            let ghost from = nearest;
            let nbrs = self.neighbors(nearest.vector);
            let mut i: usize = 0;
            while i < nbrs.len()
                invariant
                    self.wf(),
                    g == self.model(),
                    closed(g.adj),
                    g.ids_below(evaluator.n_known() as nat),
                    m == g.search(evaluator, 0, 0, 0),
                    from.vector < g.adj.len(),
                    nbrs@ == g.adj[from.vector as int],
                    nearest.vector < g.adj.len(),
                    i <= nbrs@.len(),
                    nearest == m.nearest_of(from, nbrs@.take(i as int)),
                    !updated ==> nearest == from,
                    updated ==> nearest.distance < from.distance,
                decreases nbrs@.len() - i,
            {
                let neighbor = nbrs[i];
                assert(neighbor < g.adj.len());
                assert(g.has_external(neighbor));
                let distance = evaluator.compute_distance(self.get_external_id(neighbor));
                proof {
                    lemma_take_push(nbrs@, i as int);
                }
                if distance < nearest.distance {
                    nearest = ScoredItem { distance, vector: neighbor };
                    updated = true;
                }
                i += 1;
            }
            proof {
                assert(nbrs@.take(nbrs@.len() as int) =~= nbrs@);
                hops = hops + 1;
            }
        }
        proof {
            lemma_descend(m, entry_point, hops);
            if entry_point.distance == evaluator.distance_to(g.external(entry_point.vector)) {
                let distance = |id: usize| evaluator.distance_to(id);
                assert(m.score =~= (|id: usize| distance(g.external(id))));
                law_greedy_walk_goes_to_nearest_neighbors(m, entry_point);
            }
        }
        nearest
    }

    /// The `k` nearest items of a beam search of size `ef`, nearest first.
    fn greedy_search_topk<E: QueryEvaluator>(
        &self,
        evaluator: &E,
        starting_node: ScoredItem,
        k: usize,
        ef: usize,
        lambda: u32,
    ) -> (top_k: Vec<ScoredItem>)
        requires
            self.wf(),
            closed(self.model().adj),
            self.model().ids_below(evaluator.n_known() as nat),
            starting_node.vector < self.model().adj.len(),
        ensures
            top_k@ == ({
                let m = self.model().search(evaluator, ef, k, lambda);
                first(m.outcome(m.expansion(), start(starting_node)), k as nat)
            }),
    {
        let top_candidates = self.search_candidates_for_query(
            evaluator,
            starting_node,
            ef,
            k,
            lambda,
        );
        let mut top_k = top_candidates.into_sorted_vec();
        top_k.truncate(k);
        top_k
    }

    /// The candidates for a query: a beam of size `ef_search` that is kept going for `k` items.
    fn search_candidates_for_query<E: QueryEvaluator>(
        &self,
        evaluator: &E,
        entry_node: ScoredItem,
        ef_search: usize,
        k: usize,
        lambda: u32,
    ) -> (top_candidates: TopList)
        requires
            self.wf(),
            closed(self.model().adj),
            self.model().ids_below(evaluator.n_known() as nat),
            entry_node.vector < self.model().adj.len(),
        ensures
            top_candidates@ == ({
                let m = self.model().search(evaluator, ef_search, k, lambda);
                m.outcome(m.expansion(), start(entry_node))
            }),
            in_order(top_candidates@),
    {
        self.search_candidates_impl(evaluator, entry_node, ef_search, Some(k), lambda)
    }

    /// The candidates for an insertion: a beam of size `ef_construction` without relaxation.
    fn search_candidates_for_insert<E: QueryEvaluator>(
        &self,
        evaluator: &E,
        entry_node: ScoredItem,
        ef_construction: usize,
    ) -> (top_candidates: TopList)
        requires
            self.wf(),
            closed(self.model().adj),
            self.model().ids_below(evaluator.n_known() as nat),
            entry_node.vector < self.model().adj.len(),
        ensures
            top_candidates@ == ({
                let m = self.model().search(evaluator, ef_construction, 0, 0);
                m.outcome(m.expansion(), start(entry_node))
            }),
            in_order(top_candidates@),
    {
        self.search_candidates_impl(evaluator, entry_node, ef_construction, None, 0)
    }

    /// Shared implementation of the unfiltered candidate searches.
    fn search_candidates_impl<E: QueryEvaluator>(
        &self,
        evaluator: &E,
        entry_node: ScoredItem,
        ef: usize,
        k: Option<usize>,
        lambda: u32,
    ) -> (top_candidates: TopList)
        requires
            self.wf(),
            closed(self.model().adj),
            self.model().ids_below(evaluator.n_known() as nat),
            entry_node.vector < self.model().adj.len(),
        ensures
            top_candidates@ == ({
                let m = self.model().search(evaluator, ef, k.unwrap_or(0), lambda);
                m.outcome(m.expansion(), start(entry_node))
            }),
            in_order(top_candidates@),
    {
        let kk: usize = k.unwrap_or(0);
        let limit: usize = if ef >= kk { ef } else { kk };
        let ghost g = self.model();
        let ghost m = g.search(evaluator, ef, kk, lambda);
        let ghost n = g.adj.len();
        let ghost expand = m.expansion();
        let ghost b0 = start(entry_node);

        let mut top_candidates = TopList::new();
        let mut candidates = Frontier::new();
        let mut visited: HashSet<usize> = HashSet::new();
        top_candidates.push(entry_node);
        candidates.push(entry_node);
        visited.insert(entry_node.vector);
        let ghost mut b = b0;
        let ghost mut steps: nat = 0;
        proof {
            assert(top_candidates@ =~= b0.top);
            assert(candidates@ =~= b0.frontier);
            assert(visited@ =~= b0.visited);
            lemma_visited_bound(visited@, n);
        }
        loop
            invariant
                self.wf(),
                g == self.model(),
                closed(g.adj),
                g.ids_below(evaluator.n_known() as nat),
                m == g.search(evaluator, ef, kk, lambda),
                expand == m.expansion(),
                n == g.adj.len(),
                b0 == start(entry_node),
                limit == max(ef as nat, kk as nat),
                kk == k.unwrap_or(0),
                b == (Beam { top: top_candidates@, frontier: candidates@, visited: visited@ }),
                beam_ok(b, n),
                b == m.after(expand, b0, steps),
                forall|i: nat| i < steps ==> !m.done(#[trigger] m.after(expand, b0, i)),
                b.visited.len() <= n,
            decreases b.frontier.len() + (n - b.visited.len()),
        {
            let popped = candidates.pop();
            if popped.is_none() {
                proof {
                    lemma_outcome(m, expand, b0, steps);
                }
                return top_candidates;
            }
            let node = popped.unwrap();
            assert(b.frontier.contains(node)) by {
                assert(b.frontier[0] == node);
            }
            if top_candidates.len() >= limit {
                let stands_up = match top_candidates.peek() {
                    Some(worst) => E::is_within_relaxation(node.distance, worst.distance, lambda),
                    None => false,
                };
                if !stands_up {
                    proof {
                        lemma_outcome(m, expand, b0, steps);
                    }
                    return top_candidates;
                }
            }
            let nbrs = self.neighbors(node.vector);
            let ghost base = Beam {
                top: top_candidates@,
                frontier: candidates@,
                visited: visited@,
            };
            let ghost seen = m.see(base, nbrs@);
            let ghost mut flushed: Seq<usize> = Seq::empty();
            proof {
                lemma_pop_ok(b, n);
                lemma_fresh(nbrs@, base.visited);
                assert(nbrs@.take(0).to_set() =~= Set::<usize>::empty());
                assert(visited@ =~= base.visited.union(nbrs@.take(0).to_set()));
                assert(beam_ok(seen, n));
            }
            let mut buf_local: [usize; 6] = [0; 6];
            let mut buf_ext: [usize; 6] = [0; 6];
            let mut count: usize = 0;
            let mut i: usize = 0;
            while i < nbrs.len()
                invariant
                    self.wf(),
                    g == self.model(),
                    closed(g.adj),
                    g.ids_below(evaluator.n_known() as nat),
                    m == g.search(evaluator, ef, kk, lambda),
                    n == g.adj.len(),
                    node.vector < n,
                    nbrs@ == g.adj[node.vector as int],
                    seen == m.see(base, nbrs@),
                    beam_ok(seen, n),
                    i <= nbrs@.len(),
                    count < 6,
                    visited@ == base.visited.union(nbrs@.take(i as int).to_set()),
                    fresh(nbrs@.take(i as int), base.visited) == flushed + buf_local@.take(
                        count as int,
                    ),
                    (Beam {
                        top: top_candidates@,
                        frontier: candidates@,
                        visited: seen.visited,
                    }) == m.offer_all(seen, flushed),
                    in_order(top_candidates@),
                    in_order(candidates@),
                    forall|j: int| 0 <= j < count ==> #[trigger] buf_local@[j] < n,
                    forall|j: int|
                        0 <= j < count ==> #[trigger] buf_ext@[j] == g.external(buf_local@[j]),
                decreases nbrs@.len() - i,
            {
                let id = nbrs[i];
                proof {
                    lemma_take_push(nbrs@, i as int);
                    nbrs@.take(i as int).lemma_push_to_set_commute(id);
                }
                assert(id < n);
                assert(g.has_external(id));
                if visited.insert(id) {
                    let ghost before_local = buf_local@.take(count as int);
                    buf_local[count] = id;
                    buf_ext[count] = self.get_external_id(id);
                    count += 1;
                    assert(buf_local@.take(count as int) =~= before_local.push(id));
                    if count == 6 {
                        let ghost batch = buf_local@;
                        let ghost done = flushed;
                        assert(batch.take(6) =~= batch);
                        assert forall|j: int| 0 <= j < 6 implies #[trigger] buf_ext@[j]
                            < evaluator.n_known() by {
                            assert(g.has_external(buf_local@[j]));
                        }
                        let distances = evaluator.compute_distances_batch6(buf_ext);
                        let mut j: usize = 0;
                        assert(done + batch.take(0) =~= done);
                        while j < 6
                            invariant
                                j <= 6,
                                m == g.search(evaluator, ef, kk, lambda),
                                batch == buf_local@,
                                flushed == done + batch.take(j as int),
                                forall|l: int|
                                    0 <= l < 6 ==> #[trigger] buf_ext@[l] == g.external(batch[l]),
                                forall|l: int|
                                    0 <= l < 6 ==> #[trigger] distances@[l]
                                        == evaluator.distance_to(buf_ext@[l]),
                                (Beam {
                                    top: top_candidates@,
                                    frontier: candidates@,
                                    visited: seen.visited,
                                }) == m.offer_all(seen, flushed),
                                in_order(top_candidates@),
                                in_order(candidates@),
                            decreases 6 - j,
                        {
                            let x = ScoredItem { distance: distances[j], vector: buf_local[j] };
                            proof {
                                assert(x == m.item(batch[j as int]));
                                lemma_take_push(batch, j as int);
                                lemma_offer_all_push(m, seen, flushed, batch[j as int]);
                                flushed = flushed.push(batch[j as int]);
                                assert(flushed =~= done + batch.take(j + 1));
                            }
                            offer_item::<E>(
                                &mut top_candidates,
                                &mut candidates,
                                x,
                                ef,
                                lambda,
                                Ghost(m),
                                Ghost(seen.visited),
                            );
                            j += 1;
                        }
                        count = 0;
                        assert(flushed + buf_local@.take(0) =~= done + batch);
                    }
                }
                i += 1;
            }
            let ghost done = flushed;
            let ghost tail = buf_local@.take(count as int);
            let mut j: usize = 0;
            assert(done + tail.take(0) =~= done);
            while j < count
                invariant
                    self.wf(),
                    j <= count,
                    count < 6,
                    m == g.search(evaluator, ef, kk, lambda),
                    g.ids_below(evaluator.n_known() as nat),
                    n == g.adj.len(),
                    tail == buf_local@.take(count as int),
                    flushed == done + tail.take(j as int),
                    forall|l: int| 0 <= l < count ==> #[trigger] buf_local@[l] < n,
                    forall|l: int|
                        0 <= l < count ==> #[trigger] buf_ext@[l] == g.external(buf_local@[l]),
                    (Beam {
                        top: top_candidates@,
                        frontier: candidates@,
                        visited: seen.visited,
                    }) == m.offer_all(seen, flushed),
                    in_order(top_candidates@),
                    in_order(candidates@),
                decreases count - j,
            {
                assert(g.has_external(buf_local@[j as int]));
                let distance = evaluator.compute_distance(buf_ext[j]);
                let x = ScoredItem { distance, vector: buf_local[j] };
                proof {
                    assert(x == m.item(tail[j as int]));
                    lemma_take_push(tail, j as int);
                    lemma_offer_all_push(m, seen, flushed, tail[j as int]);
                    flushed = flushed.push(tail[j as int]);
                    assert(flushed =~= done + tail.take(j + 1));
                }
                offer_item::<E>(
                    &mut top_candidates,
                    &mut candidates,
                    x,
                    ef,
                    lambda,
                    Ghost(m),
                    Ghost(seen.visited),
                );
                j += 1;
            }
            proof {
                assert(nbrs@.take(nbrs@.len() as int) =~= nbrs@);
                assert(tail.take(count as int) =~= tail);
                assert(flushed == fresh(nbrs@, base.visited));
                let f = fresh(nbrs@, base.visited);
                assert forall|l: int| 0 <= l < f.len() implies #[trigger] f[l] < n by {
                    assert(f.contains(f[l]));
                    assert(nbrs@.contains(f[l]));
                }
                lemma_offer_all_ok(m, seen, f, n);
                b = m.offer_all(seen, f);
                steps = steps + 1;
                lemma_visited_bound(b.visited, n);
            }
        }
    }
    /// Marks `nbrs` as seen and offers those seen for the first time whose dataset ids the
    /// predicate accepts; the others seen for the first time are handed back, in order.
    fn scan_neighbors<E: QueryEvaluator, F: Fn(usize) -> bool>(
        &self,
        evaluator: &E,
        nbrs: &Vec<usize>,
        top_candidates: &mut TopList,
        candidates: &mut Frontier,
        visited: &mut HashSet<usize>,
        ef: usize,
        lambda: u32,
        predicate: &F,
        Ghost(k): Ghost<usize>,
    ) -> (failing: Vec<usize>)
        requires
            self.wf(),
            self.model().ids_below(evaluator.n_known() as nat),
            self.model().decided_by(*predicate),
            forall|i: int| 0 <= i < nbrs@.len() ==> #[trigger] nbrs@[i] < self.model().adj.len(),
            in_order(old(top_candidates)@),
            in_order(old(candidates)@),
        ensures
            (Beam {
                top: final(top_candidates)@,
                frontier: final(candidates)@,
                visited: final(visited)@,
            }) == self.model().search(evaluator, ef, k, lambda).scan(
                (Beam {
                    top: old(top_candidates)@,
                    frontier: old(candidates)@,
                    visited: old(visited)@,
                }),
                nbrs@,
                self.model().passing(*predicate),
            ),
            failing@ == fresh(nbrs@, old(visited)@).filter(
                |id: usize| !self.model().passing(*predicate)(id),
            ),
            in_order(final(top_candidates)@),
            in_order(final(candidates)@),
            forall|id: usize| #[trigger]
                final(visited)@.contains(id) ==> old(visited)@.contains(id) || answered(
                    *predicate,
                    self.model().external(id),
                ),
    {
        let ghost g = self.model();
        let ghost m = g.search(evaluator, ef, k, lambda);
        let ghost pass = g.passing(*predicate);
        let ghost fails = |id: usize| !self.model().passing(*predicate)(id);
        let ghost base = Beam {
            top: top_candidates@,
            frontier: candidates@,
            visited: visited@,
        };
        let ghost seen = m.see(base, nbrs@);
        let mut failing: Vec<usize> = Vec::new();
        let mut i: usize = 0;
        proof {
            reveal(Seq::filter);
            assert(nbrs@.take(0).to_set() =~= Set::<usize>::empty());
            assert(visited@ =~= base.visited.union(nbrs@.take(0).to_set()));
        }
        while i < nbrs.len()
            invariant
                self.wf(),
                g == self.model(),
                g.ids_below(evaluator.n_known() as nat),
                g.decided_by(*predicate),
                m == g.search(evaluator, ef, k, lambda),
                pass == g.passing(*predicate),
                fails == (|id: usize| !self.model().passing(*predicate)(id)),
                seen == m.see(base, nbrs@),
                forall|j: int| 0 <= j < nbrs@.len() ==> #[trigger] nbrs@[j] < g.adj.len(),
                i <= nbrs@.len(),
                visited@ == base.visited.union(nbrs@.take(i as int).to_set()),
                forall|id: usize| #[trigger]
                    visited@.contains(id) ==> base.visited.contains(id) || answered(
                        *predicate,
                        g.external(id),
                    ),
                base.visited == old(visited)@,
                failing@ == fresh(nbrs@.take(i as int), base.visited).filter(fails),
                (Beam { top: top_candidates@, frontier: candidates@, visited: seen.visited })
                    == m.offer_all(seen, fresh(nbrs@.take(i as int), base.visited).filter(pass)),
                in_order(top_candidates@),
                in_order(candidates@),
            decreases nbrs@.len() - i,
        {
            let id = nbrs[i];
            let ghost found = fresh(nbrs@.take(i as int), base.visited);
            proof {
                lemma_take_push(nbrs@, i as int);
                nbrs@.take(i as int).lemma_push_to_set_commute(id);
                lemma_filter_push(found, id, pass);
                lemma_filter_push(found, id, fails);
                assert(g.has_external(id));
                assert(decides(*predicate, g.external(id)));
            }
            if visited.insert(id) {
                let external = self.get_external_id(id);
                if predicate(external) {
                    let distance = evaluator.compute_distance(external);
                    let x = ScoredItem { distance, vector: id };
                    proof {
                        assert(x == m.item(id));
                        lemma_offer_all_push(m, seen, found.filter(pass), id);
                    }
                    offer_item::<E>(
                        top_candidates,
                        candidates,
                        x,
                        ef,
                        lambda,
                        Ghost(m),
                        Ghost(seen.visited),
                    );
                } else {
                    failing.push(id);
                }
            }
            i += 1;
        }
        proof {
            assert(nbrs@.take(nbrs@.len() as int) =~= nbrs@);
            lemma_offer_all_visited(m, seen, fresh(nbrs@, base.visited).filter(pass));
        }
        failing
    }

    /// Filtered search with two-hop expansion: only nodes whose dataset ids the predicate
    /// accepts are returned, and the search reaches through direct neighbours that fail.
    fn acorn_search_candidates_filtered<E: QueryEvaluator, F: Fn(usize) -> bool>(
        &self,
        evaluator: &E,
        entry_node: ScoredItem,
        ef: usize,
        k: usize,
        lambda: u32,
        predicate: &F,
    ) -> (top_candidates: TopList)
        requires
            self.wf(),
            closed(self.model().adj),
            self.model().ids_below(evaluator.n_known() as nat),
            self.model().decided_by(*predicate),
            entry_node.vector < self.model().adj.len(),
        ensures
            top_candidates@ == ({
                let m = self.model().search(evaluator, ef, k, lambda);
                let pass = self.model().passing(*predicate);
                m.outcome(m.two_hop_expansion(pass), start_filtered(entry_node, pass))
            }),
            forall|pass: spec_fn(usize) -> bool| #[trigger]
                self.model().decided_as(*predicate, pass) ==> top_candidates@ == ({
                    let m = self.model().search(evaluator, ef, k, lambda);
                    m.outcome(m.two_hop_expansion(pass), start_filtered(entry_node, pass))
                }),
            in_order(top_candidates@),
            forall|i: int|
                0 <= i < top_candidates@.len() ==> predicate.ensures(
                    (self.model().external((#[trigger] top_candidates@[i]).vector),),
                    true,
                ),
    {
        let limit: usize = if ef >= k { ef } else { k };
        let ghost g = self.model();
        let ghost m = g.search(evaluator, ef, k, lambda);
        let ghost pass = g.passing(*predicate);
        let ghost fails = |id: usize| !pass(id);
        let ghost n = g.adj.len();
        let ghost expand = m.two_hop_expansion(pass);
        let ghost b0 = start_filtered(entry_node, pass);

        let mut top_candidates = TopList::new();
        let mut candidates = Frontier::new();
        let mut visited: HashSet<usize> = HashSet::new();
        visited.insert(entry_node.vector);
        candidates.push(entry_node);
        assert(g.has_external(entry_node.vector));
        assert(decides(*predicate, g.external(entry_node.vector)));
        if predicate(self.get_external_id(entry_node.vector)) {
            top_candidates.push(entry_node);
        }
        let ghost mut b = b0;
        let ghost mut steps: nat = 0;
        proof {
            assert(top_candidates@ =~= b0.top);
            assert(candidates@ =~= b0.frontier);
            assert(visited@ =~= b0.visited);
            lemma_visited_bound(visited@, n);
        }
        loop
            invariant
                self.wf(),
                g == self.model(),
                closed(g.adj),
                g.ids_below(evaluator.n_known() as nat),
                g.decided_by(*predicate),
                m == g.search(evaluator, ef, k, lambda),
                pass == g.passing(*predicate),
                fails == (|id: usize| !pass(id)),
                expand == m.two_hop_expansion(pass),
                n == g.adj.len(),
                b0 == start_filtered(entry_node, pass),
                limit == max(ef as nat, k as nat),
                entry_node.vector < n,
                b == (Beam { top: top_candidates@, frontier: candidates@, visited: visited@ }),
                beam_ok(b, n),
                b == m.after(expand, b0, steps),
                forall|i: nat| i < steps ==> !m.done(#[trigger] m.after(expand, b0, i)),
                work_left(b, n) >= 0,
                forall|id: usize| #[trigger]
                    visited@.contains(id) ==> answered(*predicate, g.external(id)),
            decreases work_left(b, n),
        {
            let popped = candidates.pop();
            if popped.is_none() {
                proof {
                    lemma_outcome(m, expand, b0, steps);
                    lemma_two_hop_answers(g, m, *predicate, entry_node, steps);
                }
                return top_candidates;
            }
            let node = popped.unwrap();
            assert(b.frontier.contains(node)) by {
                assert(b.frontier[0] == node);
            }
            if top_candidates.len() >= limit {
                let stands_up = match top_candidates.peek() {
                    Some(worst) => E::is_within_relaxation(node.distance, worst.distance, lambda),
                    None => false,
                };
                if !stands_up {
                    proof {
                        lemma_outcome(m, expand, b0, steps);
                        lemma_two_hop_answers(g, m, *predicate, entry_node, steps);
                    }
                    return top_candidates;
                }
            }
            let nbrs = self.neighbors(node.vector);
            let ghost base = Beam {
                top: top_candidates@,
                frontier: candidates@,
                visited: visited@,
            };
            proof {
                lemma_pop_ok(b, n);
                lemma_scan_ok(m, base, nbrs@, pass, n);
            }
            // Direct neighbours: those that pass are offered, the others are reached through.
            let non_pred_direct = self.scan_neighbors(
                evaluator,
                &nbrs,
                &mut top_candidates,
                &mut candidates,
                &mut visited,
                ef,
                lambda,
                predicate,
                Ghost(k),
            );
            let ghost mids = fresh(nbrs@, base.visited).filter(fails);
            let ghost first_hop = m.scan(base, nbrs@, pass);
            let ghost mut cur = first_hop;
            proof {
                let f = fresh(nbrs@, base.visited);
                assert forall|l: int| 0 <= l < mids.len() implies #[trigger] mids[l] < n by {
                    assert(mids.contains(mids[l]));
                    f.lemma_filter_contains_rev(fails, mids[l]);
                }
            }
            let mut i: usize = 0;
            // Two-hop phase: the neighbours of the direct neighbours that fail.
            while i < non_pred_direct.len()
                invariant
                    self.wf(),
                    g == self.model(),
                    closed(g.adj),
                    g.ids_below(evaluator.n_known() as nat),
                    g.decided_by(*predicate),
                    m == g.search(evaluator, ef, k, lambda),
                    pass == g.passing(*predicate),
                    n == g.adj.len(),
                    mids == non_pred_direct@,
                    forall|l: int| 0 <= l < mids.len() ==> #[trigger] mids[l] < n,
                    beam_ok(first_hop, n),
                    i <= mids.len(),
                    cur == m.scan_around(first_hop, mids.take(i as int), pass),
                    cur == (Beam {
                        top: top_candidates@,
                        frontier: candidates@,
                        visited: visited@,
                    }),
                    beam_ok(cur, n),
                    forall|id: usize| #[trigger]
                        visited@.contains(id) ==> answered(*predicate, g.external(id)),
                decreases mids.len() - i,
            {
                let mid = non_pred_direct[i];
                let around = self.neighbors(mid);
                proof {
                    lemma_take_push(mids, i as int);
                    lemma_scan_ok(m, cur, around@, pass, n);
                    cur = m.scan(cur, around@, pass);
                }
                let _ = self.scan_neighbors(
                    evaluator,
                    &around,
                    &mut top_candidates,
                    &mut candidates,
                    &mut visited,
                    ef,
                    lambda,
                    predicate,
                    Ghost(k),
                );
                i += 1;
            }
            proof {
                assert(mids.take(mids.len() as int) =~= mids);
                lemma_scan_around_ok(m, first_hop, mids, pass);
                b = cur;
                steps = steps + 1;
                lemma_visited_bound(b.visited, n);
            }
        }
    }
    /// Filtered search without two-hop expansion, for graphs whose neighbour lists were expanded
    /// beforehand: neighbours whose dataset ids the predicate rejects are skipped.
    fn acorn_gamma_search_filtered<E: QueryEvaluator, F: Fn(usize) -> bool>(
        &self,
        evaluator: &E,
        entry_node: ScoredItem,
        ef: usize,
        k: usize,
        lambda: u32,
        predicate: &F,
    ) -> (top_candidates: TopList)
        requires
            self.wf(),
            closed(self.model().adj),
            self.model().ids_below(evaluator.n_known() as nat),
            self.model().decided_by(*predicate),
            entry_node.vector < self.model().adj.len(),
        ensures
            top_candidates@ == ({
                let m = self.model().search(evaluator, ef, k, lambda);
                let pass = self.model().passing(*predicate);
                m.outcome(m.passing_expansion(pass), start_filtered(entry_node, pass))
            }),
            forall|pass: spec_fn(usize) -> bool| #[trigger]
                self.model().decided_as(*predicate, pass) ==> top_candidates@ == ({
                    let m = self.model().search(evaluator, ef, k, lambda);
                    m.outcome(m.passing_expansion(pass), start_filtered(entry_node, pass))
                }),
            in_order(top_candidates@),
            forall|i: int|
                0 <= i < top_candidates@.len() ==> predicate.ensures(
                    (self.model().external((#[trigger] top_candidates@[i]).vector),),
                    true,
                ),
    {
        let limit: usize = if ef >= k { ef } else { k };
        let ghost g = self.model();
        let ghost m = g.search(evaluator, ef, k, lambda);
        let ghost pass = g.passing(*predicate);
        let ghost n = g.adj.len();
        let ghost expand = m.passing_expansion(pass);
        let ghost b0 = start_filtered(entry_node, pass);

        let mut top_candidates = TopList::new();
        let mut candidates = Frontier::new();
        let mut visited: HashSet<usize> = HashSet::new();
        visited.insert(entry_node.vector);
        candidates.push(entry_node);
        assert(g.has_external(entry_node.vector));
        assert(decides(*predicate, g.external(entry_node.vector)));
        if predicate(self.get_external_id(entry_node.vector)) {
            top_candidates.push(entry_node);
        }
        let ghost mut b = b0;
        let ghost mut steps: nat = 0;
        proof {
            assert(top_candidates@ =~= b0.top);
            assert(candidates@ =~= b0.frontier);
            assert(visited@ =~= b0.visited);
            lemma_visited_bound(visited@, n);
        }
        loop
            invariant
                self.wf(),
                g == self.model(),
                closed(g.adj),
                g.ids_below(evaluator.n_known() as nat),
                g.decided_by(*predicate),
                m == g.search(evaluator, ef, k, lambda),
                pass == g.passing(*predicate),
                expand == m.passing_expansion(pass),
                n == g.adj.len(),
                b0 == start_filtered(entry_node, pass),
                limit == max(ef as nat, k as nat),
                entry_node.vector < n,
                b == (Beam { top: top_candidates@, frontier: candidates@, visited: visited@ }),
                beam_ok(b, n),
                b == m.after(expand, b0, steps),
                forall|i: nat| i < steps ==> !m.done(#[trigger] m.after(expand, b0, i)),
                work_left(b, n) >= 0,
                forall|id: usize| #[trigger]
                    visited@.contains(id) ==> answered(*predicate, g.external(id)),
            decreases work_left(b, n),
        {
            let popped = candidates.pop();
            if popped.is_none() {
                proof {
                    lemma_outcome(m, expand, b0, steps);
                    lemma_skipping_answers(g, m, *predicate, entry_node, steps);
                }
                return top_candidates;
            }
            let node = popped.unwrap();
            assert(b.frontier.contains(node)) by {
                assert(b.frontier[0] == node);
            }
            if top_candidates.len() >= limit {
                let stands_up = match top_candidates.peek() {
                    Some(worst) => E::is_within_relaxation(node.distance, worst.distance, lambda),
                    None => false,
                };
                if !stands_up {
                    proof {
                        lemma_outcome(m, expand, b0, steps);
                        lemma_skipping_answers(g, m, *predicate, entry_node, steps);
                    }
                    return top_candidates;
                }
            }
            let nbrs = self.neighbors(node.vector);
            let ghost base = Beam {
                top: top_candidates@,
                frontier: candidates@,
                visited: visited@,
            };
            let ghost seen = m.see(base, nbrs@);
            proof {
                reveal(Seq::filter);
                lemma_pop_ok(b, n);
                lemma_fresh(nbrs@, base.visited);
                lemma_scan_ok(m, base, nbrs@, pass, n);
                assert(nbrs@.take(0).to_set() =~= Set::<usize>::empty());
                assert(visited@ =~= base.visited.union(nbrs@.take(0).to_set()));
            }
            let mut i: usize = 0;
            while i < nbrs.len()
                invariant
                    self.wf(),
                    g == self.model(),
                    closed(g.adj),
                    g.ids_below(evaluator.n_known() as nat),
                    g.decided_by(*predicate),
                    m == g.search(evaluator, ef, k, lambda),
                    pass == g.passing(*predicate),
                    n == g.adj.len(),
                    node.vector < n,
                    nbrs@ == g.adj[node.vector as int],
                    seen == m.see(base, nbrs@),
                    i <= nbrs@.len(),
                    visited@ == base.visited.union(nbrs@.take(i as int).to_set()),
                    forall|id: usize| #[trigger]
                        visited@.contains(id) ==> answered(*predicate, g.external(id)),
                    (Beam {
                        top: top_candidates@,
                        frontier: candidates@,
                        visited: seen.visited,
                    }) == m.offer_admitted(
                        seen,
                        fresh(nbrs@.take(i as int), base.visited).filter(pass),
                    ),
                    in_order(top_candidates@),
                    in_order(candidates@),
                decreases nbrs@.len() - i,
            {
                let id = nbrs[i];
                let ghost found = fresh(nbrs@.take(i as int), base.visited);
                proof {
                    lemma_take_push(nbrs@, i as int);
                    nbrs@.take(i as int).lemma_push_to_set_commute(id);
                    lemma_filter_push(found, id, pass);
                    assert(found.filter(pass).push(id).drop_last() =~= found.filter(pass));
                    assert(id < n);
                    assert(g.has_external(id));
                    assert(decides(*predicate, g.external(id)));
                }
                if visited.insert(id) {
                    let external = self.get_external_id(id);
                    if predicate(external) {
                        let distance = evaluator.compute_distance(external);
                        let x = ScoredItem { distance, vector: id };
                        assert(x == m.item(id));
                        let should_add = if top_candidates.len() < ef {
                            true
                        } else {
                            match top_candidates.peek() {
                                Some(worst) => E::is_within_relaxation(
                                    x.distance,
                                    worst.distance,
                                    lambda,
                                ),
                                None => false,
                            }
                        };
                        if should_add {
                            candidates.push(x);
                            top_candidates.push(x);
                            if top_candidates.len() > ef {
                                top_candidates.pop();
                            }
                        }
                    }
                }
                i += 1;
            }
            proof {
                let f = fresh(nbrs@, base.visited);
                assert(nbrs@.take(nbrs@.len() as int) =~= nbrs@);
                f.lemma_filter_len(pass);
                assert forall|l: int| 0 <= l < f.filter(pass).len() implies #[trigger] f.filter(
                    pass,
                )[l] < n by {
                    assert(f.filter(pass).contains(f.filter(pass)[l]));
                    f.lemma_filter_contains_rev(pass, f.filter(pass)[l]);
                }
                lemma_offer_admitted_ok(m, seen, f.filter(pass), n);
                b = m.offer_admitted(seen, f.filter(pass));
                steps = steps + 1;
                lemma_visited_bound(b.visited, n);
            }
        }
    }
}

/// Whatever says of every node what the predicate says leads the two-hop search to the same
/// results.
proof fn lemma_two_hop_answers<F: Fn(usize) -> bool>(
    g: GraphModel,
    m: SearchModel,
    predicate: F,
    entry: ScoredItem,
    steps: nat,
)
    requires
        closed(g.adj),
        m.adj == g.adj,
        entry.vector < g.adj.len(),
        g.decided_by(predicate),
        m.halts_at(
            m.two_hop_expansion(g.passing(predicate)),
            start_filtered(entry, g.passing(predicate)),
            steps,
        ),
        ({
            let pass = g.passing(predicate);
            let end = m.after(m.two_hop_expansion(pass), start_filtered(entry, pass), steps);
            forall|id: usize| #[trigger]
                end.visited.contains(id) ==> id < g.adj.len() && answered(
                    predicate,
                    g.external(id),
                )
        }),
    ensures
        ({
            let found = m.outcome(
                m.two_hop_expansion(g.passing(predicate)),
                start_filtered(entry, g.passing(predicate)),
            );
            forall|i: int|
                0 <= i < found.len() ==> predicate.ensures(
                    (g.external((#[trigger] found[i]).vector),),
                    true,
                )
        }),
        forall|pass: spec_fn(usize) -> bool| #[trigger]
            g.decided_as(predicate, pass) ==> m.outcome(
                m.two_hop_expansion(pass),
                start_filtered(entry, pass),
            ) == m.outcome(
                m.two_hop_expansion(g.passing(predicate)),
                start_filtered(entry, g.passing(predicate)),
            ),
{
    let accepted = g.passing(predicate);
    law_two_hop_search_is_sound(m, entry, accepted);
    let end = m.after(m.two_hop_expansion(accepted), start_filtered(entry, accepted), steps);
    assert forall|pass: spec_fn(usize) -> bool| #[trigger]
        g.decided_as(predicate, pass) implies m.outcome(
        m.two_hop_expansion(pass),
        start_filtered(entry, pass),
    ) == m.outcome(m.two_hop_expansion(accepted), start_filtered(entry, accepted)) by {
        assert forall|id: usize| #[trigger] end.visited.contains(id) implies accepted(id) == pass(
            id,
        ) by {
            assert(decides(predicate, g.external(id)));
            assert(says(predicate, g.external(id), pass(id)));
        }
        lemma_two_hop_outcome(m, entry, accepted, pass, steps);
    }
}

/// Whatever says of every node what the predicate says leads the search that skips nodes to the
/// same results.
proof fn lemma_skipping_answers<F: Fn(usize) -> bool>(
    g: GraphModel,
    m: SearchModel,
    predicate: F,
    entry: ScoredItem,
    steps: nat,
)
    requires
        closed(g.adj),
        m.adj == g.adj,
        entry.vector < g.adj.len(),
        g.decided_by(predicate),
        m.halts_at(
            m.passing_expansion(g.passing(predicate)),
            start_filtered(entry, g.passing(predicate)),
            steps,
        ),
        ({
            let pass = g.passing(predicate);
            let end = m.after(m.passing_expansion(pass), start_filtered(entry, pass), steps);
            forall|id: usize| #[trigger]
                end.visited.contains(id) ==> id < g.adj.len() && answered(
                    predicate,
                    g.external(id),
                )
        }),
    ensures
        ({
            let found = m.outcome(
                m.passing_expansion(g.passing(predicate)),
                start_filtered(entry, g.passing(predicate)),
            );
            forall|i: int|
                0 <= i < found.len() ==> predicate.ensures(
                    (g.external((#[trigger] found[i]).vector),),
                    true,
                )
        }),
        forall|pass: spec_fn(usize) -> bool| #[trigger]
            g.decided_as(predicate, pass) ==> m.outcome(
                m.passing_expansion(pass),
                start_filtered(entry, pass),
            ) == m.outcome(
                m.passing_expansion(g.passing(predicate)),
                start_filtered(entry, g.passing(predicate)),
            ),
{
    let accepted = g.passing(predicate);
    law_skipping_search_is_sound(m, entry, accepted);
    let end = m.after(m.passing_expansion(accepted), start_filtered(entry, accepted), steps);
    assert forall|pass: spec_fn(usize) -> bool| #[trigger]
        g.decided_as(predicate, pass) implies m.outcome(
        m.passing_expansion(pass),
        start_filtered(entry, pass),
    ) == m.outcome(m.passing_expansion(accepted), start_filtered(entry, accepted)) by {
        assert forall|id: usize| #[trigger] end.visited.contains(id) implies accepted(id) == pass(
            id,
        ) by {
            assert(decides(predicate, g.external(id)));
            assert(says(predicate, g.external(id), pass(id)));
        }
        lemma_skipping_outcome(m, entry, accepted, pass, steps);
    }
}

pub proof fn lemma_offer_all_visited(m: SearchModel, b: Beam, found: Seq<usize>)
    ensures
        m.offer_all(b, found).visited == b.visited,
    decreases found.len(),
{
    if found.len() > 0 {
        lemma_offer_all_visited(m, b, found.drop_last());
    }
}

/// Taking the nearest item out of the frontier keeps the beam in order.
pub proof fn lemma_pop_ok(b: Beam, n: nat)
    requires
        beam_ok(b, n),
        b.frontier.len() > 0,
    ensures
        beam_ok(Beam { frontier: b.frontier.drop_first(), ..b }, n),
{
    let rest = b.frontier.drop_first();
    assert forall|x: ScoredItem| #[trigger] rest.contains(x) implies b.frontier.contains(x) by {
        let i = choose|i: int| 0 <= i < rest.len() && rest[i] == x;
        assert(b.frontier[i + 1] == x);
    }
}

pub proof fn lemma_offer_all_push(m: SearchModel, b: Beam, found: Seq<usize>, id: usize)
    ensures
        m.offer_all(b, found.push(id)) == m.offer(m.offer_all(b, found), m.item(id)),
        m.offer_all(b, found).visited == b.visited,
{
    assert(found.push(id).drop_last() =~= found);
    lemma_offer_all_visited(m, b, found);
}

pub proof fn lemma_take_push<T>(s: Seq<T>, i: int)
    requires
        0 <= i < s.len(),
    ensures
        s.take(i + 1) == s.take(i).push(s[i]),
        s.take(i + 1).drop_last() == s.take(i),
        s.take(i + 1).last() == s[i],
{
    assert(s.take(i + 1) =~= s.take(i).push(s[i]));
    assert(s.take(i + 1).drop_last() =~= s.take(i));
}

/// The number of links counts the links of every list.
pub proof fn law_links_are_counted(adj: Seq<Seq<usize>>, list: Seq<usize>)
    ensures
        n_links(Seq::empty()) == 0,
        n_links(adj.push(list)) == n_links(adj) + list.len(),
{
    assert(adj.push(list).drop_last() =~= adj);
}

} // verus!
