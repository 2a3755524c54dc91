//! Neighbour lists that were expanded beforehand, for filtered search.
use crate::beam::{closed, fresh, lemma_fresh, max, start_filtered};
use crate::best_first::{
    among, ends_with, finds_nearest, nearer, nearest_items, nearest_nodes, neighbors_shown,
    well_behaved,
};
use crate::dataset::{Dataset, QueryEvaluator};
use crate::graph::insertion::arranged;
use crate::graph::{accepts, first, lemma_take_push, n_links, GraphModel, GraphTrait};
use crate::hnsw::{
    lemma_search_eq, EarlyTerminationStrategy, HNSWSearchConfiguration, HNSW,
};
use crate::hnsw::way_down::arrives_at;
use crate::scored::{before, ids, in_order, lemma_place, ScoredItem, TopList};
use crate::soundness::law_skipping_search_is_sound;
use std::collections::HashSet;
use vstd::prelude::*;

verus! {

broadcast use vstd::std_specs::hash::group_hash_axioms;

/// Expanded neighbour lists of the ground level of an index.
///
/// The list of a node holds its neighbours and theirs, nearest to the node first, up to a bound.
/// A filtered search on these lists skips the nodes that fail, because the connections through
/// them are already in the lists. [`HNSW::build_acorn_gamma_neighbors`] makes them.
pub struct AcornGammaNeighbors {
    neighbors: Vec<Vec<usize>>,
    gamma_m: usize,
}

/// The nodes of `nbrs`, each followed by its own neighbours.
pub open spec fn two_hop_walk(adj: Seq<Seq<usize>>, nbrs: Seq<usize>) -> Seq<usize>
    decreases nbrs.len(),
{
    if nbrs.len() == 0 {
        Seq::empty()
    } else {
        two_hop_walk(adj, nbrs.drop_last()).push(nbrs.last()) + adj[nbrs.last() as int]
    }
}

/// The other nodes that can be reached from `v` in one or two steps, in the order of discovery.
pub open spec fn two_hop(adj: Seq<Seq<usize>>, v: usize) -> Seq<usize> {
    fresh(two_hop_walk(adj, adj[v as int]), set![v])
}

/// The expanded list of `v`: the nearest `bound` nodes among those two steps away.
pub open spec fn expanded_list(
    adj: Seq<Seq<usize>>,
    distance: spec_fn(usize, usize) -> i64,
    v: usize,
    bound: nat,
) -> Seq<usize> {
    first(ids(arranged(two_hop(adj, v), |u: usize| distance(v, u))), bound)
}

/// The graph of the expanded lists.
pub open spec fn expanded(
    adj: Seq<Seq<usize>>,
    distance: spec_fn(usize, usize) -> i64,
    bound: usize,
) -> GraphModel {
    GraphModel {
        adj: Seq::new(
            adj.len(),
            |v: int| expanded_list(adj, distance, v as usize, bound as nat),
        ),
        ids: None,
        max_degree: bound,
    }
}

impl GraphTrait for AcornGammaNeighbors {
    closed spec fn wf(&self) -> bool {
        forall|u: int| 0 <= u < self.neighbors@.len() ==> (#[trigger] self.neighbors@[u])@.len()
            <= self.gamma_m
    }

    closed spec fn model(&self) -> GraphModel {
        GraphModel {
            adj: Seq::new(self.neighbors@.len(), |u: int| self.neighbors@[u]@),
            ids: None,
            max_degree: self.gamma_m,
        }
    }

    open spec fn space_bytes(&self) -> nat {
        n_links(self.model().adj) * vstd::layout::size_of::<usize>()
    }

    proof fn lemma_valid(&self) {
    }

    fn neighbors(&self, u: usize) -> (nbrs: Vec<usize>) {
        let list = &self.neighbors[u];
        let mut nbrs: Vec<usize> = Vec::new();
        let mut i: usize = 0;
        while i < list.len()
            invariant
                i <= list@.len(),
                nbrs@ == list@.take(i as int),
            decreases list@.len() - i,
        {
            nbrs.push(list[i]);
            i += 1;
            assert(nbrs@ =~= list@.take(i as int));
        }
        assert(list@.take(i as int) =~= list@);
        nbrs
    }

    fn n_nodes(&self) -> (n: usize) {
        self.neighbors.len()
    }

    fn n_edges(&self) -> (n: usize) {
        let ghost adj = self.model().adj;
        let mut total: usize = 0;
        let mut u: usize = 0;
        while u < self.neighbors.len()
            invariant
                adj == self.model().adj,
                n_links(adj) <= usize::MAX,
                u <= adj.len(),
                adj.len() == self.neighbors@.len(),
                total == n_links(adj.take(u as int)),
            decreases adj.len() - u,
        {
            proof {
                lemma_take_push(adj, u as int);
                lemma_links_prefix(adj, u + 1);
            }
            total = total + self.neighbors[u].len();
            u += 1;
        }
        assert(adj.take(u as int) =~= adj);
        total
    }

    fn max_degree(&self) -> (degree: usize) {
        self.gamma_m
    }

    fn get_external_id(&self, id: usize) -> (external: usize) {
        id
    }

    fn get_space_usage_bytes(&self) -> (bytes: usize) {
        broadcast use vstd::layout::layout_of_primitives;

        proof {
            assert(n_links(self.model().adj) <= n_links(self.model().adj) * vstd::layout::size_of::<
                usize,
            >()) by (nonlinear_arith)
                requires
                    vstd::layout::size_of::<usize>() >= 1,
            ;
        }
        self.n_edges() * std::mem::size_of::<usize>()
    }
}

pub proof fn lemma_links_prefix(adj: Seq<Seq<usize>>, i: int)
    requires
        0 <= i <= adj.len(),
    ensures
        n_links(adj.take(i)) <= n_links(adj),
    decreases adj.len() - i,
{
    if i < adj.len() {
        lemma_take_push(adj, i);
        lemma_links_prefix(adj, i + 1);
    } else {
        assert(adj.take(i) =~= adj);
    }
}

/// Arranging scored nodes only reorders them.
pub proof fn lemma_arranged(list: Seq<usize>, score: spec_fn(usize) -> i64)
    ensures
        in_order(arranged(list, score)),
        arranged(list, score).len() == list.len(),
        forall|x: ScoredItem| #[trigger]
            arranged(list, score).contains(x) <==> list.contains(x.vector) && x.distance == score(
                x.vector,
            ),
    decreases list.len(),
{
    if list.len() > 0 {
        let rest = list.drop_last();
        let last = ScoredItem { distance: score(list.last()), vector: list.last() };
        lemma_arranged(rest, score);
        lemma_place(arranged(rest, score), last);
        assert forall|id: usize| #[trigger] list.contains(id) <==> rest.contains(id) || id
            == list.last() by {
            if rest.contains(id) {
                let i = choose|i: int| 0 <= i < rest.len() && rest[i] == id;
                assert(list[i] == id);
            }
            if id == list.last() {
                assert(list[list.len() - 1] == id);
            }
            if list.contains(id) && id != list.last() {
                let i = choose|i: int| 0 <= i < list.len() && list[i] == id;
                assert(rest[i] == id);
            }
        }
    }
}

/// The list of nodes two steps from `v`, in the order of discovery.
fn collect_two_hop<G: GraphTrait>(graph: &G, v: usize) -> (candidates: Vec<usize>)
    requires
        graph.wf(),
        closed(graph.model().adj),
        v < graph.model().adj.len(),
    ensures
        candidates@ == two_hop(graph.model().adj, v),
        forall|i: int|
            0 <= i < candidates@.len() ==> #[trigger] candidates@[i] < graph.model().adj.len(),
{
    let ghost adj = graph.model().adj;
    let ghost own = set![v];
    let mut seen: HashSet<usize> = HashSet::new();
    seen.insert(v);
    let mut candidates: Vec<usize> = Vec::new();
    let direct = graph.neighbors(v);
    let ghost mut walk: Seq<usize> = Seq::empty();
    let mut i: usize = 0;
    assert(seen@ =~= own.union(walk.to_set()));
    while i < direct.len()
        invariant
            graph.wf(),
            adj == graph.model().adj,
            closed(adj),
            v < adj.len(),
            direct@ == adj[v as int],
            own == set![v],
            i <= direct@.len(),
            walk == two_hop_walk(adj, direct@.take(i as int)),
            seen@ == own.union(walk.to_set()),
            candidates@ == fresh(walk, own),
            forall|l: int| 0 <= l < candidates@.len() ==> #[trigger] candidates@[l] < adj.len(),
        decreases direct@.len() - i,
    {
        let u = direct[i];
        assert(u < adj.len());
        proof {
            lemma_take_push(direct@, i as int);
            walk.lemma_push_to_set_commute(u);
            assert(walk.push(u).drop_last() =~= walk);
        }
        if seen.insert(u) {
            candidates.push(u);
        }
        let ghost base = walk.push(u);
        proof {
            walk = base;
            assert(seen@ =~= own.union(walk.to_set()));
        }
        let around = graph.neighbors(u);
        let mut j: usize = 0;
        assert(base + around@.take(0) =~= base);
        while j < around.len()
            invariant
                closed(adj),
                u < adj.len(),
                around@ == adj[u as int],
                own == set![v],
                j <= around@.len(),
                walk == base + around@.take(j as int),
                seen@ == own.union(walk.to_set()),
                candidates@ == fresh(walk, own),
                forall|l: int|
                    0 <= l < candidates@.len() ==> #[trigger] candidates@[l] < adj.len(),
            decreases around@.len() - j,
        {
            let w = around[j];
            assert(w < adj.len());
            proof {
                lemma_take_push(around@, j as int);
                walk.lemma_push_to_set_commute(w);
                assert(walk.push(w).drop_last() =~= walk);
            }
            if seen.insert(w) {
                candidates.push(w);
            }
            proof {
                walk = walk.push(w);
                assert(walk =~= base + around@.take(j + 1));
                assert(seen@ =~= own.union(walk.to_set()));
            }
            j += 1;
        }
        assert(around@.take(j as int) =~= around@);
        i += 1;
    }
    assert(direct@.take(i as int) =~= direct@);
    candidates
}

/// The node `x` can be reached from `v` in one or two steps.
pub open spec fn near(adj: Seq<Seq<usize>>, v: usize, x: usize) -> bool {
    exists|u: usize| #[trigger]
        adj[v as int].contains(u) && (x == u || adj[u as int].contains(x))
}

proof fn lemma_walk_members(adj: Seq<Seq<usize>>, nbrs: Seq<usize>, x: usize)
    ensures
        two_hop_walk(adj, nbrs).contains(x) <==> exists|u: usize| #[trigger]
            nbrs.contains(u) && (x == u || adj[u as int].contains(x)),
    decreases nbrs.len(),
{
    if nbrs.len() > 0 {
        let rest = nbrs.drop_last();
        let last = nbrs.last();
        lemma_walk_members(adj, rest, x);
        let before = two_hop_walk(adj, rest);
        let walk = two_hop_walk(adj, nbrs);
        assert forall|u: usize| #[trigger] nbrs.contains(u) <==> rest.contains(u) || u == last by {
            if rest.contains(u) {
                let i = choose|i: int| 0 <= i < rest.len() && rest[i] == u;
                assert(nbrs[i] == u);
            }
            if u == last {
                assert(nbrs[nbrs.len() - 1] == u);
            }
            if nbrs.contains(u) && u != last {
                let i = choose|i: int| 0 <= i < nbrs.len() && nbrs[i] == u;
                assert(rest[i] == u);
            }
        }
        if walk.contains(x) {
            let i = choose|i: int| 0 <= i < walk.len() && walk[i] == x;
            if i < before.len() {
                assert(before.contains(x)) by {
                    assert(before[i] == x);
                }
                let u = choose|u: usize| #[trigger]
                    rest.contains(u) && (x == u || adj[u as int].contains(x));
                assert(nbrs.contains(u));
            } else if i == before.len() {
                assert(nbrs.contains(last));
            } else {
                assert(adj[last as int][i - before.len() - 1] == x);
                assert(nbrs.contains(last));
            }
        }
        if exists|u: usize| #[trigger] nbrs.contains(u) && (x == u || adj[u as int].contains(x)) {
            let u = choose|u: usize| #[trigger]
                nbrs.contains(u) && (x == u || adj[u as int].contains(x));
            if rest.contains(u) {
                assert(before.contains(x));
                let i = choose|i: int| 0 <= i < before.len() && before[i] == x;
                assert(walk[i] == x);
            } else if x == last {
                assert(walk[before.len() as int] == x);
            } else {
                let j = choose|j: int| 0 <= j < adj[last as int].len() && adj[last as int][j] == x;
                assert(walk[before.len() + 1 + j] == x);
            }
        }
    }
}

/// An expanded list holds, nearest first and each once, nodes other than `v` that are one or two
/// steps away; if it is not full, it holds all of them.
pub proof fn law_expanded_list(
    adj: Seq<Seq<usize>>,
    distance: spec_fn(usize, usize) -> i64,
    v: usize,
    bound: nat,
)
    requires
        v < adj.len(),
    ensures
        ({
            let list = expanded_list(adj, distance, v, bound);
            &&& list.len() <= bound
            &&& list.no_duplicates()
            &&& forall|i: int|
                0 <= i < list.len() ==> #[trigger] list[i] != v && near(adj, v, list[i])
            &&& forall|i: int, j: int|
                0 <= i < j < list.len() ==> distance(v, #[trigger] list[i]) <= distance(
                    v,
                    #[trigger] list[j],
                )
            &&& list.len() < bound ==> forall|x: usize|
                x != v && #[trigger] near(adj, v, x) ==> list.contains(x)
            &&& forall|x: usize, i: int|
                x != v && #[trigger] near(adj, v, x) && !list.contains(x) && 0 <= i < list.len()
                    ==> nearer(|u: usize| distance(v, u), #[trigger] list[i], x)
        }),
{
    let walk = two_hop_walk(adj, adj[v as int]);
    let found = two_hop(adj, v);
    let score = |u: usize| distance(v, u);
    let items = arranged(found, score);
    let all = ids(items);
    let list = expanded_list(adj, distance, v, bound);
    lemma_fresh(walk, set![v]);
    lemma_arranged(found, score);
    assert(all.to_set() =~= found.to_set()) by {
        assert forall|x: usize| found.contains(x) implies all.contains(x) by {
            let item = ScoredItem { distance: score(x), vector: x };
            assert(items.contains(item));
            let i = choose|i: int| 0 <= i < items.len() && items[i] == item;
            assert(all[i] == x);
        }
        assert forall|x: usize| all.contains(x) implies found.contains(x) by {
            let i = choose|i: int| 0 <= i < all.len() && all[i] == x;
            assert(items.contains(items[i]));
        }
    }
    found.unique_seq_to_set();
    lemma_distinct_by_size(all);
    assert forall|i: int| 0 <= i < list.len() implies #[trigger] list[i] != v && near(
        adj,
        v,
        list[i],
    ) by {
        assert(list[i] == all[i]);
        assert(all.contains(all[i]));
        assert(all.to_set().contains(all[i]));
        assert(found.contains(all[i]));
        lemma_walk_members(adj, adj[v as int], all[i]);
    }
    assert forall|i: int, j: int| 0 <= i < j < list.len() implies distance(v, #[trigger] list[i])
        <= distance(v, #[trigger] list[j]) by {
        assert(items.contains(items[i]) && items.contains(items[j]));
        assert(!before(items[j], items[i]));
    }
    if list.len() < bound {
        assert forall|x: usize| x != v && #[trigger] near(adj, v, x) implies list.contains(x) by {
            lemma_walk_members(adj, adj[v as int], x);
            assert(found.contains(x));
            assert(found.to_set().contains(x));
            assert(all.contains(x));
        }
    }
    assert forall|x: usize, i: int|
        x != v && #[trigger] near(adj, v, x) && !list.contains(x) && 0 <= i
            < list.len() implies nearer(|u: usize| distance(v, u), #[trigger] list[i], x) by {
        lemma_walk_members(adj, adj[v as int], x);
        assert(found.contains(x));
        assert(found.to_set().contains(x));
        assert(all.contains(x));
        let j = choose|j: int| 0 <= j < all.len() && all[j] == x;
        if j < list.len() {
            assert(list[j] == x);
        }
        assert(items.contains(items[i]) && items.contains(items[j]));
        assert(!before(items[j], items[i]));
        assert(all[i] != all[j]);
    }
}

/// The nodes other than `v` that are one or two steps away from it.
pub open spec fn two_steps_around(adj: Seq<Seq<usize>>, v: usize) -> Set<usize> {
    Set::new(
        |x: usize|
            x != v && (adj[v as int].contains(x) || exists|u: usize| #[trigger]
                adj[v as int].contains(u) && adj[u as int].contains(x)),
    )
}

/// An expanded list holds the nodes nearest to `v` of all that are one or two steps away: as many
/// as the bound allows, nearest first.
pub proof fn law_expanded_list_holds_the_nearest(
    adj: Seq<Seq<usize>>,
    distance: spec_fn(usize, usize) -> i64,
    v: usize,
    bound: nat,
)
    requires
        v < adj.len(),
    ensures
        nearest_nodes(
            |u: usize| distance(v, u),
            two_steps_around(adj, v),
            bound,
            expanded_list(adj, distance, v, bound),
        ),
{
    let list = expanded_list(adj, distance, v, bound);
    let score = |u: usize| distance(v, u);
    let from = two_steps_around(adj, v);
    let items = list.map_values(|u: usize| ScoredItem { distance: distance(v, u), vector: u });
    law_expanded_list(adj, distance, v, bound);
    let arrangement = arranged(two_hop(adj, v), score);
    lemma_arranged(two_hop(adj, v), score);
    assert(ids(items) =~= list);
    assert forall|x: usize| #[trigger] from.contains(x) <==> x != v && near(adj, v, x) by {
        if from.contains(x) {
            if adj[v as int].contains(x) {
                assert(near(adj, v, x));
            }
        }
    }
    assert forall|i: int| 0 <= i < items.len() implies {
        let x = #[trigger] items[i];
        from.contains(x.vector) && x.distance == score(x.vector)
    } by {
        assert(near(adj, v, list[i]));
    }
    assert forall|i: int, j: int| 0 <= i < j < items.len() implies nearer(
        score,
        (#[trigger] items[i]).vector,
        (#[trigger] items[j]).vector,
    ) by {
        assert(list[i] == arrangement[i].vector && list[j] == arrangement[j].vector);
        assert(arrangement.contains(arrangement[i]) && arrangement.contains(arrangement[j]));
        assert(!before(arrangement[j], arrangement[i]));
        assert(list[i] != list[j]);
    }
    assert forall|id: usize| #[trigger] from.contains(id) && !among(items, id) implies items.len()
        == bound && forall|i: int|
        0 <= i < items.len() ==> nearer(score, (#[trigger] items[i]).vector, id) by {
        assert(near(adj, v, id));
        if list.contains(id) {
            let i = choose|i: int| 0 <= i < list.len() && list[i] == id;
            assert(items[i].vector == id);
        }
        assert forall|i: int| 0 <= i < items.len() implies nearer(
            score,
            (#[trigger] items[i]).vector,
            id,
        ) by {
            assert(nearer(|u: usize| distance(v, u), list[i], id));
        }
    }
    assert(nearest_items(score, from, bound, items));
}

/// A sequence with as many members as items has no duplicates.
proof fn lemma_distinct_by_size(s: Seq<usize>)
    requires
        s.to_set().len() == s.len(),
    ensures
        s.no_duplicates(),
    decreases s.len(),
{
    if s.len() > 0 {
        let rest = s.drop_last();
        assert(rest.push(s.last()) =~= s);
        rest.lemma_push_to_set_commute(s.last());
        rest.lemma_cardinality_of_set();
        if rest.contains(s.last()) {
            assert(s.to_set() =~= rest.to_set());
        }
        assert(rest.to_set().finite());
        assert(rest.to_set().len() == rest.len());
        lemma_distinct_by_size(rest);
    }
}

/// An expanded list is at least as long as the list of direct neighbours, if those are different
/// nodes other than `v` and fit the bound.
pub proof fn law_expansion_does_not_shrink(
    adj: Seq<Seq<usize>>,
    distance: spec_fn(usize, usize) -> i64,
    v: usize,
    bound: nat,
)
    requires
        v < adj.len(),
        adj[v as int].no_duplicates(),
        !adj[v as int].contains(v),
        adj[v as int].len() <= bound,
    ensures
        expanded_list(adj, distance, v, bound).len() >= adj[v as int].len(),
{
    let list = expanded_list(adj, distance, v, bound);
    let direct = adj[v as int];
    law_expanded_list(adj, distance, v, bound);
    if list.len() < bound {
        assert(direct.to_set().subset_of(list.to_set())) by {
            assert forall|x: usize| direct.contains(x) implies list.contains(x) by {
                assert(near(adj, v, x));
            }
        }
        direct.unique_seq_to_set();
        list.unique_seq_to_set();
        list.lemma_cardinality_of_set();
        vstd::set_lib::lemma_len_subset(direct.to_set(), list.to_set());
    }
}

impl<D: Dataset, G: GraphTrait> HNSW<D, G> {
    /// The distance between two stored vectors, the first one in the place of a query.
    pub open spec fn vector_distances(&self) -> spec_fn(usize, usize) -> i64 {
        |a: usize, b: usize| self.spec_dataset().vector_distance(a, b)
    }

    /// Expanded neighbour lists of the ground level: the neighbours of each node and theirs,
    /// nearest first, cut at `gamma` times the number of neighbours per vector.
    pub fn build_acorn_gamma_neighbors(&self, gamma: usize) -> (acorn_gamma: AcornGammaNeighbors)
        requires
            self.wf(),
            gamma * self.spec_num_neighbors() <= usize::MAX,
        ensures
            acorn_gamma.wf(),
            acorn_gamma.model() == expanded(
                self.ground().adj,
                self.vector_distances(),
                max((gamma * self.spec_num_neighbors()) as nat, 1) as usize,
            ),
            closed(acorn_gamma.model().adj),
            acorn_gamma.model().adj.len() == self.spec_dataset().n_vectors(),
            forall|v: usize|
                v < acorn_gamma.model().adj.len() ==> nearest_nodes(
                    |u: usize| self.spec_dataset().vector_distance(v, u),
                    two_steps_around(self.ground().adj, v),
                    max((gamma * self.spec_num_neighbors()) as nat, 1),
                    #[trigger] acorn_gamma.model().adj[v as int],
                ),
    {
        let ghost adj = self.ground().adj;
        let ghost distance = self.vector_distances();
        let n: usize = self.dataset.len();
        let product: usize = gamma * self.num_neighbors_per_vec;
        let gamma_m: usize = if product >= 1 {
            product
        } else {
            1
        };
        proof {
            self.lemma_ground();
        }
        let ground = &self.levels[self.levels.len() - 1];
        let mut neighbors: Vec<Vec<usize>> = Vec::new();
        let mut v: usize = 0;
        while v < n
            invariant
                self.wf(),
                ground.wf(),
                adj == ground.model().adj,
                closed(adj),
                adj.len() == n,
                n == self.dataset.n_vectors(),
                distance == self.vector_distances(),
                v <= n,
                neighbors@.len() == v,
                forall|u: int|
                    0 <= u < v ==> {
                        &&& (#[trigger] neighbors@[u])@.len() <= gamma_m
                        &&& neighbors@[u]@ == expanded_list(
                            adj,
                            distance,
                            u as usize,
                            gamma_m as nat,
                        )
                        &&& forall|i: int|
                            0 <= i < neighbors@[u]@.len() ==> #[trigger] neighbors@[u]@[i] < n
                    },
            decreases n - v,
        {
            let candidates = collect_two_hop(ground, v);
            let evaluator = self.dataset.vector_evaluator(v);
            let ghost score = |u: usize| distance(v, u);
            let mut scored = TopList::new();
            let mut i: usize = 0;
            while i < candidates.len()
                invariant
                    i <= candidates@.len(),
                    evaluator.n_known() == n,
                    forall|id: usize| #[trigger]
                        evaluator.distance_to(id) == self.spec_dataset().vector_distance(v, id),
                    distance == self.vector_distances(),
                    score == (|u: usize| distance(v, u)),
                    forall|l: int| 0 <= l < candidates@.len() ==> #[trigger] candidates@[l] < n,
                    scored@ == arranged(candidates@.take(i as int), score),
                    in_order(scored@),
                decreases candidates@.len() - i,
            {
                let u = candidates[i];
                proof {
                    lemma_take_push(candidates@, i as int);
                }
                scored.push(ScoredItem { distance: evaluator.compute_distance(u), vector: u });
                i += 1;
            }
            assert(candidates@.take(i as int) =~= candidates@);
            let ghost all = scored@;
            let mut list: Vec<usize> = Vec::new();
            let mut j: usize = 0;
            while j < scored.len() && j < gamma_m
                invariant
                    all == scored@,
                    j <= all.len(),
                    j <= gamma_m,
                    list@ == ids(all).take(j as int),
                decreases all.len() - j,
            {
                list.push(scored.item(j).vector);
                j += 1;
                assert(list@ =~= ids(all).take(j as int));
            }
            proof {
                assert(list@ =~= first(ids(all), gamma_m as nat));
                lemma_arranged(candidates@, score);
                assert forall|l: int| 0 <= l < list@.len() implies #[trigger] list@[l] < n by {
                    assert(all.contains(all[l]));
                    assert(candidates@.contains(all[l].vector));
                    let c = choose|c: int|
                        0 <= c < candidates@.len() && candidates@[c] == all[l].vector;
                    assert(candidates@[c] < n);
                }
            }
            neighbors.push(list);
            v += 1;
        }
        let acorn_gamma = AcornGammaNeighbors { neighbors, gamma_m };
        assert(acorn_gamma.model().adj =~= expanded(adj, distance, gamma_m).adj);
        proof {
            assert forall|v: usize| v < adj.len() implies nearest_nodes(
                |u: usize| self.spec_dataset().vector_distance(v, u),
                two_steps_around(adj, v),
                gamma_m as nat,
                #[trigger] acorn_gamma.model().adj[v as int],
            ) by {
                law_expanded_list_holds_the_nearest(adj, distance, v, gamma_m as nat);
                assert((|u: usize| distance(v, u)) =~= (|u: usize|
                    self.spec_dataset().vector_distance(v, u)));
            }
        }
        acorn_gamma
    }

    /// The `k` approximate nearest vectors to `query` that the predicate accepts, nearest first,
    /// searched on expanded neighbour lists.
    ///
    /// Nodes that fail are skipped; no list is expanded during the search.
    pub fn search_filtered_gamma<'q, F: Fn(usize) -> bool>(
        &'q self,
        query: D::Query<'q>,
        k: usize,
        search_params: &HNSWSearchConfiguration,
        acorn_gamma: &AcornGammaNeighbors,
        predicate: F,
    ) -> (results: Vec<ScoredItem>)
        requires
            self.wf(),
            self.spec_dataset().fits(query),
            acorn_gamma.wf(),
            closed(acorn_gamma.model().adj),
            acorn_gamma.model().adj.len() == self.spec_dataset().n_vectors(),
            acorn_gamma.model().decided_by(predicate),
        ensures
            results@ == ({
                let m = self.query_search(acorn_gamma.model(), query, k, search_params);
                let pass = acorn_gamma.model().passing(predicate);
                first(
                    m.outcome(
                        m.passing_expansion(pass),
                        start_filtered(self.ground_start(query), pass),
                    ),
                    k as nat,
                )
            }),
            forall|pass: spec_fn(usize) -> bool| #[trigger]
                acorn_gamma.model().decided_as(predicate, pass) ==> results@ == ({
                    let m = self.query_search(acorn_gamma.model(), query, k, search_params);
                    first(
                        m.outcome(
                            m.passing_expansion(pass),
                            start_filtered(self.ground_start(query), pass),
                        ),
                        k as nat,
                    )
                }),
            self.results_of(query, k as nat, |id: usize| accepts(predicate, id), results@),
            arrives_at(
                self.level_models(),
                |id: usize| self.spec_dataset().query_distance(query, id),
                self.spec_entry_point(),
                self.ground_start(query).vector,
            ),
            ({
                let lambda: u32 = match search_params.early_termination {
                    EarlyTerminationStrategy::Standard => 0,
                    EarlyTerminationStrategy::DistanceAdaptive { lambda } => lambda,
                };
                let size: usize = if search_params.ef_search >= k {
                    search_params.ef_search
                } else {
                    k
                };
                let distance = |id: usize| self.spec_dataset().query_distance(query, id);
                let within = |d: i64, w: i64| D::within(d, w, lambda);
                size > 0 && well_behaved(
                    distance,
                    within,
                    self.spec_dataset().n_vectors() as nat,
                ) ==> forall|pass: spec_fn(usize) -> bool| #[trigger]
                    acorn_gamma.model().decided_as(predicate, pass) ==> finds_nearest(
                        neighbors_shown(acorn_gamma.model().adj),
                        distance,
                        within,
                        size as nat,
                        pass,
                        self.ground_start(query).vector,
                        k as nat,
                        results@,
                    )
            }),
    {
        let evaluator = self.dataset.query_evaluator(query);
        let entry = self.find_ground_entry(&evaluator);
        let ef: usize = if search_params.ef_search >= k {
            search_params.ef_search
        } else {
            k
        };
        let lambda: u32 = search_params.early_termination.lambda();
        proof {
            lemma_search_eq::<D, D::Evaluator<'q>>(
                self.level_models(),
                acorn_gamma.model(),
                &evaluator,
                self.query_distances(query),
                ef,
                k,
                lambda,
                self.entry_point,
            );
        }
        proof {
            let g = acorn_gamma.model();
            let m = self.query_search(g, query, k, search_params);
            let pass = g.passing(predicate);
            law_skipping_search_is_sound(m, entry, pass);
            self.law_index_searches_are_best_first(g, query, k, search_params, pass);
            self.lemma_results(
                g,
                query,
                k,
                search_params,
                pass,
                m.outcome(m.passing_expansion(pass), start_filtered(entry, pass)),
            );
        }
        let top_candidates = acorn_gamma.acorn_gamma_search_filtered(
            &evaluator,
            entry,
            ef,
            k,
            lambda,
            &predicate,
        );
        let mut results = top_candidates.into_sorted_vec();
        results.truncate(k);
        proof {
            let size: usize = ef;
            let distance = |id: usize| self.spec_dataset().query_distance(query, id);
            let within = |d: i64, w: i64| D::within(d, w, lambda);
            let start_node = self.ground_start(query).vector;
            if size > 0 && well_behaved(
                distance,
                within,
                self.spec_dataset().n_vectors() as nat,
            ) {
                assert forall|pass: spec_fn(usize) -> bool| #[trigger]
                    acorn_gamma.model().decided_as(predicate, pass) implies finds_nearest(
                    neighbors_shown(acorn_gamma.model().adj),
                    distance,
                    within,
                    size as nat,
                    pass,
                    start_node,
                    k as nat,
                    results@,
                ) by {
                    self.law_index_searches_are_best_first(
                        acorn_gamma.model(),
                        query,
                        k,
                        search_params,
                        pass,
                    );
                    let m = self.query_search(acorn_gamma.model(), query, k, search_params);
                    let found = m.outcome(
                        m.passing_expansion(pass),
                        start_filtered(self.ground_start(query), pass),
                    );
                    assert(ends_with(
                        neighbors_shown(acorn_gamma.model().adj),
                        distance,
                        within,
                        size as nat,
                        pass,
                        start_node,
                        found,
                    ));
                    assert(results@ == first(found, k as nat));
                }
            }
        }
        results
    }
}

} // verus!
