//! How the links of a new node are chosen.
use crate::beam::{closed, max, start};
use crate::dataset::{Dataset, QueryEvaluator};
use crate::graph::growable::links_view;
use crate::graph::selection::{
    kept_around, kept_of, law_reverse_lists, law_selection_is_maximal,
};
use crate::graph::{lemma_take_push, GraphModel, GraphTrait, GrowableGraph};
use crate::scored::{ids, in_order, lemma_place, place, ScoredItem, TopList};
use crate::soundness::law_search_is_sound;
use vstd::prelude::*;

verus! {

/// The distance between two nodes of `g`.
pub open spec fn node_distance<D: Dataset>(dataset: &D, g: GraphModel) -> spec_fn(
    usize,
    usize,
) -> i64 {
    |a: usize, b: usize| dataset.pair_distance(g.external(a), g.external(b))
}

/// `x` is at least as near to the query as to every item of `kept`.
pub open spec fn stands_apart(
    kept: Seq<ScoredItem>,
    x: ScoredItem,
    distance: spec_fn(usize, usize) -> i64,
) -> bool {
    forall|i: int|
        0 <= i < kept.len() ==> distance(x.vector, (#[trigger] kept[i]).vector) >= x.distance
}

/// The selection heuristic: going through `items`, each one is kept that stands apart from those
/// kept before, until `max_size` are kept.
pub open spec fn diverse(
    items: Seq<ScoredItem>,
    distance: spec_fn(usize, usize) -> i64,
    max_size: nat,
) -> Seq<ScoredItem>
    decreases items.len(),
{
    if items.len() == 0 {
        Seq::empty()
    } else {
        let kept = diverse(items.drop_last(), distance, max_size);
        let full = kept.len() > 0 && kept.len() >= max_size;
        if !full && stands_apart(kept, items.last(), distance) {
            kept.push(items.last())
        } else {
            kept
        }
    }
}

/// The neighbours that are kept of `items`: all of them if they are few enough, else those that
/// the selection heuristic keeps.
pub open spec fn shrunk(
    items: Seq<ScoredItem>,
    distance: spec_fn(usize, usize) -> i64,
    max_size: nat,
) -> Seq<usize> {
    if items.len() <= max_size {
        ids(items)
    } else {
        ids(diverse(items, distance, max_size))
    }
}

/// The nodes of `list` with their scores, nearest first.
pub open spec fn arranged(list: Seq<usize>, score: spec_fn(usize) -> i64) -> Seq<ScoredItem>
    decreases list.len(),
{
    if list.len() == 0 {
        Seq::empty()
    } else {
        place(
            arranged(list.drop_last(), score),
            ScoredItem { distance: score(list.last()), vector: list.last() },
        )
    }
}

/// The new list of `node` once `inserted` links to it.
pub open spec fn relisted(
    g: GraphModel,
    distance: spec_fn(usize, usize) -> i64,
    node: usize,
    inserted: usize,
) -> Seq<usize> {
    shrunk(
        arranged(g.adj[node as int].push(inserted), |id: usize| distance(node, id)),
        distance,
        g.max_degree as nat,
    )
}

/// The new lists of all nodes that `inserted` links to.
pub open spec fn reverse_links(
    g: GraphModel,
    distance: spec_fn(usize, usize) -> i64,
    inserted: usize,
    forward: Seq<usize>,
) -> Seq<(usize, Seq<usize>)> {
    forward.map_values(|node: usize| (node, relisted(g, distance, node, inserted)))
}

/// A kept item stays kept, and once enough are kept nothing is added.
proof fn lemma_diverse_full(
    items: Seq<ScoredItem>,
    distance: spec_fn(usize, usize) -> i64,
    max_size: nat,
    i: int,
)
    requires
        0 <= i <= items.len(),
        diverse(items.take(i), distance, max_size).len() > 0,
        diverse(items.take(i), distance, max_size).len() >= max_size,
    ensures
        diverse(items, distance, max_size) == diverse(items.take(i), distance, max_size),
    decreases items.len() - i,
{
    if i < items.len() {
        lemma_take_push(items, i);
        lemma_diverse_full(items, distance, max_size, i + 1);
    } else {
        assert(items.take(i) =~= items);
    }
}

/// Only given items are kept, each at most once, and no more than `max_size` (but one in any
/// case).
proof fn lemma_diverse(
    items: Seq<ScoredItem>,
    distance: spec_fn(usize, usize) -> i64,
    max_size: nat,
)
    ensures
        diverse(items, distance, max_size).len() <= items.len(),
        diverse(items, distance, max_size).len() <= max(max_size, 1),
        forall|i: int|
            0 <= i < diverse(items, distance, max_size).len() ==> items.contains(
                #[trigger] diverse(items, distance, max_size)[i],
            ),
    decreases items.len(),
{
    if items.len() > 0 {
        let rest = items.drop_last();
        lemma_diverse(rest, distance, max_size);
        let kept = diverse(rest, distance, max_size);
        assert forall|i: int| 0 <= i < kept.len() implies items.contains(#[trigger] kept[i]) by {
            assert(rest.contains(kept[i]));
            let j = choose|j: int| 0 <= j < rest.len() && rest[j] == kept[i];
            assert(items[j] == kept[i]);
        }
        assert(items.contains(items[items.len() - 1]));
    }
}

/// The nearest candidate is always kept, and every other one that is kept is at least as near to
/// the query as to each one kept before it.
pub proof fn law_kept_neighbors_stand_apart(
    items: Seq<ScoredItem>,
    distance: spec_fn(usize, usize) -> i64,
    max_size: nat,
)
    ensures
        items.len() > 0 ==> diverse(items, distance, max_size).len() > 0 && diverse(
            items,
            distance,
            max_size,
        )[0] == items[0],
        forall|i: int, j: int|
            0 <= i < j < diverse(items, distance, max_size).len() ==> {
                let nearer = #[trigger] diverse(items, distance, max_size)[i];
                let farther = #[trigger] diverse(items, distance, max_size)[j];
                distance(farther.vector, nearer.vector) >= farther.distance
            },
    decreases items.len(),
{
    if items.len() > 0 {
        let rest = items.drop_last();
        law_kept_neighbors_stand_apart(rest, distance, max_size);
        let kept = diverse(rest, distance, max_size);
        let all = diverse(items, distance, max_size);
        if rest.len() == 0 {
            assert(stands_apart(kept, items.last(), distance));
        }
        assert forall|i: int, j: int| 0 <= i < j < all.len() implies {
            let nearer = #[trigger] all[i];
            let farther = #[trigger] all[j];
            distance(farther.vector, nearer.vector) >= farther.distance
        } by {
            assert(all[i] == kept[i]);
            if j < kept.len() {
                assert(all[j] == kept[j]);
            }
        }
    }
}

/// Only given nodes are kept, and no more than `max_size` (but one in any case).
pub proof fn lemma_shrunk(
    items: Seq<ScoredItem>,
    distance: spec_fn(usize, usize) -> i64,
    max_size: nat,
)
    ensures
        shrunk(items, distance, max_size).len() <= max(max_size, 1),
        shrunk(items, distance, max_size).len() <= items.len(),
        forall|i: int|
            0 <= i < shrunk(items, distance, max_size).len() ==> exists|j: int|
                0 <= j < items.len() && #[trigger] shrunk(items, distance, max_size)[i] == (
                #[trigger] items[j]).vector,
{
    let list = shrunk(items, distance, max_size);
    lemma_diverse(items, distance, max_size);
    assert forall|i: int| 0 <= i < list.len() implies exists|j: int|
        0 <= j < items.len() && #[trigger] list[i] == (#[trigger] items[j]).vector by {
        if items.len() <= max_size {
            assert(list[i] == items[i].vector);
        } else {
            let kept = diverse(items, distance, max_size);
            assert(items.contains(kept[i]));
            let j = choose|j: int| 0 <= j < items.len() && items[j] == kept[i];
            assert(list[i] == items[j].vector);
        }
    }
}

fn ids_of(items: &Vec<ScoredItem>) -> (list: Vec<usize>)
    ensures
        list@ == ids(items@),
{
    let mut list: Vec<usize> = Vec::new();
    let mut i: usize = 0;
    while i < items.len()
        invariant
            i <= items@.len(),
            list@ == ids(items@.take(i as int)),
        decreases items@.len() - i,
    {
        list.push(items[i].vector);
        i += 1;
        assert(list@ =~= ids(items@.take(i as int)));
    }
    assert(items@.take(items@.len() as int) =~= items@);
    list
}

impl GrowableGraph {
    /// The neighbours to keep of `closest_vectors`, at most `max_size` of them.
    ///
    /// If there are more, a candidate is kept only if it is at least as near to the query as to
    /// every candidate kept before.
    pub fn shrink_neighbor_list<D: Dataset>(
        &self,
        dataset: &D,
        closest_vectors: &TopList,
        max_size: usize,
    ) -> (list: Vec<usize>)
        requires
            self.wf(),
            forall|i: int|
                0 <= i < closest_vectors@.len() ==> {
                    let id = (#[trigger] closest_vectors@[i]).vector;
                    self.model().has_external(id) && self.model().external(id)
                        < dataset.n_vectors()
                },
        ensures
            list@ == shrunk(
                closest_vectors@,
                node_distance(dataset, self.model()),
                max_size as nat,
            ),
            kept_of(
                closest_vectors@,
                |a: usize, b: usize|
                    dataset.pair_distance(self.model().external(a), self.model().external(b)),
                max_size as nat,
                list@,
            ),
    {
        let ghost g = self.model();
        let ghost distance = node_distance(dataset, g);
        let ghost items = closest_vectors@;
        proof {
            law_selection_is_maximal(items, distance, max_size as nat);
            assert(distance =~= (|a: usize, b: usize|
                dataset.pair_distance(self.model().external(a), self.model().external(b))));
        }
        let mut kept: Vec<ScoredItem> = Vec::new();
        let mut i: usize = 0;
        if closest_vectors.len() <= max_size {
            while i < closest_vectors.len()
                invariant
                    items == closest_vectors@,
                    i <= items.len(),
                    kept@ == items.take(i as int),
                decreases items.len() - i,
            {
                kept.push(closest_vectors.item(i));
                i += 1;
                assert(kept@ =~= items.take(i as int));
            }
            assert(items.take(items.len() as int) =~= items);
            return ids_of(&kept);
        }
        while i < closest_vectors.len()
            invariant
                self.wf(),
                g == self.model(),
                distance == node_distance(dataset, g),
                items == closest_vectors@,
                items.len() > max_size,
                forall|l: int|
                    0 <= l < items.len() ==> {
                        let id = (#[trigger] items[l]).vector;
                        g.has_external(id) && g.external(id) < dataset.n_vectors()
                    },
                forall|l: int| 0 <= l < kept@.len() ==> items.contains(#[trigger] kept@[l]),
                i <= items.len(),
                kept@ == diverse(items.take(i as int), distance, max_size as nat),
                kept@.len() == 0 || kept@.len() < max_size,
            decreases items.len() - i,
        {
            let node1 = closest_vectors.item(i);
            let external1: usize = self.get_external_id(node1.vector);
            let mut keep = true;
            let mut j: usize = 0;
            while j < kept.len() && keep
                invariant
                    self.wf(),
                    g == self.model(),
                    distance == node_distance(dataset, g),
                    forall|l: int|
                        0 <= l < items.len() ==> {
                            let id = (#[trigger] items[l]).vector;
                            g.has_external(id) && g.external(id) < dataset.n_vectors()
                        },
                    forall|l: int| 0 <= l < kept@.len() ==> items.contains(#[trigger] kept@[l]),
                    j <= kept@.len(),
                    external1 == g.external(node1.vector),
                    external1 < dataset.n_vectors(),
                    keep ==> forall|l: int|
                        0 <= l < j ==> distance(node1.vector, (#[trigger] kept@[l]).vector)
                            >= node1.distance,
                    !keep ==> !stands_apart(kept@, node1, distance),
                decreases kept@.len() - j,
            {
                let node2 = kept[j];
                assert(items.contains(kept@[j as int]));
                let external2: usize = self.get_external_id(node2.vector);
                if dataset.compute_distance_between(external1, external2) < node1.distance {
                    keep = false;
                }
                j += 1;
            }
            proof {
                lemma_take_push(items, i as int);
                if keep {
                    assert(stands_apart(kept@, node1, distance));
                }
            }
            if keep {
                kept.push(node1);
                if kept.len() >= max_size {
                    proof {
                        lemma_diverse_full(items, distance, max_size as nat, i + 1);
                        law_selection_is_maximal(items, distance, max_size as nat);
                        assert(distance =~= (|a: usize, b: usize|
                            dataset.pair_distance(
                                self.model().external(a),
                                self.model().external(b),
                            )));
                    }
                    return ids_of(&kept);
                }
            }
            i += 1;
        }
        assert(items.take(items.len() as int) =~= items);
        ids_of(&kept)
    }

    /// The new lists of the nodes of `forward_neighbors` once the node to insert links to them:
    /// each one's present neighbours and the new node, shrunk to the degree bound.
    #[verifier::spinoff_prover]
    pub fn precompute_reverse_links<D: Dataset>(
        &self,
        dataset: &D,
        node_to_insert_local_id: usize,
        forward_neighbors: &[usize],
    ) -> (links: Vec<(usize, Vec<usize>)>)
        requires
            self.wf(),
            closed(self.model().adj),
            self.model().ids_below(dataset.n_vectors() as nat),
            forward_neighbors@.len() > 0 ==> {
                &&& self.model().has_external(node_to_insert_local_id)
                &&& self.model().external(node_to_insert_local_id) < dataset.n_vectors()
            },
            forall|i: int|
                0 <= i < forward_neighbors@.len() ==> #[trigger] forward_neighbors@[i]
                    < self.model().adj.len(),
        ensures
            links_view(links@) == reverse_links(
                self.model(),
                node_distance(dataset, self.model()),
                node_to_insert_local_id,
                forward_neighbors@,
            ),
            links@.len() == forward_neighbors@.len(),
            forall|i: int|
                0 <= i < links@.len() ==> {
                    let node = forward_neighbors@[i];
                    let list = self.model().adj[node as int];
                    &&& (#[trigger] links@[i]).0 == node
                    &&& list.no_duplicates() && !list.contains(node_to_insert_local_id)
                        ==> kept_around(
                        |a: usize, b: usize|
                            dataset.pair_distance(
                                self.model().external(a),
                                self.model().external(b),
                            ),
                        node,
                        list.to_set().insert(node_to_insert_local_id),
                        list.len() + 1,
                        self.model().max_degree as nat,
                        links@[i].1@,
                    )
                },
    {
        let ghost g = self.model();
        let ghost distance = node_distance(dataset, g);
        let ghost expected = reverse_links(
            g,
            distance,
            node_to_insert_local_id,
            forward_neighbors@,
        );
        let mut links: Vec<(usize, Vec<usize>)> = Vec::new();
        let mut i: usize = 0;
        assert(links_view(links@) =~= expected.take(0));
        while i < forward_neighbors.len()
            invariant
                self.wf(),
                closed(g.adj),
                g == self.model(),
                g.ids_below(dataset.n_vectors() as nat),
                distance == node_distance(dataset, g),
                forward_neighbors@.len() > 0 ==> {
                    &&& g.has_external(node_to_insert_local_id)
                    &&& g.external(node_to_insert_local_id) < dataset.n_vectors()
                },
                forall|l: int|
                    0 <= l < forward_neighbors@.len() ==> #[trigger] forward_neighbors@[l]
                        < g.adj.len(),
                expected == reverse_links(
                    g,
                    distance,
                    node_to_insert_local_id,
                    forward_neighbors@,
                ),
                i <= forward_neighbors@.len(),
                links_view(links@) == expected.take(i as int),
            decreases forward_neighbors@.len() - i,
        {
            let node: usize = forward_neighbors[i];
            assert(node < g.adj.len());
            assert(g.has_external(node));
            let external: usize = self.get_external_id(node);
            let mut nbrs = self.neighbors(node);
            nbrs.push(node_to_insert_local_id);
            let ghost score = |id: usize| distance(node, id);
            let mut closest = TopList::new();
            let mut j: usize = 0;
            while j < nbrs.len()
                invariant
                    self.wf(),
                    closed(g.adj),
                    g == self.model(),
                    g.ids_below(dataset.n_vectors() as nat),
                    distance == node_distance(dataset, g),
                    score == (|id: usize| distance(node, id)),
                    node < g.adj.len(),
                    external == g.external(node),
                    external < dataset.n_vectors(),
                    g.has_external(node_to_insert_local_id),
                    g.external(node_to_insert_local_id) < dataset.n_vectors(),
                    nbrs@ == g.adj[node as int].push(node_to_insert_local_id),
                    j <= nbrs@.len(),
                    closest@ == arranged(nbrs@.take(j as int), score),
                    in_order(closest@),
                    forall|l: int|
                        0 <= l < closest@.len() ==> {
                            let id = (#[trigger] closest@[l]).vector;
                            g.has_external(id) && g.external(id) < dataset.n_vectors()
                        },
                decreases nbrs@.len() - j,
            {
                let id: usize = nbrs[j];
                proof {
                    lemma_take_push(nbrs@, j as int);
                    if j < g.adj[node as int].len() {
                        assert(id == g.adj[node as int][j as int]);
                        assert(id < g.adj.len());
                        assert(g.has_external(id));
                    } else {
                        assert(id == node_to_insert_local_id);
                    }
                    assert(g.has_external(id));
                    assert(g.external(id) < dataset.n_vectors());
                }
                let id_distance = dataset.compute_distance_between(
                    external,
                    self.get_external_id(id),
                );
                let x = ScoredItem { distance: id_distance, vector: id };
                let ghost before = closest@;
                closest.push(x);
                proof {
                    lemma_place(before, x);
                    assert forall|l: int| 0 <= l < closest@.len() implies {
                        let id = (#[trigger] closest@[l]).vector;
                        g.has_external(id) && g.external(id) < dataset.n_vectors()
                    } by {
                        assert(closest@.contains(closest@[l]));
                    }
                }
                j += 1;
            }
            assert(nbrs@.take(nbrs@.len() as int) =~= nbrs@);
            let list = self.shrink_neighbor_list(dataset, &closest, self.max_degree());
            let ghost before = links@;
            links.push((node, list));
            proof {
                lemma_take_push(expected, i as int);
                assert(links_view(links@) =~= links_view(before).push((node, list@)));
            }
            i += 1;
        }
        assert(expected.take(i as int) =~= expected);
        proof {
            assert(distance =~= (|a: usize, b: usize|
                dataset.pair_distance(self.model().external(a), self.model().external(b))));
            assert forall|i: int| 0 <= i < links@.len() implies {
                let node = forward_neighbors@[i];
                let list = self.model().adj[node as int];
                &&& (#[trigger] links@[i]).0 == node
                &&& list.no_duplicates() && !list.contains(node_to_insert_local_id) ==> kept_around(
                    distance,
                    node,
                    list.to_set().insert(node_to_insert_local_id),
                    list.len() + 1,
                    self.model().max_degree as nat,
                    links@[i].1@,
                )
            } by {
                let node = forward_neighbors@[i];
                let list = g.adj[node as int];
                assert(links_view(links@)[i] == (links@[i].0, links@[i].1@));
                assert(expected[i].0 == node);
                if list.no_duplicates() && !list.contains(node_to_insert_local_id) {
                    law_reverse_lists(
                        g,
                        distance,
                        node_to_insert_local_id,
                        forward_neighbors@,
                        i,
                    );
                }
            }
        }
        links
    }

    /// Finds the links of a new node.
    ///
    /// The result holds the forward neighbours of the new node, the new lists of those
    /// neighbours, and the nearest candidate found, which is the entry point for the next lower
    /// level.
    pub fn find_and_prune_neighbors<D: Dataset, E: QueryEvaluator>(
        &self,
        dataset: &D,
        evaluator: &E,
        entry_node: ScoredItem,
        ef_construction: usize,
        m: usize,
        future_local_id: usize,
    ) -> (plan: (Vec<usize>, Vec<(usize, Vec<usize>)>, ScoredItem))
        requires
            self.wf(),
            closed(self.model().adj),
            self.model().ids_below(evaluator.n_known() as nat),
            evaluator.n_known() <= dataset.n_vectors(),
            self.model().has_external(future_local_id),
            self.model().external(future_local_id) < dataset.n_vectors(),
            entry_node.vector < self.model().adj.len(),
            ({
                let s = self.model().search(evaluator, ef_construction, 0, 0);
                s.outcome(s.expansion(), start(entry_node)).len() > 0
            }),
        ensures
            ({
                let s = self.model().search(evaluator, ef_construction, 0, 0);
                let found = s.outcome(s.expansion(), start(entry_node));
                (plan.0@, links_view(plan.1@), plan.2) == insertion_plan(
                    self.model(),
                    found,
                    node_distance(dataset, self.model()),
                    m as nat,
                    future_local_id,
                )
            }),
    {
        let ghost g = self.model();
        let ghost s = g.search(evaluator, ef_construction, 0, 0);
        let neighbors_nodes = self.search_candidates_for_insert(
            evaluator,
            entry_node,
            ef_construction,
        );
        let new_entry_node = neighbors_nodes.item(0);
        let ghost found = neighbors_nodes@;
        proof {
            law_search_is_sound(s, entry_node);
            assert(g.ids_below(dataset.n_vectors() as nat)) by {
                assert forall|id: usize| id < g.adj.len() implies #[trigger] g.has_external(id)
                    && g.external(id) < dataset.n_vectors() by {
                    assert(g.has_external(id));
                }
            }
            assert forall|i: int| 0 <= i < found.len() implies {
                let id = (#[trigger] found[i]).vector;
                g.has_external(id) && g.external(id) < dataset.n_vectors()
            } by {
                assert(found[i].vector < g.adj.len());
                assert(g.has_external(found[i].vector));
            }
        }
        let forward_neighbors = self.shrink_neighbor_list(dataset, &neighbors_nodes, m);
        proof {
            lemma_shrunk(found, node_distance(dataset, g), m as nat);
            assert forall|i: int| 0 <= i < forward_neighbors@.len() implies #[trigger]
                forward_neighbors@[i] < g.adj.len() by {
                let j = choose|j: int|
                    0 <= j < found.len() && forward_neighbors@[i] == (#[trigger] found[j]).vector;
                assert(found[j].vector < g.adj.len());
            }
        }
        let links = self.precompute_reverse_links(
            dataset,
            future_local_id,
            forward_neighbors.as_slice(),
        );
        (forward_neighbors, links, new_entry_node)
    }
}

/// The links of a new node, given the candidates that were found for it: its forward neighbours,
/// the new lists of those, and the nearest candidate.
pub open spec fn insertion_plan(
    g: GraphModel,
    found: Seq<ScoredItem>,
    distance: spec_fn(usize, usize) -> i64,
    m: nat,
    inserted: usize,
) -> (Seq<usize>, Seq<(usize, Seq<usize>)>, ScoredItem) {
    let forward = shrunk(found, distance, m);
    (forward, reverse_links(g, distance, inserted, forward), found[0])
}

} // verus!
