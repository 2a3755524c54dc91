//! Graphs whose nodes are put in another order.
use crate::beam::closed;
use crate::graph::{lemma_take_push, Graph, GraphModel, GraphTrait};
use crate::permutation::{
    invert_mapping, inverted, is_permutation, law_inverse_takes_back, takes_back,
};
use vstd::prelude::*;

verus! {

/// The most nodes whose ids fit in a `u32`.
pub const MAX_NODES: usize = 0xffff_ffff;

/// `list` with every node called by its new id.
pub open spec fn renamed(list: Seq<usize>, new_ids: Seq<usize>) -> Seq<usize> {
    list.map_values(|id: usize| new_ids[id as int])
}

/// The adjacency lists after the nodes were put in the order `order`, which takes node `id` to
/// `new_ids[id]`.
pub open spec fn reordered(
    adj: Seq<Seq<usize>>,
    order: Seq<usize>,
    new_ids: Seq<usize>,
) -> Seq<Seq<usize>> {
    Seq::new(order.len(), |new_id: int| renamed(adj[order[new_id] as int], new_ids))
}

/// The ground level after every node went to its place in `permutation`.
pub open spec fn remapped_ground(g: GraphModel, permutation: Seq<usize>) -> GraphModel {
    GraphModel {
        adj: reordered(g.adj, inverted(permutation), permutation),
        ids: None,
        max_degree: g.max_degree,
    }
}

/// An upper level after its nodes were put in the order `order` and their vectors went to their
/// places in `permutation`.
pub open spec fn remapped_level(
    g: GraphModel,
    order: Seq<usize>,
    permutation: Seq<usize>,
) -> GraphModel {
    GraphModel {
        adj: reordered(g.adj, order, inverted(order)),
        ids: Some(
            Seq::new(
                order.len(),
                |new_id: int| permutation[g.external(order[new_id]) as int],
            ),
        ),
        max_degree: g.max_degree,
    }
}

/// Reordering the nodes keeps every link: node `new_ids[u]` links to `new_ids[v]` exactly where
/// `u` linked to `v`.
pub proof fn law_reordering_keeps_links(
    adj: Seq<Seq<usize>>,
    order: Seq<usize>,
    new_ids: Seq<usize>,
)
    requires
        closed(adj),
        is_permutation(order),
        is_permutation(new_ids),
        order.len() == adj.len(),
        new_ids.len() == adj.len(),
        takes_back(new_ids, order),
    ensures
        closed(reordered(adj, order, new_ids)),
        reordered(adj, order, new_ids).len() == adj.len(),
        forall|u: int|
            0 <= u < adj.len() ==> reordered(adj, order, new_ids)[(#[trigger] new_ids[u]) as int]
                == renamed(adj[u], new_ids),
{
    let r = reordered(adj, order, new_ids);
    assert forall|x: int, j: int| 0 <= x < r.len() && 0 <= j < r[x].len() implies #[trigger] r[x][j]
        < r.len() by {
        assert(order[x] < order.len());
        assert(adj[order[x] as int][j] < adj.len());
        assert(new_ids[adj[order[x] as int][j] as int] < new_ids.len());
    }
    assert forall|u: int| 0 <= u < adj.len() implies r[(#[trigger] new_ids[u]) as int] == renamed(
        adj[u],
        new_ids,
    ) by {
        assert(new_ids[u] < new_ids.len());
        assert(order[new_ids[u] as int] == u);
    }
}

impl Graph {
    /// The graph with its nodes in the order `order`, without dataset ids.
    fn relabel(&self, order: &[usize], new_ids: &[usize]) -> (graph: Graph)
        requires
            self.wf(),
            closed(self.model().adj),
            self.model().adj.len() <= MAX_NODES,
            order@.len() == self.model().adj.len(),
            new_ids@.len() == self.model().adj.len(),
            is_permutation(order@),
            is_permutation(new_ids@),
        ensures
            graph.wf(),
            graph.model() == (GraphModel {
                adj: reordered(self.model().adj, order@, new_ids@),
                ids: None,
                max_degree: self.model().max_degree,
            }),
    {
        let ghost g = self.model();
        let ghost expected = reordered(g.adj, order@, new_ids@);
        let n: usize = self.n_nodes();
        let mut graph = Graph::empty(self.max_degree());
        let mut new_id: usize = 0;
        proof {
            self.lemma_valid();
            assert(expected.take(0) =~= Seq::<Seq<usize>>::empty());
        }
        while new_id < n
            invariant
                self.wf(),
                g == self.model(),
                g.valid(),
                closed(g.adj),
                g.adj.len() <= MAX_NODES,
                order@.len() == g.adj.len(),
                new_ids@.len() == g.adj.len(),
                is_permutation(order@),
                is_permutation(new_ids@),
                expected == reordered(g.adj, order@, new_ids@),
                n == g.adj.len(),
                new_id <= n,
                graph.wf(),
                graph.n_offsets() == new_id + 1,
                graph.model() == (GraphModel {
                    adj: expected.take(new_id as int),
                    ids: None,
                    max_degree: g.max_degree,
                }),
            decreases n - new_id,
        {
            let old_id: usize = order[new_id];
            assert(old_id < n);
            let nbrs = self.neighbors(old_id);
            let mut list: Vec<usize> = Vec::new();
            let mut j: usize = 0;
            assert(renamed(nbrs@.take(0), new_ids@) =~= Seq::empty());
            while j < nbrs.len()
                invariant
                    closed(g.adj),
                    old_id < g.adj.len(),
                    nbrs@ == g.adj[old_id as int],
                    new_ids@.len() == g.adj.len(),
                    is_permutation(new_ids@),
                    j <= nbrs@.len(),
                    list@ == renamed(nbrs@.take(j as int), new_ids@),
                    forall|l: int| 0 <= l < list@.len() ==> #[trigger] list@[l] < g.adj.len(),
                decreases nbrs@.len() - j,
            {
                let id: usize = nbrs[j];
                assert(id < g.adj.len());
                assert(new_ids@[id as int] < new_ids@.len());
                list.push(new_ids[id]);
                j += 1;
                assert(list@ =~= renamed(nbrs@.take(j as int), new_ids@));
            }
            proof {
                assert(nbrs@.take(j as int) =~= nbrs@);
                assert(g.adj[old_id as int].len() <= g.max_degree);
                lemma_take_push(expected, new_id as int);
            }
            graph.append(list.as_slice());
            new_id += 1;
        }
        assert(expected.take(n as int) =~= expected);
        graph
    }

    /// The ground level after every node went to its place in `permutation`, and the inverse of
    /// `permutation`.
    pub fn remap_ground_with_permutation(&self, permutation: &[usize]) -> (result: (
        Graph,
        Vec<usize>,
    ))
        requires
            self.wf(),
            closed(self.model().adj),
            self.model().adj.len() <= MAX_NODES,
            permutation@.len() == self.model().adj.len(),
            is_permutation(permutation@),
        ensures
            result.0.wf(),
            result.0.model() == remapped_ground(self.model(), permutation@),
            result.1@ == inverted(permutation@),
    {
        proof {
            law_inverse_takes_back(permutation@);
        }
        let inverse = invert_mapping(permutation);
        let graph = self.relabel(inverse.as_slice(), permutation);
        (graph, inverse)
    }

    /// An upper level after its nodes were put in the order `old_locals_by_new_local` and their
    /// vectors went to their places in `permutation`, and the new local id of each old one.
    pub fn remap_level_with_old_local_order(
        &self,
        old_locals_by_new_local: &[usize],
        permutation: &[usize],
    ) -> (result: (Graph, Vec<usize>))
        requires
            self.wf(),
            closed(self.model().adj),
            self.model().adj.len() <= MAX_NODES,
            self.model().ids_below(permutation@.len()),
            old_locals_by_new_local@.len() == self.model().adj.len(),
            is_permutation(old_locals_by_new_local@),
        ensures
            result.0.wf(),
            result.0.model() == remapped_level(
                self.model(),
                old_locals_by_new_local@,
                permutation@,
            ),
            result.1@ == inverted(old_locals_by_new_local@),
    {
        let ghost g = self.model();
        let ghost order = old_locals_by_new_local@;
        proof {
            law_inverse_takes_back(order);
        }
        let local_mapping = invert_mapping(old_locals_by_new_local);
        let mut graph = self.relabel(old_locals_by_new_local, local_mapping.as_slice());
        let ghost expected = Seq::new(
            order.len(),
            |new_id: int| permutation@[g.external(order[new_id]) as int],
        );
        let n: usize = self.n_nodes();
        let mut ids: Vec<usize> = Vec::new();
        let mut i: usize = 0;
        while i < n
            invariant
                self.wf(),
                g == self.model(),
                g.ids_below(permutation@.len()),
                n == g.adj.len(),
                order == old_locals_by_new_local@,
                order.len() == n,
                is_permutation(order),
                expected == Seq::new(
                    order.len(),
                    |new_id: int| permutation@[g.external(order[new_id]) as int],
                ),
                i <= n,
                ids@ == expected.take(i as int),
            decreases n - i,
        {
            let old_local: usize = old_locals_by_new_local[i];
            assert(old_local < n);
            assert(g.has_external(old_local));
            ids.push(permutation[self.get_external_id(old_local)]);
            i += 1;
            assert(ids@ =~= expected.take(i as int));
        }
        assert(expected.take(n as int) =~= expected);
        graph.set_ids(Some(ids));
        (graph, local_mapping)
    }
}

} // verus!
