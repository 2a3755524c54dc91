//! A read-only graph whose adjacency lists stand back to back.
use crate::graph::{lemma_take_push, n_links, GraphModel, GraphTrait};
use vstd::prelude::*;

verus! {

/// A graph whose adjacency lists span variable-length portions of one vector.
///
/// `offsets[u]` is where the neighbours of node `u` begin in `neighbors`. Node ids are stored as
/// `u32` and handed out as `usize`.
pub struct Graph {
    neighbors: Vec<u32>,
    offsets: Vec<usize>,
    ids_mapping: Option<Vec<usize>>,
    max_degree: usize,
    n_nodes: usize,
}

/// The view of an optional id mapping.
pub open spec fn mapping_view(mapping: Option<Vec<usize>>) -> Option<Seq<usize>> {
    match mapping {
        Some(ids) => Some(ids@),
        None => None,
    }
}

/// The bytes that an optional id mapping takes.
pub open spec fn mapping_bytes(ids: Option<Seq<usize>>) -> nat {
    match ids {
        Some(ids) => ids.len() * vstd::layout::size_of::<usize>(),
        None => 0,
    }
}

/// The node ids of a stored list.
pub open spec fn widened(list: Seq<u32>) -> Seq<usize> {
    list.map_values(|id: u32| id as usize)
}

/// The parts that a [`Graph`] is stored as.
pub struct GraphParts {
    pub neighbors: Vec<u32>,
    pub offsets: Vec<usize>,
    pub ids_mapping: Option<Vec<usize>>,
    pub max_degree: usize,
    pub n_nodes: usize,
}

impl GraphParts {
    /// The neighbours of node `u`.
    pub open spec fn list(&self, u: int) -> Seq<usize> {
        widened(self.neighbors@.subrange(self.offsets@[u] as int, self.offsets@[u + 1] as int))
    }

    /// The list of node `u` ends where the next one begins, and keeps the degree bound.
    pub open spec fn list_ok(&self, u: int) -> bool {
        self.offsets@[u] <= self.offsets@[u + 1] <= self.offsets@[u] + self.max_degree
    }

    /// The parts fit together: the lists stand back to back and keep the degree bound, and there
    /// is a dataset id for every node, if there are any. A graph without nodes may go without
    /// offsets.
    pub open spec fn fit(&self) -> bool {
        &&& if self.offsets@.len() == 0 {
            self.n_nodes == 0 && self.neighbors@.len() == 0
        } else {
            &&& self.offsets@.len() == self.n_nodes + 1
            &&& self.offsets@[0] == 0
            &&& self.offsets@[self.n_nodes as int] == self.neighbors@.len()
            &&& forall|u: int| 0 <= u < self.n_nodes ==> #[trigger] self.list_ok(u)
        }
        &&& self.ids_mapping matches Some(ids) ==> ids@.len() == self.n_nodes
    }

    /// The graph that the parts make up.
    pub open spec fn model(&self) -> GraphModel {
        GraphModel {
            adj: Seq::new(self.n_nodes as nat, |u: int| self.list(u)),
            ids: mapping_view(self.ids_mapping),
            max_degree: self.max_degree,
        }
    }
}

impl Graph {
    /// The graph that `parts` make up, if they fit together.
    pub fn from_parts(parts: GraphParts) -> (graph: Option<Graph>)
        ensures
            graph is Some <==> parts.fit(),
            graph matches Some(graph) ==> {
                &&& graph.wf()
                &&& graph.model() == parts.model()
                &&& graph.n_offsets() == parts.offsets@.len()
            },
    {
        let n: usize = parts.n_nodes;
        let mapping_fits = match &parts.ids_mapping {
            Some(ids) => ids.len() == n,
            None => true,
        };
        if !mapping_fits {
            return None;
        }
        if parts.offsets.len() == 0 {
            if n != 0 || parts.neighbors.len() != 0 {
                return None;
            }
        } else {
            if parts.offsets.len() - 1 != n || parts.offsets[0] != 0 || parts.offsets[n]
                != parts.neighbors.len() {
                return None;
            }
            let mut u: usize = 0;
            while u < n
                invariant
                    n == parts.n_nodes,
                    parts.offsets@.len() == n + 1,
                    u <= n,
                    forall|v: int| 0 <= v < u ==> #[trigger] parts.list_ok(v),
                    forall|v: int, w: int|
                        0 <= v <= w <= u ==> #[trigger] parts.offsets@[v]
                            <= #[trigger] parts.offsets@[w],
                decreases n - u,
            {
                let start: usize = parts.offsets[u];
                let end: usize = parts.offsets[u + 1];
                if end < start || end - start > parts.max_degree {
                    assert(!parts.list_ok(u as int));
                    return None;
                }
                assert(parts.list_ok(u as int));
                u += 1;
            }
            assert forall|v: int| 0 <= v < n implies #[trigger] parts.offsets@[v + 1]
                - parts.offsets@[v] <= parts.max_degree by {
                assert(parts.list_ok(v));
            }
        }
        let graph = Graph {
            neighbors: parts.neighbors,
            offsets: parts.offsets,
            ids_mapping: parts.ids_mapping,
            max_degree: parts.max_degree,
            n_nodes: n,
        };
        assert(graph.model().adj =~= parts.model().adj);
        Some(graph)
    }

    /// The parts that the graph is stored as.
    pub fn into_parts(self) -> (parts: GraphParts)
        requires
            self.wf(),
        ensures
            parts.fit(),
            parts.model() == self.model(),
            parts.offsets@.len() == self.n_offsets(),
    {
        let parts = GraphParts {
            neighbors: self.neighbors,
            offsets: self.offsets,
            ids_mapping: self.ids_mapping,
            max_degree: self.max_degree,
            n_nodes: self.n_nodes,
        };
        proof {
            if self.offsets@.len() > 0 {
                assert forall|u: int| 0 <= u < self.n_nodes implies #[trigger] parts.list_ok(u) by {
                    assert(self.offsets@[u] <= self.offsets@[u + 1]);
                }
            }
            assert(parts.model().adj =~= self.model().adj);
        }
        parts
    }

    /// Whether the nodes have dataset ids of their own.
    pub fn is_mapped(&self) -> (mapped: bool)
        ensures
            mapped == self.model().ids is Some,
    {
        self.ids_mapping.is_some()
    }

    /// The number of stored offsets: one per node and one for the end, or none at all in the
    /// default graph.
    pub closed spec fn n_offsets(&self) -> nat {
        self.offsets@.len()
    }

    /// A graph with nodes stores one offset per node and one for the end.
    pub proof fn law_one_offset_per_node(&self)
        requires
            self.wf(),
            self.model().adj.len() > 0,
        ensures
            self.n_offsets() == self.model().adj.len() + 1,
    {
    }

    spec fn list(&self, u: int) -> Seq<usize> {
        widened(self.neighbors@.subrange(self.offsets@[u] as int, self.offsets@[u + 1] as int))
    }

    spec fn rep_ok(&self) -> bool {
        &&& if self.offsets@.len() == 0 {
            self.n_nodes == 0 && self.neighbors@.len() == 0
        } else {
            &&& self.offsets@.len() == self.n_nodes + 1
            &&& self.offsets@[0] == 0
            &&& self.offsets@[self.n_nodes as int] == self.neighbors@.len()
            &&& forall|u: int, v: int|
                0 <= u <= v <= self.n_nodes ==> #[trigger] self.offsets@[u]
                    <= #[trigger] self.offsets@[v]
            &&& forall|u: int|
                0 <= u < self.n_nodes ==> #[trigger] self.offsets@[u + 1] - self.offsets@[u]
                    <= self.max_degree
        }
        &&& self.ids_mapping matches Some(ids) ==> ids@.len() == self.n_nodes
    }

    /// A graph without nodes, to append adjacency lists to.
    pub(crate) fn empty(max_degree: usize) -> (graph: Graph)
        ensures
            graph.wf(),
            graph.n_offsets() == 1,
            graph.model() == (GraphModel { adj: Seq::empty(), ids: None, max_degree }),
    {
        let mut offsets: Vec<usize> = Vec::new();
        offsets.push(0);
        let graph = Graph {
            neighbors: Vec::new(),
            offsets,
            ids_mapping: None,
            max_degree,
            n_nodes: 0,
        };
        assert(graph.model().adj =~= Seq::<Seq<usize>>::empty());
        graph
    }

    /// Appends a node with the given neighbours.
    pub(crate) fn append(&mut self, list: &[usize])
        requires
            old(self).wf(),
            old(self).n_offsets() > 0,
            old(self).model().ids is None,
            old(self).model().adj.len() < usize::MAX,
            list@.len() <= old(self).model().max_degree,
            forall|j: int| 0 <= j < list@.len() ==> #[trigger] list@[j] <= u32::MAX,
        ensures
            final(self).wf(),
            final(self).n_offsets() == old(self).n_offsets() + 1,
            final(self).model() == (GraphModel {
                adj: old(self).model().adj.push(list@),
                ..old(self).model()
            }),
    {
        let ghost before = self.neighbors@;
        let mut j: usize = 0;
        while j < list.len()
            invariant
                j <= list@.len(),
                forall|j: int| 0 <= j < list@.len() ==> #[trigger] list@[j] <= u32::MAX,
                self.neighbors@.len() == before.len() + j,
                self.neighbors@.take(before.len() as int) == before,
                widened(self.neighbors@.skip(before.len() as int)) == list@.take(j as int),
                self.offsets@ == old(self).offsets@,
                self.ids_mapping == old(self).ids_mapping,
                self.max_degree == old(self).max_degree,
                self.n_nodes == old(self).n_nodes,
            decreases list@.len() - j,
        {
            let ghost prev = self.neighbors@;
            assert(list@[j as int] <= u32::MAX);
            self.neighbors.push(list[j] as u32);
            proof {
                lemma_take_push(list@, j as int);
                assert(self.neighbors@.take(before.len() as int) =~= prev.take(
                    before.len() as int,
                ));
                assert(widened(self.neighbors@.skip(before.len() as int)) =~= widened(
                    prev.skip(before.len() as int),
                ).push(list@[j as int]));
            }
            j += 1;
        }
        self.offsets.push(self.neighbors.len());
        self.n_nodes = self.n_nodes + 1;
        proof {
            assert(list@.take(list@.len() as int) =~= list@);
            assert forall|u: int| 0 <= u < old(self).n_nodes implies self.list(u) == old(
                self,
            ).list(u) by {
                let a = self.offsets@[u] as int;
                let b = self.offsets@[u + 1] as int;
                assert(old(self).offsets@[u] <= old(self).offsets@[u + 1] <= old(
                    self,
                ).offsets@[old(self).n_nodes as int]);
                assert(self.neighbors@.subrange(a, b) =~= self.neighbors@.take(
                    before.len() as int,
                ).subrange(a, b));
            }
            assert(self.neighbors@.skip(before.len() as int) =~= self.neighbors@.subrange(
                before.len() as int,
                self.neighbors@.len() as int,
            ));
            assert(self.model().adj =~= old(self).model().adj.push(list@));
        }
    }

    /// Gives the nodes dataset ids.
    pub(crate) fn set_ids(&mut self, ids_mapping: Option<Vec<usize>>)
        requires
            old(self).wf(),
            ids_mapping matches Some(ids) ==> ids@.len() == old(self).model().adj.len(),
        ensures
            final(self).wf(),
            final(self).n_offsets() == old(self).n_offsets(),
            final(self).model() == (GraphModel {
                ids: mapping_view(ids_mapping),
                ..old(self).model()
            }),
    {
        self.ids_mapping = ids_mapping;
        assert(self.model().adj =~= old(self).model().adj);
    }

    /// The dataset ids of the nodes.
    pub(crate) fn into_ids(self) -> (ids_mapping: Option<Vec<usize>>)
        ensures
            mapping_view(ids_mapping) == self.model().ids,
    {
        self.ids_mapping
    }

    proof fn lemma_links_upto(&self, u: int)
        requires
            self.rep_ok(),
            self.offsets@.len() > 0,
            0 <= u <= self.n_nodes,
        ensures
            n_links(self.model().adj.take(u)) == self.offsets@[u],
        decreases u,
    {
        if u > 0 {
            self.lemma_links_upto(u - 1);
            lemma_take_push(self.model().adj, u - 1);
            assert(self.offsets@[u - 1] <= self.offsets@[u] <= self.offsets@[self.n_nodes as int]);
        }
    }
}

impl Default for Graph {
    fn default() -> (graph: Graph)
        ensures
            graph.wf(),
            graph.n_offsets() == 0,
            graph.model() == (GraphModel { adj: Seq::empty(), ids: None, max_degree: 0 }),
    {
        let graph = Graph {
            neighbors: Vec::new(),
            offsets: Vec::new(),
            ids_mapping: None,
            max_degree: 0,
            n_nodes: 0,
        };
        assert(graph.model().adj =~= Seq::<Seq<usize>>::empty());
        graph
    }
}

impl GraphTrait for Graph {
    closed spec fn wf(&self) -> bool {
        self.rep_ok()
    }

    closed spec fn model(&self) -> GraphModel {
        GraphModel {
            adj: Seq::new(self.n_nodes as nat, |u: int| self.list(u)),
            ids: mapping_view(self.ids_mapping),
            max_degree: self.max_degree,
        }
    }

    open spec fn space_bytes(&self) -> nat {
        n_links(self.model().adj) * vstd::layout::size_of::<u32>() + self.n_offsets()
            * vstd::layout::size_of::<usize>() + mapping_bytes(self.model().ids)
    }

    proof fn lemma_valid(&self) {
        assert forall|u: int| 0 <= u < self.n_nodes implies (#[trigger] self.model().adj[u]).len()
            <= self.max_degree by {
            assert(self.offsets@[0] <= self.offsets@[u] <= self.offsets@[u + 1]
                <= self.offsets@[self.n_nodes as int]);
        }
    }

    fn neighbors(&self, u: usize) -> (nbrs: Vec<usize>) {
        let start: usize = self.offsets[u];
        let end: usize = self.offsets[u + 1];
        let mut nbrs: Vec<usize> = Vec::new();
        let mut i: usize = start;
        assert(self.offsets@[u as int] <= self.offsets@[u + 1]
            <= self.offsets@[self.n_nodes as int]);
        while i < end
            invariant
                start <= i <= end <= self.neighbors@.len(),
                nbrs@ == widened(self.neighbors@.subrange(start as int, i as int)),
            decreases end - i,
        {
            nbrs.push(self.neighbors[i] as usize);
            i += 1;
            assert(nbrs@ =~= widened(self.neighbors@.subrange(start as int, i as int)));
        }
        nbrs
    }

    fn n_nodes(&self) -> (n: usize) {
        self.n_nodes
    }

    fn n_edges(&self) -> (n: usize) {
        proof {
            if self.offsets@.len() > 0 {
                self.lemma_links_upto(self.n_nodes as int);
            }
            assert(self.model().adj.take(self.n_nodes as int) =~= self.model().adj);
        }
        self.neighbors.len()
    }

    fn max_degree(&self) -> (degree: usize) {
        self.max_degree
    }

    fn get_external_id(&self, id: usize) -> (external: usize) {
        match &self.ids_mapping {
            Some(mapping) => mapping[id],
            None => id,
        }
    }

    fn get_space_usage_bytes(&self) -> (bytes: usize) {
        proof {
            if self.offsets@.len() > 0 {
                self.lemma_links_upto(self.n_nodes as int);
            }
            assert(self.model().adj.take(self.n_nodes as int) =~= self.model().adj);
        }
        let neighbors_size: usize = self.neighbors.len() * std::mem::size_of::<u32>();
        let offsets_size: usize = self.offsets.len() * std::mem::size_of::<usize>();
        let ids_mapping_size: usize = match &self.ids_mapping {
            Some(mapping) => mapping.len() * std::mem::size_of::<usize>(),
            None => 0,
        };
        neighbors_size + offsets_size + ids_mapping_size
    }
}

} // verus!
