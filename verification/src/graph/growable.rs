//! A graph under construction.
use crate::graph::compact::{mapping_bytes, mapping_view, Graph};
use crate::graph::fixed::GraphFixedDegree;
use crate::graph::table::{overlay, storable, SlotTable};
use crate::graph::{lemma_take_push, GraphModel, GraphTrait};
use crate::text::{append_decimal, decimal};
use vstd::prelude::*;
use vstd::string::*;

verus! {

/// A graph that nodes are linked into one after the other.
pub struct GrowableGraph {
    table: SlotTable,
    ids_mapping: Option<Vec<usize>>,
    inserted_nodes: usize,
}

/// A graph that a finished [`GrowableGraph`] can be turned into.
pub trait FromGrowable: GraphTrait {
    /// The graph that `growable` represents.
    fn from_growable(growable: GrowableGraph) -> (graph: Self)
        requires
            growable.wf(),
        ensures
            graph.wf(),
            graph.model() == growable.model(),
    ;
}

/// A graph that can be turned back into a [`GrowableGraph`].
pub trait IntoGrowable: GraphTrait {
    /// The same graph, with all its nodes inserted.
    fn into_growable(self) -> (growable: GrowableGraph)
        requires
            self.wf(),
            growable_limits(self.model()),
        ensures
            growable.wf(),
            growable.model() == self.model(),
            growable.inserted() == self.model().adj.len(),
    ;
}

/// The slots of a growable graph can be addressed and hold all its links.
pub open spec fn growable_limits(g: GraphModel) -> bool {
    &&& g.adj.len() * g.max_degree <= usize::MAX
    &&& forall|u: int| 0 <= u < g.adj.len() ==> storable(#[trigger] g.adj[u])
}

/// A list of links that replace the neighbours of a node.
pub type ReverseLinks = Vec<(usize, Vec<usize>)>;

/// The view of reverse links.
pub open spec fn links_view(links: Seq<(usize, Vec<usize>)>) -> Seq<(usize, Seq<usize>)> {
    links.map_values(|l: (usize, Vec<usize>)| (l.0, l.1@))
}

/// `adj` after every list of `links` took the place of the list of its node, in order.
pub open spec fn relink(adj: Seq<Seq<usize>>, links: Seq<(usize, Seq<usize>)>) -> Seq<Seq<usize>>
    decreases links.len(),
{
    if links.len() == 0 {
        adj
    } else {
        relink(adj, links.drop_last()).update(links.last().0 as int, links.last().1)
    }
}

/// The lists name nodes of a graph of `n` nodes and fit its degree bound.
pub open spec fn links_fit(links: Seq<(usize, Seq<usize>)>, n: nat, max_degree: nat) -> bool {
    forall|i: int|
        0 <= i < links.len() ==> {
            &&& (#[trigger] links[i]).0 < n
            &&& links[i].1.len() <= max_degree
            &&& storable(links[i].1)
        }
}

/// What is said of a mapping of the wrong length.
pub open spec fn mismatch_message(got: nat, expected: nat) -> Seq<char> {
    "Mapping length mismatch: got "@ + decimal(got) + ", expected "@ + decimal(expected)
}

/// `adj` after `neighbors` were written over the front of the list of node `local_id`.
pub open spec fn fronted(adj: Seq<Seq<usize>>, local_id: usize, neighbors: Seq<usize>) -> Seq<
    Seq<usize>,
> {
    if neighbors.len() == 0 {
        adj
    } else {
        adj.update(local_id as int, overlay(adj[local_id as int], neighbors))
    }
}

/// `g` after node `local_id` got its dataset id and its forward links, and other nodes their new
/// lists.
pub open spec fn pushed(
    g: GraphModel,
    external_id: Option<usize>,
    neighbors: Seq<usize>,
    local_id: usize,
    links: Seq<(usize, Seq<usize>)>,
) -> GraphModel {
    GraphModel {
        adj: relink(fronted(g.adj, local_id, neighbors), links),
        ids: match g.ids {
            Some(ids) => Some(ids.update(local_id as int, external_id.unwrap_or(local_id))),
            None => None,
        },
        max_degree: g.max_degree,
    }
}

proof fn lemma_relink_len(adj: Seq<Seq<usize>>, links: Seq<(usize, Seq<usize>)>)
    requires
        forall|i: int| 0 <= i < links.len() ==> (#[trigger] links[i]).0 < adj.len(),
    ensures
        relink(adj, links).len() == adj.len(),
    decreases links.len(),
{
    if links.len() > 0 {
        assert(forall|i: int| 0 <= i < links.len() - 1 ==> links.drop_last()[i] == links[i]);
        lemma_relink_len(adj, links.drop_last());
    }
}

impl GraphTrait for GrowableGraph {
    closed spec fn wf(&self) -> bool {
        &&& self.table.wf()
        &&& self.ids_mapping matches Some(ids) ==> ids@.len() == self.table.lists().len()
    }

    closed spec fn model(&self) -> GraphModel {
        GraphModel {
            adj: self.table.lists(),
            ids: mapping_view(self.ids_mapping),
            max_degree: self.table.spec_width(),
        }
    }

    open spec fn space_bytes(&self) -> nat {
        4 * (self.model().adj.len() * self.model().max_degree as nat) + mapping_bytes(
            self.model().ids,
        )
    }

    proof fn lemma_valid(&self) {
        self.table.lemma_lists();
    }

    fn neighbors(&self, u: usize) -> (nbrs: Vec<usize>) {
        self.table.read(u)
    }

    fn n_nodes(&self) -> (n: usize) {
        self.table.len()
    }

    fn n_edges(&self) -> (n: usize) {
        self.table.link_count()
    }

    fn max_degree(&self) -> (degree: usize) {
        self.table.width()
    }

    fn get_external_id(&self, id: usize) -> (external: usize) {
        match &self.ids_mapping {
            Some(mapping) => mapping[id],
            None => id,
        }
    }

    fn get_space_usage_bytes(&self) -> (bytes: usize) {
        let neighbors_size: usize = self.table.slot_bytes();
        let ids_mapping_size: usize = match &self.ids_mapping {
            Some(mapping) => mapping.len() * std::mem::size_of::<usize>(),
            None => 0,
        };
        neighbors_size + ids_mapping_size
    }
}

impl FromGrowable for GrowableGraph {
    fn from_growable(growable: GrowableGraph) -> (graph: GrowableGraph) {
        growable
    }
}

impl FromGrowable for GraphFixedDegree {
    /// Keeps the padding.
    fn from_growable(growable: GrowableGraph) -> (graph: GraphFixedDegree) {
        GraphFixedDegree::from_table(growable.table, growable.ids_mapping)
    }
}

impl FromGrowable for Graph {
    /// Takes the padding out.
    fn from_growable(growable: GrowableGraph) -> (graph: Graph)
        ensures
            graph.n_offsets() == graph.model().adj.len() + 1,
    {
        let n: usize = growable.n_nodes();
        let mut graph = Graph::empty(growable.max_degree());
        let mut v: usize = 0;
        assert(growable.model().adj.take(0) =~= Seq::<Seq<usize>>::empty());
        while v < n
            invariant
                growable.wf(),
                n == growable.model().adj.len(),
                v <= n,
                graph.wf(),
                graph.n_offsets() == v + 1,
                graph.model() == (GraphModel {
                    adj: growable.model().adj.take(v as int),
                    ids: None,
                    max_degree: growable.model().max_degree,
                }),
            decreases n - v,
        {
            let list = growable.neighbors(v);
            proof {
                growable.lemma_valid();
                growable.lemma_storable();
                lemma_take_push(growable.model().adj, v as int);
            }
            graph.append(list.as_slice());
            v += 1;
        }
        assert(growable.model().adj.take(n as int) =~= growable.model().adj);
        graph.set_ids(growable.ids_mapping);
        graph
    }
}

impl IntoGrowable for GrowableGraph {
    fn into_growable(self) -> (growable: GrowableGraph) {
        let n: usize = self.n_nodes();
        GrowableGraph { table: self.table, ids_mapping: self.ids_mapping, inserted_nodes: n }
    }
}

impl IntoGrowable for GraphFixedDegree {
    fn into_growable(self) -> (growable: GrowableGraph) {
        let n: usize = self.n_nodes();
        proof {
            self.lemma_valid();
        }
        let (table, ids_mapping) = self.into_table();
        GrowableGraph { table, ids_mapping, inserted_nodes: n }
    }
}

impl IntoGrowable for Graph {
    /// Pads every list to the degree bound.
    fn into_growable(self) -> (growable: GrowableGraph) {
        let n: usize = self.n_nodes();
        let ghost g = self.model();
        let mut table = SlotTable::new(n, self.max_degree());
        let mut v: usize = 0;
        while v < n
            invariant
                self.wf(),
                g == self.model(),
                growable_limits(g),
                n == g.adj.len(),
                v <= n,
                table.wf(),
                table.spec_width() == g.max_degree,
                table.lists().len() == n,
                forall|u: int| 0 <= u < v ==> #[trigger] table.lists()[u] == g.adj[u],
            decreases n - v,
        {
            let list = self.neighbors(v);
            proof {
                self.lemma_valid();
            }
            table.write_list(v, list.as_slice());
            v += 1;
        }
        assert(table.lists() =~= g.adj);
        proof {
            self.lemma_valid();
        }
        GrowableGraph { table, ids_mapping: self.into_ids(), inserted_nodes: n }
    }
}

impl Default for GrowableGraph {
    fn default() -> (graph: GrowableGraph)
        ensures
            graph.wf(),
            graph.model() == (GraphModel { adj: Seq::empty(), ids: None, max_degree: 0 }),
            graph.inserted() == 0,
    {
        GrowableGraph::with_max_degree(0)
    }
}

impl GrowableGraph {
    /// The number of nodes that were inserted.
    pub closed spec fn inserted(&self) -> usize {
        self.inserted_nodes
    }

    /// Every link of the graph fits in a slot.
    pub proof fn lemma_storable(&self)
        requires
            self.wf(),
        ensures
            growable_limits(self.model()),
    {
        self.table.lemma_lists();
    }

    /// An empty graph with the given degree bound.
    pub fn with_max_degree(max_degree: usize) -> (graph: GrowableGraph)
        ensures
            graph.wf(),
            graph.model() == (GraphModel { adj: Seq::empty(), ids: None, max_degree }),
            graph.inserted() == 0,
    {
        assert(0 * max_degree == 0) by (nonlinear_arith);
        let graph = GrowableGraph {
            table: SlotTable::new(0, max_degree),
            ids_mapping: None,
            inserted_nodes: 0,
        };
        assert(graph.model().adj =~= Seq::<Seq<usize>>::empty());
        graph
    }

    /// The number of nodes that were inserted into the graph.
    pub fn inserted_nodes(&self) -> (n: usize)
        ensures
            n == self.inserted(),
    {
        self.inserted_nodes
    }

    /// Counts `count` more nodes as inserted.
    pub fn advance_inserted_nodes(&mut self, count: usize)
        requires
            old(self).inserted() + count <= usize::MAX,
        ensures
            final(self).inserted() == old(self).inserted() + count,
            final(self).model() == old(self).model(),
            final(self).wf() == old(self).wf(),
    {
        self.inserted_nodes = self.inserted_nodes + count;
    }

    /// Makes room for a fixed number of nodes, all without neighbours and dataset ids.
    pub fn reserve(&mut self, n_expected_nodes: usize)
        requires
            old(self).wf(),
            n_expected_nodes * old(self).model().max_degree <= usize::MAX,
        ensures
            final(self).wf(),
            final(self).model() == (GraphModel {
                adj: Seq::new(n_expected_nodes as nat, |u: int| Seq::<usize>::empty()),
                ids: None,
                max_degree: old(self).model().max_degree,
            }),
            final(self).inserted() == old(self).inserted(),
    {
        self.table = SlotTable::new(n_expected_nodes, self.table.width());
        self.ids_mapping = None;
    }

    /// Gives the nodes dataset ids; refused if there is not one id per node.
    pub fn set_mapping(&mut self, mapping: Vec<usize>) -> (result: Result<(), String>)
        requires
            old(self).wf(),
        ensures
            final(self).wf(),
            final(self).inserted() == old(self).inserted(),
            mapping@.len() == old(self).model().adj.len() ==> {
                &&& result is Ok
                &&& final(self).model() == (GraphModel {
                    ids: Some(mapping@),
                    ..old(self).model()
                })
            },
            mapping@.len() != old(self).model().adj.len() ==> {
                &&& result matches Err(message)
                &&& message@ == mismatch_message(mapping@.len(), old(self).model().adj.len())
                &&& final(self).model() == old(self).model()
            },
    {
        let n: usize = self.n_nodes();
        if mapping.len() != n {
            let mut message = String::from_str("Mapping length mismatch: got ");
            append_decimal(&mut message, mapping.len());
            message.append(", expected ");
            append_decimal(&mut message, n);
            return Err(message);
        }
        self.ids_mapping = Some(mapping);
        Ok(())
    }

    /// Links a node into the graph: its forward links are written over the front of its list,
    /// its dataset id is recorded, and the nodes of `reverse_links` get their new lists.
    pub fn push_with_precomputed_reverse_links(
        &mut self,
        external_id: Option<usize>,
        neighbors: &[usize],
        local_id: usize,
        reverse_links: &[(usize, Vec<usize>)],
    )
        requires
            old(self).wf(),
            neighbors@.len() > 0 || old(self).model().ids is Some ==> local_id < old(
                self,
            ).model().adj.len(),
            neighbors@.len() <= old(self).model().max_degree,
            storable(neighbors@),
            external_id is Some ==> old(self).model().ids is Some,
            links_fit(
                links_view(reverse_links@),
                old(self).model().adj.len(),
                old(self).model().max_degree as nat,
            ),
        ensures
            final(self).wf(),
            final(self).model() == pushed(
                old(self).model(),
                external_id,
                neighbors@,
                local_id,
                links_view(reverse_links@),
            ),
            final(self).inserted() == old(self).inserted(),
    {
        let ghost g = self.model();
        let ghost links = links_view(reverse_links@);
        let ghost n = g.adj.len();
        if neighbors.len() > 0 {
            self.table.write_front(local_id, neighbors);
        }
        let vec_id: usize = match external_id {
            Some(id) => id,
            None => local_id,
        };
        match &mut self.ids_mapping {
            Some(mapping) => {
                mapping.set(local_id, vec_id);
            },
            None => {},
        }
        let ghost base = self.model().adj;
        let ghost ids = self.model().ids;
        assert(self.wf());
        let mut i: usize = 0;
        while i < reverse_links.len()
            invariant
                i <= reverse_links@.len(),
                links == links_view(reverse_links@),
                links_fit(links, n, g.max_degree as nat),
                n == base.len(),
                self.wf(),
                self.model() == (GraphModel {
                    adj: relink(base, links.take(i as int)),
                    ids,
                    max_degree: g.max_degree,
                }),
                self.inserted_nodes == old(self).inserted_nodes,
            decreases reverse_links@.len() - i,
        {
            proof {
                lemma_take_push(links, i as int);
                lemma_relink_len(base, links.take(i as int));
                let link = reverse_links@[i as int];
                assert(links[i as int] == (link.0, link.1@));
            }
            self.table.write_list(reverse_links[i].0, reverse_links[i].1.as_slice());
            i += 1;
        }
        assert(links.take(i as int) =~= links);
    }
}

/// The list of node `u` once the lists of `links` took their places: the last one that names it, or
/// the list it had if none does.
pub open spec fn last_list(
    before: Seq<usize>,
    links: Seq<(usize, Seq<usize>)>,
    u: int,
    after: Seq<usize>,
) -> bool {
    ||| after == before && forall|i: int| 0 <= i < links.len() ==> (#[trigger] links[i]).0 != u
    ||| exists|i: int|
        {
            &&& 0 <= i < links.len()
            &&& (#[trigger] links[i]).0 == u
            &&& after == links[i].1
            &&& forall|j: int| i < j < links.len() ==> (#[trigger] links[j]).0 != u
        }
}

proof fn lemma_relink_last(adj: Seq<Seq<usize>>, links: Seq<(usize, Seq<usize>)>, u: int)
    requires
        0 <= u < adj.len(),
        forall|i: int| 0 <= i < links.len() ==> (#[trigger] links[i]).0 < adj.len(),
    ensures
        relink(adj, links).len() == adj.len(),
        last_list(adj[u], links, u, relink(adj, links)[u]),
    decreases links.len(),
{
    if links.len() > 0 {
        let rest = links.drop_last();
        let at = links.len() - 1;
        assert(forall|i: int| 0 <= i < rest.len() ==> rest[i] == links[i]);
        lemma_relink_last(adj, rest, u);
        if links[at].0 == u {
            assert(relink(adj, links)[u] == links[at].1);
        } else {
            assert(relink(adj, links)[u] == relink(adj, rest)[u]);
            if relink(adj, rest)[u] == adj[u] && forall|i: int|
                0 <= i < rest.len() ==> (#[trigger] rest[i]).0 != u {
                assert forall|i: int| 0 <= i < links.len() implies (#[trigger] links[i]).0 != u by {
                    if i < rest.len() {
                        assert(rest[i].0 != u);
                    }
                }
            } else {
                let i = choose|i: int|
                    {
                        &&& 0 <= i < rest.len()
                        &&& (#[trigger] rest[i]).0 == u
                        &&& relink(adj, rest)[u] == rest[i].1
                        &&& forall|j: int| i < j < rest.len() ==> (#[trigger] rest[j]).0 != u
                    };
                assert(links[i].0 == u && relink(adj, links)[u] == links[i].1);
                assert forall|j: int| i < j < links.len() implies (#[trigger] links[j]).0 != u by {
                    if j < rest.len() {
                        assert(rest[j].0 != u);
                    }
                }
            }
        }
    }
}

/// What a push does to the list of every node. The forward links are written over the front of the
/// list of the new node, and what stood behind them stays. Then the lists that are given take the
/// places of those of their nodes; the last one given for a node counts. The new node gets its
/// dataset id, or its own id if none is given.
pub proof fn law_push_writes_links(
    g: GraphModel,
    external_id: Option<usize>,
    neighbors: Seq<usize>,
    local_id: usize,
    links: Seq<(usize, Seq<usize>)>,
    u: usize,
)
    requires
        local_id < g.adj.len(),
        u < g.adj.len(),
        forall|i: int| 0 <= i < links.len() ==> (#[trigger] links[i]).0 < g.adj.len(),
        g.ids matches Some(ids) ==> ids.len() == g.adj.len(),
    ensures
        ({
            let after = pushed(g, external_id, neighbors, local_id, links);
            &&& after.adj.len() == g.adj.len()
            &&& after.max_degree == g.max_degree
            &&& u != local_id ==> last_list(g.adj[u as int], links, u as int, after.adj[u as int])
            &&& u == local_id ==> exists|list: Seq<usize>|
                {
                    &&& #[trigger] last_list(list, links, u as int, after.adj[u as int])
                    &&& neighbors.len() <= list.len()
                    &&& list.len() == neighbors.len() || list.len() == g.adj[u as int].len()
                    &&& g.adj[u as int].len() <= list.len()
                    &&& list.take(neighbors.len() as int) == neighbors
                    &&& forall|j: int|
                        neighbors.len() <= j < list.len() ==> #[trigger] list[j] == g.adj[u as int][j]
                }
            &&& g.ids is Some <==> after.ids is Some
            &&& g.ids is Some && u != local_id ==> after.external(u) == g.external(u)
            &&& g.ids is Some && external_id is Some ==> after.external(local_id)
                == external_id->0
            &&& g.ids is Some && external_id is None ==> after.external(local_id) == local_id
        }),
{
    let middle = fronted(g.adj, local_id, neighbors);
    let after = pushed(g, external_id, neighbors, local_id, links);
    lemma_relink_last(middle, links, u as int);
    if u == local_id {
        let list = middle[u as int];
        assert(list =~= overlay(g.adj[u as int], neighbors));
        assert(list.take(neighbors.len() as int) =~= neighbors);
        assert(last_list(list, links, u as int, after.adj[u as int]));
    }
}

} // verus!
