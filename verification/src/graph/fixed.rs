//! A read-only graph with the same room for every adjacency list.
use crate::graph::compact::{mapping_bytes, mapping_view};
use crate::graph::table::SlotTable;
use crate::graph::{GraphModel, GraphTrait};
use vstd::prelude::*;

verus! {

/// A graph whose adjacency lists all take `max_degree` slots; shorter lists are padded with empty
/// slots.
///
/// Node ids are stored as `u32` and handed out as `usize`. The largest `u32` stands for an empty
/// slot, so that there are at most `u32::MAX - 1` nodes.
pub struct GraphFixedDegree {
    table: SlotTable,
    ids_mapping: Option<Vec<usize>>,
}

impl GraphFixedDegree {
    /// The graph that the slots of `table` and the dataset ids make up.
    pub(crate) fn from_table(table: SlotTable, ids_mapping: Option<Vec<usize>>) -> (graph:
        GraphFixedDegree)
        requires
            table.wf(),
            ids_mapping matches Some(ids) ==> ids@.len() == table.lists().len(),
        ensures
            graph.wf(),
            graph.model() == (GraphModel {
                adj: table.lists(),
                ids: mapping_view(ids_mapping),
                max_degree: table.spec_width(),
            }),
    {
        GraphFixedDegree { table, ids_mapping }
    }

    /// The slots and the dataset ids.
    pub(crate) fn into_table(self) -> (parts: (SlotTable, Option<Vec<usize>>))
        requires
            self.wf(),
        ensures
            parts.0.wf(),
            self.model() == (GraphModel {
                adj: parts.0.lists(),
                ids: mapping_view(parts.1),
                max_degree: parts.0.spec_width(),
            }),
    {
        (self.table, self.ids_mapping)
    }
}

impl Default for GraphFixedDegree {
    fn default() -> (graph: GraphFixedDegree)
        ensures
            graph.wf(),
            graph.model() == (GraphModel { adj: Seq::empty(), ids: None, max_degree: 0 }),
    {
        let graph = GraphFixedDegree { table: SlotTable::new(0, 0), ids_mapping: None };
        assert(graph.model().adj =~= Seq::<Seq<usize>>::empty());
        graph
    }
}

impl GraphTrait for GraphFixedDegree {
    closed spec fn wf(&self) -> bool {
        &&& self.table.wf()
        &&& self.ids_mapping matches Some(ids) ==> ids@.len() == self.table.lists().len()
    }

    closed spec fn model(&self) -> GraphModel {
        GraphModel {
            adj: self.table.lists(),
            ids: mapping_view(self.ids_mapping),
            max_degree: self.table.spec_width(),
        }
    }

    open spec fn space_bytes(&self) -> nat {
        4 * (self.model().adj.len() * self.model().max_degree as nat) + mapping_bytes(
            self.model().ids,
        )
    }

    proof fn lemma_valid(&self) {
        self.table.lemma_lists();
    }

    fn neighbors(&self, u: usize) -> (nbrs: Vec<usize>) {
        self.table.read(u)
    }

    fn n_nodes(&self) -> (n: usize) {
        self.table.len()
    }

    fn n_edges(&self) -> (n: usize) {
        self.table.link_count()
    }

    fn max_degree(&self) -> (degree: usize) {
        self.table.width()
    }

    fn get_external_id(&self, id: usize) -> (external: usize) {
        match &self.ids_mapping {
            Some(mapping) => mapping[id],
            None => id,
        }
    }

    fn get_space_usage_bytes(&self) -> (bytes: usize) {
        let neighbors_size: usize = self.table.slot_bytes();
        let ids_mapping_size: usize = match &self.ids_mapping {
            Some(mapping) => mapping.len() * std::mem::size_of::<usize>(),
            None => 0,
        };
        neighbors_size + ids_mapping_size
    }
}

} // verus!
