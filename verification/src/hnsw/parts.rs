//! Taking an index apart and putting it together again.
use crate::beam::closed;
use crate::dataset::Dataset;
use crate::graph::{lemma_take_push, Graph, GraphModel, GraphTrait};
use crate::hnsw::hierarchy::{hierarchy_ok, level_ok, nested, nested_at, upper_mapping};
use crate::hnsw::remap::all_externals;
use crate::hnsw::HNSW;
use crate::reorder::globals;
use std::collections::HashSet;
use vstd::prelude::*;

verus! {

broadcast use vstd::std_specs::hash::group_hash_axioms;

/// The parts that an index is stored as.
pub struct IndexParts<D> {
    pub levels: Vec<Graph>,
    pub level1_to_level0_mapping: Vec<usize>,
    pub dataset: D,
    pub num_neighbors_per_vec: usize,
    pub entry_point: usize,
}

impl<D: Dataset> IndexParts<D> {
    /// The levels, the highest one first.
    pub open spec fn level_models(&self) -> Seq<GraphModel> {
        Seq::new(self.levels@.len(), |i: int| self.levels@[i].model())
    }

    /// The parts fit together: the levels make up a hierarchy over the vectors of the dataset,
    /// the mapping is that of the level above the ground level, and the entry point is a node of
    /// the highest level.
    pub open spec fn fit(&self) -> bool {
        &&& hierarchy_ok(self.level_models(), self.dataset.n_vectors() as nat)
        &&& self.entry_point < self.level_models()[0].adj.len()
        &&& self.levels@.len() > 1 ==> self.level1_to_level0_mapping@ == upper_mapping(
            self.level_models(),
        )
    }
}

/// Whether every link of the graph leads to one of its nodes.
fn links_stay_inside(graph: &Graph) -> (inside: bool)
    requires
        graph.wf(),
    ensures
        inside == closed(graph.model().adj),
{
    let ghost adj = graph.model().adj;
    let n: usize = graph.n_nodes();
    let mut u: usize = 0;
    while u < n
        invariant
            graph.wf(),
            adj == graph.model().adj,
            n == adj.len(),
            u <= n,
            forall|v: int, j: int|
                0 <= v < u && 0 <= j < adj[v].len() ==> #[trigger] adj[v][j] < n,
        decreases n - u,
    {
        let nbrs = graph.neighbors(u);
        let mut j: usize = 0;
        while j < nbrs.len()
            invariant
                adj == graph.model().adj,
                n == adj.len(),
                u < n,
                nbrs@ == adj[u as int],
                j <= nbrs@.len(),
                forall|l: int| 0 <= l < j ==> #[trigger] adj[u as int][l] < n,
            decreases nbrs@.len() - j,
        {
            if nbrs[j] >= n {
                assert(adj[u as int][j as int] >= n);
                return false;
            }
            j += 1;
        }
        u += 1;
    }
    true
}

/// Whether all ids are below `n` and no two are the same.
fn ids_are_distinct(ids: &Vec<usize>, n: usize) -> (distinct: bool)
    ensures
        distinct <==> ids@.no_duplicates() && forall|i: int|
            0 <= i < ids@.len() ==> #[trigger] ids@[i] < n,
{
    let mut seen: HashSet<usize> = HashSet::new();
    let mut i: usize = 0;
    assert(seen@ =~= ids@.take(0).to_set());
    while i < ids.len()
        invariant
            i <= ids@.len(),
            seen@ == ids@.take(i as int).to_set(),
            forall|l: int| 0 <= l < i ==> #[trigger] ids@[l] < n,
            forall|a: int, b: int| 0 <= a < b < i ==> #[trigger] ids@[a] != #[trigger] ids@[b],
        decreases ids@.len() - i,
    {
        let id: usize = ids[i];
        proof {
            lemma_take_push(ids@, i as int);
            ids@.take(i as int).lemma_push_to_set_commute(id);
        }
        if id >= n {
            assert(ids@[i as int] >= n);
            return false;
        }
        if !seen.insert(id) {
            assert(ids@.take(i as int).contains(id));
            let ghost at = choose|at: int| 0 <= at < i && ids@.take(i as int)[at] == id;
            assert(ids@[at] == ids@[i as int]);
            return false;
        }
        proof {
            assert forall|a: int, b: int| 0 <= a < b < i + 1 implies #[trigger] ids@[a]
                != #[trigger] ids@[b] by {
                if b == i {
                    assert(ids@.take(i as int)[a] == ids@[a]);
                    assert(ids@.take(i as int).contains(ids@[a]));
                }
            }
        }
        i += 1;
    }
    true
}

/// Whether `ids` starts with `prefix`.
fn starts_with(ids: &Vec<usize>, prefix: &Vec<usize>) -> (result: bool)
    ensures
        result <==> prefix@.len() <= ids@.len() && forall|i: int|
            0 <= i < prefix@.len() ==> #[trigger] prefix@[i] == ids@[i],
{
    if prefix.len() > ids.len() {
        return false;
    }
    let mut i: usize = 0;
    while i < prefix.len()
        invariant
            i <= prefix@.len() <= ids@.len(),
            forall|l: int| 0 <= l < i ==> #[trigger] prefix@[l] == ids@[l],
        decreases prefix@.len() - i,
    {
        if prefix[i] != ids[i] {
            assert(prefix@[i as int] != ids@[i as int]);
            return false;
        }
        i += 1;
    }
    true
}

/// Whether the graph is fit to be a level over `n` vectors.
fn is_level(graph: &Graph, n: usize, ground: bool) -> (fits: bool)
    requires
        graph.wf(),
    ensures
        fits == level_ok(graph.model(), n as nat, ground),
{
    let ghost g = graph.model();
    proof {
        graph.lemma_valid();
    }
    if ground == graph.is_mapped() {
        return false;
    }
    if !links_stay_inside(graph) {
        return false;
    }
    if ground {
        return graph.n_nodes() == n;
    }
    let ids = all_externals(graph);
    let distinct = ids_are_distinct(&ids, n);
    proof {
        assert(ids@ == globals(g));
        assert(ids.len() == ids@.len());
        if distinct {
            assert forall|id: usize| id < g.adj.len() implies #[trigger] g.has_external(id)
                && g.external(id) < n by {
                assert(ids@[id as int] == g.external(id));
            }
            assert forall|a: usize, b: usize|
                a < g.adj.len() && b < g.adj.len() && #[trigger] g.external(a)
                    == #[trigger] g.external(b) implies a == b by {
                assert(ids@[a as int] == g.external(a));
                assert(ids@[b as int] == g.external(b));
            }
        }
        if level_ok(g, n as nat, ground) {
            assert forall|i: int| 0 <= i < ids@.len() implies #[trigger] ids@[i] < n by {
                assert(g.has_external(i as usize));
                assert(ids@[i] == g.external(i as usize));
            }
            assert forall|i: int, j: int| 0 <= i < ids@.len() && 0 <= j < ids@.len() && i
                != j implies ids@[i] != ids@[j] by {
                assert(ids@[i] == g.external(i as usize));
                assert(ids@[j] == g.external(j as usize));
            }
        }
    }
    distinct
}

/// Whether the nodes of `upper` are the first ones of `lower`.
fn is_nested(upper: &Graph, lower: &Graph) -> (result: bool)
    requires
        upper.wf(),
        lower.wf(),
    ensures
        result == nested(upper.model(), lower.model()),
{
    if !lower.is_mapped() {
        return upper.n_nodes() <= lower.n_nodes();
    }
    let upper_ids = all_externals(upper);
    let lower_ids = all_externals(lower);
    let result = starts_with(&lower_ids, &upper_ids);
    proof {
        let u = upper.model();
        let l = lower.model();
        if result {
            assert forall|id: usize| id < u.adj.len() implies #[trigger] u.external(id)
                == l.external(id) by {
                assert(upper_ids@[id as int] == lower_ids@[id as int]);
            }
        }
        if nested(u, l) {
            assert forall|i: int| 0 <= i < upper_ids@.len() implies #[trigger] upper_ids@[i]
                == lower_ids@[i] by {
                assert(u.external(i as usize) == l.external(i as usize));
            }
        }
    }
    result
}

/// Whether the graphs make up a hierarchy over `n` vectors.
fn is_hierarchy(levels: &Vec<Graph>, n: usize) -> (result: bool)
    requires
        forall|i: int| 0 <= i < levels@.len() ==> (#[trigger] levels@[i]).wf(),
    ensures
        result == hierarchy_ok(
            Seq::new(levels@.len(), |i: int| levels@[i].model()),
            n as nat,
        ),
{
    let ghost models = Seq::new(levels@.len(), |i: int| levels@[i].model());
    if levels.len() == 0 {
        return false;
    }
    let last: usize = levels.len() - 1;
    let mut i: usize = 0;
    while i < levels.len()
        invariant
            forall|l: int| 0 <= l < levels@.len() ==> (#[trigger] levels@[l]).wf(),
            models == Seq::new(levels@.len(), |i: int| levels@[i].model()),
            last == levels@.len() - 1,
            i <= levels@.len(),
            forall|l: int| 0 <= l < i ==> level_ok(#[trigger] models[l], n as nat, l == last),
            forall|l: int| 0 <= l < i && l < last ==> #[trigger] nested_at(models, l),
        decreases levels@.len() - i,
    {
        assert(models[i as int] == levels@[i as int].model());
        if !is_level(&levels[i], n, i == last) {
            assert(!level_ok(models[i as int], n as nat, i == last));
            return false;
        }
        if i < last {
            if !is_nested(&levels[i], &levels[i + 1]) {
                assert(!nested_at(models, i as int));
                return false;
            }
            assert(nested_at(models, i as int));
        }
        i += 1;
    }
    true
}

impl<D: Dataset> HNSW<D, Graph> {
    /// The index that `parts` make up, if they fit together.
    pub fn from_parts(parts: IndexParts<D>) -> (index: Option<HNSW<D, Graph>>)
        requires
            forall|i: int| 0 <= i < parts.levels@.len() ==> (#[trigger] parts.levels@[i]).wf(),
        ensures
            index is Some <==> parts.fit(),
            index matches Some(index) ==> {
                &&& index.wf()
                &&& index.stored_levels() == parts.levels@
                &&& index.spec_dataset() == parts.dataset
                &&& index.spec_num_neighbors() == parts.num_neighbors_per_vec
                &&& index.spec_entry_point() == parts.entry_point
                &&& index.spec_level_mapping() == parts.level1_to_level0_mapping@
            },
    {
        let n: usize = parts.dataset.len();
        if !is_hierarchy(&parts.levels, n) {
            return None;
        }
        if parts.entry_point >= parts.levels[0].n_nodes() {
            return None;
        }
        if parts.levels.len() > 1 {
            let upper = all_externals(&parts.levels[parts.levels.len() - 2]);
            let mapping = &parts.level1_to_level0_mapping;
            if mapping.len() != upper.len() || !starts_with(mapping, &upper) {
                return None;
            }
            assert(mapping@ =~= upper@);
        }
        let index = HNSW {
            levels: parts.levels,
            level1_to_level0_mapping: parts.level1_to_level0_mapping,
            dataset: parts.dataset,
            num_neighbors_per_vec: parts.num_neighbors_per_vec,
            entry_point: parts.entry_point,
        };
        assert(index.level_models() =~= parts.level_models());
        Some(index)
    }

    /// The parts that the index is stored as.
    pub fn into_parts(self) -> (parts: IndexParts<D>)
        requires
            self.wf(),
        ensures
            parts.fit(),
            forall|i: int| 0 <= i < parts.levels@.len() ==> (#[trigger] parts.levels@[i]).wf(),
            parts.levels@ == self.stored_levels(),
            parts.dataset == self.spec_dataset(),
            parts.num_neighbors_per_vec == self.spec_num_neighbors(),
            parts.entry_point == self.spec_entry_point(),
            parts.level1_to_level0_mapping@ == self.spec_level_mapping(),
    {
        let parts = IndexParts {
            levels: self.levels,
            level1_to_level0_mapping: self.level1_to_level0_mapping,
            dataset: self.dataset,
            num_neighbors_per_vec: self.num_neighbors_per_vec,
            entry_point: self.entry_point,
        };
        assert(parts.level_models() =~= self.level_models());
        parts
    }
}

} // verus!
