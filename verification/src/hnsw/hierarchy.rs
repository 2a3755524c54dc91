//! The levels of an index and the way down through them.
use crate::beam::closed;
use crate::graph::GraphModel;
use crate::reorder::globals;
use crate::scored::ScoredItem;
use crate::soundness::law_greedy_walk_ends_at_local_minimum;
use vstd::prelude::*;

verus! {

/// Every node of an upper level has its own vector, and that vector's node on the level below
/// has the same local id.
pub open spec fn nested(upper: GraphModel, lower: GraphModel) -> bool {
    &&& upper.adj.len() <= lower.adj.len()
    &&& lower.ids is Some ==> forall|id: usize|
        id < upper.adj.len() ==> #[trigger] upper.external(id) == lower.external(id)
}

/// Level `i` is nested in the one below.
pub open spec fn nested_at(levels: Seq<GraphModel>, i: int) -> bool {
    nested(levels[i], levels[i + 1])
}

/// What holds of the levels of an index over `n` vectors, the highest level first.
pub open spec fn hierarchy_ok(levels: Seq<GraphModel>, n: nat) -> bool {
    let last = levels.len() - 1;
    &&& levels.len() > 0
    &&& forall|i: int| 0 <= i < levels.len() ==> level_ok(#[trigger] levels[i], n, i == last)
    &&& forall|i: int| 0 <= i < last ==> #[trigger] nested_at(levels, i)
}

/// What holds of one level: the ground level has all vectors under their own ids, an upper level
/// some of them under local ids.
pub open spec fn level_ok(level: GraphModel, n: nat, ground: bool) -> bool {
    &&& level.valid()
    &&& closed(level.adj)
    &&& ground <==> level.ids is None
    &&& ground ==> level.adj.len() == n
    &&& !ground ==> {
        &&& level.ids_below(n)
        &&& forall|a: usize, b: usize|
            a < level.adj.len() && b < level.adj.len() && #[trigger] level.external(a)
                == #[trigger] level.external(b) ==> a == b
    }
}

/// The dataset ids of the nodes of the level just above the ground level; none if the ground
/// level is the only one.
pub open spec fn upper_mapping(levels: Seq<GraphModel>) -> Seq<usize> {
    if levels.len() > 1 {
        globals(levels[levels.len() - 2])
    } else {
        Seq::empty()
    }
}

/// Where the greedy walks through the first `upto` levels end, each starting where the one above
/// ended.
pub open spec fn descent(
    levels: Seq<GraphModel>,
    distance: spec_fn(usize) -> i64,
    within: spec_fn(i64, i64) -> bool,
    entry: ScoredItem,
    upto: nat,
) -> ScoredItem
    decreases upto,
{
    if upto == 0 {
        entry
    } else {
        levels[upto - 1].search_by(distance, within, 0, 0).descend(
            descent(levels, distance, within, entry, (upto - 1) as nat),
        )
    }
}

/// The item that the search of the ground level starts from.
pub open spec fn ground_entry(
    levels: Seq<GraphModel>,
    distance: spec_fn(usize) -> i64,
    within: spec_fn(i64, i64) -> bool,
    entry_point: usize,
) -> ScoredItem {
    let last = (levels.len() - 1) as nat;
    let entry = ScoredItem {
        distance: distance(levels[0].external(entry_point)),
        vector: entry_point,
    };
    let x = descent(levels, distance, within, entry, last);
    ScoredItem {
        distance: x.distance,
        vector: if last > 0 {
            levels[last - 1].external(x.vector)
        } else {
            entry_point
        },
    }
}

pub proof fn lemma_descent(
    levels: Seq<GraphModel>,
    n: nat,
    distance: spec_fn(usize) -> i64,
    within: spec_fn(i64, i64) -> bool,
    entry: ScoredItem,
    upto: nat,
)
    requires
        hierarchy_ok(levels, n),
        entry.vector < levels[0].adj.len(),
        entry.distance == distance(levels[0].external(entry.vector)),
        upto < levels.len(),
    ensures
        ({
            let x = descent(levels, distance, within, entry, upto);
            let from = if upto == 0 {
                levels[0]
            } else {
                levels[upto - 1]
            };
            &&& x.vector < levels[upto as int].adj.len()
            &&& x.vector < from.adj.len()
            &&& x.distance == distance(from.external(x.vector))
        }),
    decreases upto,
{
    if upto > 0 {
        let i = upto - 1;
        lemma_descent(levels, n, distance, within, entry, i as nat);
        assert(level_ok(levels[i], n, i == levels.len() - 1));
        assert(nested_at(levels, i));
        let y = descent(levels, distance, within, entry, i as nat);
        if i > 0 {
            assert(nested_at(levels, i - 1));
            assert(levels[i - 1].external(y.vector) == levels[i].external(y.vector));
        }
        law_greedy_walk_ends_at_local_minimum(levels[i].search_by(distance, within, 0, 0), y);
    }
}

/// The search of the ground level starts from a vector of the dataset, with its distance.
pub proof fn lemma_ground_entry(
    levels: Seq<GraphModel>,
    n: nat,
    distance: spec_fn(usize) -> i64,
    within: spec_fn(i64, i64) -> bool,
    entry_point: usize,
)
    requires
        hierarchy_ok(levels, n),
        entry_point < levels[0].adj.len(),
    ensures
        ground_entry(levels, distance, within, entry_point).vector < n,
        ground_entry(levels, distance, within, entry_point).distance == distance(
            ground_entry(levels, distance, within, entry_point).vector,
        ),
{
    let last = levels.len() - 1;
    let entry = ScoredItem {
        distance: distance(levels[0].external(entry_point)),
        vector: entry_point,
    };
    lemma_descent(levels, n, distance, within, entry, last as nat);
    assert(level_ok(levels[last], n, true));
    if last > 0 {
        assert(level_ok(levels[last - 1], n, false));
        let x = descent(levels, distance, within, entry, last as nat);
        assert(levels[last - 1].has_external(x.vector));
    }
}

} // verus!
