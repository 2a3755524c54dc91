//! The way down through the levels: on each one, from neighbour to nearest neighbour.
use crate::beam::{closed, lemma_descend, lemma_nearest_of, SearchModel};
use crate::graph::GraphModel;
use crate::hnsw::hierarchy::{descent, ground_entry, hierarchy_ok, level_ok, nested_at};
use crate::scored::ScoredItem;
use vstd::prelude::*;

verus! {

/// Of the neighbours of `a`, node `b` is the first one that none is nearer than, and it is nearer
/// than `a`.
pub open spec fn nearest_neighbor(
    adj: Seq<Seq<usize>>,
    score: spec_fn(usize) -> i64,
    a: usize,
    b: usize,
) -> bool {
    let nbrs = adj[a as int];
    &&& score(b) < score(a)
    &&& exists|j: int|
        {
            &&& 0 <= j < nbrs.len()
            &&& #[trigger] nbrs[j] == b
            &&& forall|l: int| 0 <= l < nbrs.len() ==> score(b) <= score(#[trigger] nbrs[l])
            &&& forall|l: int| 0 <= l < j ==> score(b) < score(#[trigger] nbrs[l])
        }
}

/// The nodes of `path` follow one another from node to nearest neighbour, until none is nearer.
pub open spec fn greedy_path(
    adj: Seq<Seq<usize>>,
    score: spec_fn(usize) -> i64,
    path: Seq<usize>,
) -> bool {
    &&& path.len() > 0
    &&& forall|i: int|
        0 <= i < path.len() - 1 ==> nearest_neighbor(adj, score, #[trigger] path[i], path[i + 1])
    &&& forall|l: int|
        0 <= l < adj[path.last() as int].len() ==> score(path.last()) <= score(
            #[trigger] adj[path.last() as int][l],
        )
}

/// Going from neighbour to nearest neighbour leads from `a` to `b`.
pub open spec fn walks_to(
    adj: Seq<Seq<usize>>,
    score: spec_fn(usize) -> i64,
    a: usize,
    b: usize,
) -> bool {
    exists|path: Seq<usize>| #[trigger]
        greedy_path(adj, score, path) && path[0] == a && path.last() == b
}

/// The walk through the level `g` leads from node `a` to node `b`.
pub open spec fn walks_through(
    g: GraphModel,
    distance: spec_fn(usize) -> i64,
    a: usize,
    b: usize,
) -> bool {
    walks_to(g.adj, |id: usize| distance(g.external(id)), a, b)
}

/// The walks through the levels above the ground level lead from the entry point to `stops`, one
/// level after the other.
pub open spec fn way_down(
    levels: Seq<GraphModel>,
    distance: spec_fn(usize) -> i64,
    entry_point: usize,
    stops: Seq<usize>,
) -> bool {
    &&& stops.len() == levels.len()
    &&& stops[0] == entry_point
    &&& forall|i: int|
        0 <= i < levels.len() - 1 ==> walks_through(
            #[trigger] levels[i],
            distance,
            stops[i],
            stops[i + 1],
        )
}

/// The way down from the entry point ends at the vector `v` of the ground level.
pub open spec fn arrives_at(
    levels: Seq<GraphModel>,
    distance: spec_fn(usize) -> i64,
    entry_point: usize,
    v: usize,
) -> bool {
    exists|stops: Seq<usize>| #[trigger]
        way_down(levels, distance, entry_point, stops) && v == if levels.len() == 1 {
            entry_point
        } else {
            levels[levels.len() - 2].external(stops.last())
        }
}

/// A move of a greedy walk goes to the nearest neighbour.
proof fn lemma_move(m: SearchModel, best: ScoredItem, nbrs: Seq<usize>) -> (j: int)
    requires
        m.nearest_of(best, nbrs) != best,
    ensures
        ({
            let x = m.nearest_of(best, nbrs);
            &&& 0 <= j < nbrs.len()
            &&& nbrs[j] == x.vector
            &&& x == m.item(x.vector)
            &&& x.distance < best.distance
            &&& forall|l: int|
                0 <= l < nbrs.len() ==> x.distance <= (m.score)(#[trigger] nbrs[l])
            &&& forall|l: int| 0 <= l < j ==> x.distance < (m.score)(#[trigger] nbrs[l])
        }),
    decreases nbrs.len(),
{
    let rest = nbrs.drop_last();
    let at = nbrs.len() - 1;
    let x = m.nearest_of(best, nbrs);
    let prev = m.nearest_of(best, rest);
    assert(forall|l: int| 0 <= l < rest.len() ==> rest[l] == nbrs[l]);
    lemma_nearest_of(m, best, nbrs);
    lemma_nearest_of(m, best, rest);
    if (m.score)(nbrs[at]) < prev.distance {
        assert forall|l: int| 0 <= l < at implies x.distance < (m.score)(#[trigger] nbrs[l]) by {
            assert(rest[l] == nbrs[l]);
        }
        at
    } else {
        let j = lemma_move(m, best, rest);
        assert forall|l: int| 0 <= l < j implies x.distance < (m.score)(#[trigger] nbrs[l]) by {
            assert(rest[l] == nbrs[l]);
        }
        j
    }
}

proof fn lemma_walk_on(m: SearchModel, entry: ScoredItem, hops: nat)
    ensures
        m.walk(entry, hops + 1) == m.walk(m.walk(entry, 1), hops),
    decreases hops,
{
    if hops > 0 {
        lemma_walk_on(m, entry, (hops - 1) as nat);
    } else {
        reveal_with_fuel(SearchModel::walk, 2);
    }
}

/// A greedy walk as a path, with the number of its moves.
proof fn lemma_walk_path(m: SearchModel, entry: ScoredItem) -> (walked: (Seq<usize>, nat))
    requires
        closed(m.adj),
        entry.vector < m.adj.len(),
        entry == m.item(entry.vector),
    ensures
        greedy_path(m.adj, m.score, walked.0),
        walked.0[0] == entry.vector,
        m.settled(m.walk(entry, walked.1)),
        m.walk(entry, walked.1) == m.item(walked.0.last()),
        walked.0.last() < m.adj.len(),
    decreases entry.distance - i64::MIN,
{
    let nbrs = m.adj[entry.vector as int];
    if m.settled(entry) {
        lemma_nearest_of(m, entry, nbrs);
        let path = seq![entry.vector];
        assert(m.walk(entry, 0) == entry);
        (path, 0)
    } else {
        let j = lemma_move(m, entry, nbrs);
        let next = m.nearest_of(entry, nbrs);
        assert(m.adj[entry.vector as int][j] < m.adj.len());
        reveal_with_fuel(SearchModel::walk, 2);
        assert(m.walk(entry, 1) == next);
        let (path, hops) = lemma_walk_path(m, next);
        lemma_walk_on(m, entry, hops);
        let longer = seq![entry.vector] + path;
        assert forall|i: int| 0 <= i < longer.len() - 1 implies nearest_neighbor(
            m.adj,
            m.score,
            #[trigger] longer[i],
            longer[i + 1],
        ) by {
            if i == 0 {
                assert(nbrs[j] == next.vector);
            } else {
                assert(longer[i] == path[i - 1] && longer[i + 1] == path[i]);
            }
        }
        assert(longer.last() == path.last());
        (longer, hops + 1)
    }
}

/// A greedy walk goes from neighbour to nearest neighbour, until none is nearer.
pub proof fn law_greedy_walk_goes_to_nearest_neighbors(m: SearchModel, entry: ScoredItem)
    requires
        closed(m.adj),
        entry.vector < m.adj.len(),
        entry == m.item(entry.vector),
    ensures
        walks_to(m.adj, m.score, entry.vector, m.descend(entry).vector),
        m.descend(entry) == m.item(m.descend(entry).vector),
        m.descend(entry).vector < m.adj.len(),
{
    let (path, hops) = lemma_walk_path(m, entry);
    lemma_descend(m, entry, hops);
    assert(greedy_path(m.adj, m.score, path));
}

/// The stops of the way down through the first `upto` levels.
pub proof fn lemma_stops(
    levels: Seq<GraphModel>,
    n: nat,
    distance: spec_fn(usize) -> i64,
    within: spec_fn(i64, i64) -> bool,
    entry: ScoredItem,
    upto: nat,
) -> (stops: Seq<usize>)
    requires
        hierarchy_ok(levels, n),
        upto < levels.len(),
        entry.vector < levels[0].adj.len(),
        entry.distance == distance(levels[0].external(entry.vector)),
    ensures
        stops.len() == upto + 1,
        stops[0] == entry.vector,
        forall|i: int|
            0 <= i < upto ==> walks_through(#[trigger] levels[i], distance, stops[i], stops[i + 1]),
        descent(levels, distance, within, entry, upto).vector == stops.last(),
        upto == 0 ==> descent(levels, distance, within, entry, upto) == entry,
        upto > 0 ==> {
            let x = descent(levels, distance, within, entry, upto);
            &&& x.distance == distance(levels[upto - 1].external(x.vector))
            &&& x.vector < levels[upto - 1].adj.len()
        },
    decreases upto,
{
    if upto == 0 {
        seq![entry.vector]
    } else {
        let above = (upto - 1) as nat;
        let stops = lemma_stops(levels, n, distance, within, entry, above);
        let x = descent(levels, distance, within, entry, above);
        let g = levels[above as int];
        assert(level_ok(g, n, above == levels.len() - 1));
        if above > 0 {
            assert(nested_at(levels, above - 1));
            assert(level_ok(levels[above - 1], n, false));
            assert(levels[above - 1].external(x.vector) == g.external(x.vector));
        }
        let m = g.search_by(distance, within, 0, 0);
        let score = |id: usize| distance(g.external(id));
        assert(m.score =~= score);
        law_greedy_walk_goes_to_nearest_neighbors(m, x);
        let y = m.descend(x);
        let longer = stops.push(y.vector);
        assert forall|i: int| 0 <= i < upto implies walks_through(
            #[trigger] levels[i],
            distance,
            longer[i],
            longer[i + 1],
        ) by {
            if i < above {
                assert(longer[i] == stops[i] && longer[i + 1] == stops[i + 1]);
            }
        }
        longer
    }
}

/// The search of the ground level starts where the way down ends: from the entry point, on each
/// level in turn, from neighbour to nearest neighbour until none is nearer.
pub proof fn law_search_starts_where_the_way_down_ends(
    levels: Seq<GraphModel>,
    n: nat,
    distance: spec_fn(usize) -> i64,
    within: spec_fn(i64, i64) -> bool,
    entry_point: usize,
)
    requires
        hierarchy_ok(levels, n),
        entry_point < levels[0].adj.len(),
    ensures
        ({
            let x = ground_entry(levels, distance, within, entry_point);
            &&& arrives_at(levels, distance, entry_point, x.vector)
            &&& x.distance == distance(x.vector)
        }),
{
    let last = (levels.len() - 1) as nat;
    let entry = ScoredItem {
        distance: distance(levels[0].external(entry_point)),
        vector: entry_point,
    };
    let stops = lemma_stops(levels, n, distance, within, entry, last);
    assert(level_ok(levels[0], n, 0 == last));
    assert(way_down(levels, distance, entry_point, stops));
}

} // verus!
