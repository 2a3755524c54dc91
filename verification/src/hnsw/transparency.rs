//! A reordered index finds what the index found before.
use crate::beam::start;
use crate::graph::remap::{law_reordering_keeps_links, renamed};
use crate::graph::GraphModel;
use crate::hnsw::hierarchy::{
    descent, ground_entry, hierarchy_ok, lemma_descent, lemma_ground_entry, level_ok, nested_at,
};
use crate::hnsw::remap::{
    lemma_level_order, level_order, previous_globals, remapped, remapped_entry,
};
use crate::permutation::{inverted, is_permutation, law_inverse_takes_back, takes_back};
use crate::renaming::{
    is_renaming, law_search_follows_renaming, law_walk_follows_renaming, renamed_item,
    renamed_items, scores_differ,
};
use crate::scored::ScoredItem;
use vstd::prelude::*;

verus! {

/// The vectors are as far as before, each under its new id.
pub open spec fn same_distances(
    permutation: Seq<usize>,
    distance: spec_fn(usize) -> i64,
    new_distance: spec_fn(usize) -> i64,
) -> bool {
    forall|id: usize|
        id < permutation.len() ==> #[trigger] new_distance(permutation[id as int]) == distance(id)
}

/// The new local ids of the upper level `i`.
spec fn new_locals(levels: Seq<GraphModel>, permutation: Seq<usize>, i: int) -> Seq<usize> {
    inverted(level_order(levels, permutation, i))
}

proof fn lemma_upper_renaming(
    levels: Seq<GraphModel>,
    permutation: Seq<usize>,
    n: nat,
    distance: spec_fn(usize) -> i64,
    new_distance: spec_fn(usize) -> i64,
    within: spec_fn(i64, i64) -> bool,
    i: int,
)
    requires
        hierarchy_ok(levels, n),
        n <= usize::MAX,
        is_permutation(permutation),
        permutation.len() == n,
        same_distances(permutation, distance, new_distance),
        0 <= i < levels.len() - 1,
    ensures
        is_renaming(
            levels[i].search_by(distance, within, 0, 0),
            remapped(levels, permutation)[i].search_by(new_distance, within, 0, 0),
            new_locals(levels, permutation, i),
        ),
        forall|u: usize|
            u < levels[i].adj.len() ==> remapped(levels, permutation)[i].external(
                #[trigger] new_locals(levels, permutation, i)[u as int],
            ) == permutation[levels[i].external(u) as int],
{
    let g = levels[i];
    let r = remapped(levels, permutation)[i];
    let order = level_order(levels, permutation, i);
    let new_ids = new_locals(levels, permutation, i);
    assert(level_ok(g, n, false));
    lemma_level_order(levels, permutation, n, i);
    law_inverse_takes_back(order);
    law_reordering_keeps_links(g.adj, order, new_ids);
    let m = g.search_by(distance, within, 0, 0);
    let other = r.search_by(new_distance, within, 0, 0);
    assert forall|u: usize| u < g.adj.len() implies r.external(#[trigger] new_ids[u as int])
        == permutation[g.external(u) as int] by {
        assert(new_ids[u as int] < new_ids.len());
        assert(order[new_ids[u as int] as int] == u);
    }
    assert forall|u: usize| u < m.adj.len() implies #[trigger] (other.score)(new_ids[u as int])
        == (m.score)(u) by {
        assert(g.has_external(u));
        assert(r.external(new_ids[u as int]) == permutation[g.external(u) as int]);
    }
    assert forall|u: usize| u < m.adj.len() implies #[trigger] other.adj[new_ids[u as int] as int]
        == renamed(m.adj[u as int], new_ids) by {
        assert(new_ids[u as int] < new_ids.len());
    }
}

/// A node keeps its new local id from one level to the next.
proof fn lemma_locals_agree(
    levels: Seq<GraphModel>,
    permutation: Seq<usize>,
    n: nat,
    i: int,
    u: usize,
)
    requires
        hierarchy_ok(levels, n),
        n <= usize::MAX,
        0 < i < levels.len() - 1,
        u < levels[i - 1].adj.len(),
    ensures
        new_locals(levels, permutation, i - 1)[u as int] == new_locals(
            levels,
            permutation,
            i,
        )[u as int],
{
    let above = level_order(levels, permutation, i - 1);
    let here = level_order(levels, permutation, i);
    lemma_level_order(levels, permutation, n, i - 1);
    lemma_level_order(levels, permutation, n, i);
    law_inverse_takes_back(above);
    law_inverse_takes_back(here);
    assert(level_ok(levels[i], n, false));
    assert(nested_at(levels, i - 1));
    let j = inverted(above)[u as int];
    assert(j < above.len());
    assert(above[j as int] == u);
    let previous = previous_globals(levels, permutation, i as nat);
    assert(previous[j as int] == levels[i - 1].external(u));
    assert(levels[i].external(here[j as int]) == previous[j as int]);
    assert(levels[i - 1].external(u) == levels[i].external(u));
    assert(here[j as int] < here.len());
    assert(here[j as int] == u);
    assert(inverted(here)[here[j as int] as int] == j);
}

proof fn lemma_descent_renamed(
    levels: Seq<GraphModel>,
    permutation: Seq<usize>,
    n: nat,
    distance: spec_fn(usize) -> i64,
    new_distance: spec_fn(usize) -> i64,
    within: spec_fn(i64, i64) -> bool,
    entry: ScoredItem,
    upto: nat,
)
    requires
        hierarchy_ok(levels, n),
        n <= usize::MAX,
        is_permutation(permutation),
        permutation.len() == n,
        same_distances(permutation, distance, new_distance),
        0 < upto < levels.len(),
        entry.vector < levels[0].adj.len(),
        entry.distance == distance(levels[0].external(entry.vector)),
    ensures
        descent(
            remapped(levels, permutation),
            new_distance,
            within,
            renamed_item(entry, new_locals(levels, permutation, 0)),
            upto,
        ) == renamed_item(
            descent(levels, distance, within, entry, upto),
            new_locals(levels, permutation, upto - 1),
        ),
    decreases upto,
{
    let i = upto - 1;
    let r = remapped(levels, permutation);
    let new_entry = renamed_item(entry, new_locals(levels, permutation, 0));
    let x = descent(levels, distance, within, entry, i as nat);
    let y = descent(r, new_distance, within, new_entry, i as nat);
    lemma_descent(levels, n, distance, within, entry, i as nat);
    if i > 0 {
        lemma_descent_renamed(
            levels,
            permutation,
            n,
            distance,
            new_distance,
            within,
            entry,
            i as nat,
        );
        lemma_locals_agree(levels, permutation, n, i, x.vector);
    }
    assert(y == renamed_item(x, new_locals(levels, permutation, i)));
    lemma_upper_renaming(levels, permutation, n, distance, new_distance, within, i);
    law_walk_follows_renaming(
        levels[i].search_by(distance, within, 0, 0),
        r[i].search_by(new_distance, within, 0, 0),
        new_locals(levels, permutation, i),
        x,
    );
}

/// A reordered index is searched from the same vector, under its new id.
pub proof fn lemma_entry_renamed(
    levels: Seq<GraphModel>,
    permutation: Seq<usize>,
    n: nat,
    distance: spec_fn(usize) -> i64,
    new_distance: spec_fn(usize) -> i64,
    within: spec_fn(i64, i64) -> bool,
    entry_point: usize,
)
    requires
        hierarchy_ok(levels, n),
        n <= usize::MAX,
        is_permutation(permutation),
        permutation.len() == n,
        same_distances(permutation, distance, new_distance),
        entry_point < levels[0].adj.len(),
    ensures
        ground_entry(
            remapped(levels, permutation),
            new_distance,
            within,
            remapped_entry(levels, permutation, entry_point),
        ) == renamed_item(ground_entry(levels, distance, within, entry_point), permutation),
{
    let last = levels.len() - 1;
    let r = remapped(levels, permutation);
    let new_entry_point = remapped_entry(levels, permutation, entry_point);
    let entry = ScoredItem {
        distance: distance(levels[0].external(entry_point)),
        vector: entry_point,
    };
    if last == 0 {
        assert(level_ok(levels[0], n, true));
        assert(new_distance(permutation[entry_point as int]) == distance(entry_point));
    } else {
        assert(level_ok(levels[0], n, false));
        assert(levels[0].has_external(entry_point));
        lemma_upper_renaming(levels, permutation, n, distance, new_distance, within, 0);
        let new_ids = new_locals(levels, permutation, 0);
        assert(new_entry_point == new_ids[entry_point as int]);
        assert(r[0].external(new_entry_point) == permutation[levels[0].external(
            entry_point,
        ) as int]);
        let new_entry = ScoredItem {
            distance: new_distance(r[0].external(new_entry_point)),
            vector: new_entry_point,
        };
        assert(new_distance(permutation[levels[0].external(entry_point) as int]) == distance(
            levels[0].external(entry_point),
        ));
        assert(new_entry == renamed_item(entry, new_ids));
        lemma_descent(levels, n, distance, within, entry, last as nat);
        lemma_descent_renamed(
            levels,
            permutation,
            n,
            distance,
            new_distance,
            within,
            entry,
            last as nat,
        );
        lemma_upper_renaming(levels, permutation, n, distance, new_distance, within, last - 1);
        let x = descent(levels, distance, within, entry, last as nat);
        assert(r[last - 1].external(
            new_locals(levels, permutation, last - 1)[x.vector as int],
        ) == permutation[levels[last - 1].external(x.vector) as int]);
    }
}

/// A reordered index finds the same vectors under their new ids, with the same distances and in
/// the same order, as long as no two vectors are equally far from the query. Taking the results
/// back with the inverse permutation gives those of the index before.
pub proof fn law_reordered_index_finds_the_same(
    levels: Seq<GraphModel>,
    permutation: Seq<usize>,
    n: nat,
    distance: spec_fn(usize) -> i64,
    new_distance: spec_fn(usize) -> i64,
    within: spec_fn(i64, i64) -> bool,
    relaxed: spec_fn(i64, i64) -> bool,
    ef: usize,
    k: usize,
    entry_point: usize,
)
    requires
        hierarchy_ok(levels, n),
        n <= usize::MAX,
        is_permutation(permutation),
        permutation.len() == n,
        same_distances(permutation, distance, new_distance),
        entry_point < levels[0].adj.len(),
        forall|u: usize, v: usize|
            u < n && v < n && #[trigger] distance(u) == #[trigger] distance(v) ==> u == v,
    ensures
        ({
            let r = remapped(levels, permutation);
            let m = levels.last().search_by(distance, relaxed, ef, k);
            let other = r.last().search_by(new_distance, relaxed, ef, k);
            let found = m.outcome(
                m.expansion(),
                start(ground_entry(levels, distance, within, entry_point)),
            );
            let new_found = other.outcome(
                other.expansion(),
                start(
                    ground_entry(
                        r,
                        new_distance,
                        within,
                        remapped_entry(levels, permutation, entry_point),
                    ),
                ),
            );
            &&& new_found == renamed_items(found, permutation)
            &&& takes_back(permutation, inverted(permutation))
        }),
{
    let last = levels.len() - 1;
    let r = remapped(levels, permutation);
    let g = levels[last];
    let m = levels.last().search_by(distance, relaxed, ef, k);
    let other = r.last().search_by(new_distance, relaxed, ef, k);
    let entry = ground_entry(levels, distance, within, entry_point);
    assert(level_ok(g, n, true));
    lemma_entry_renamed(
        levels,
        permutation,
        n,
        distance,
        new_distance,
        within,
        entry_point,
    );
    lemma_ground_entry(levels, n, distance, within, entry_point);
    law_inverse_takes_back(permutation);
    law_reordering_keeps_links(g.adj, inverted(permutation), permutation);
    assert forall|u: usize| u < m.adj.len() implies #[trigger] (other.score)(
        permutation[u as int],
    ) == (m.score)(u) by {
        assert(new_distance(permutation[u as int]) == distance(u));
    }
    assert forall|u: usize| u < m.adj.len() implies
        #[trigger] other.adj[permutation[u as int] as int] == renamed(
        m.adj[u as int],
        permutation,
    ) by {
        assert(permutation[u as int] < permutation.len());
    }
    assert(is_renaming(m, other, permutation));
    assert(scores_differ(m)) by {
        assert forall|u: usize, v: usize|
            u < m.adj.len() && v < m.adj.len() && #[trigger] (m.score)(u) == #[trigger] (m.score)(
                v,
            ) implies u == v by {
            assert(distance(u) == distance(v));
        }
    }
    law_search_follows_renaming(m, other, permutation, entry);
}

} // verus!
