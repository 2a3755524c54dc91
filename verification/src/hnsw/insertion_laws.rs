//! What the insertion of a vector does to the levels.
use crate::best_first::{
    ends_with, law_graph_searches_are_best_first, neighbors_shown, scores_from, steady,
    well_behaved,
};
use crate::graph::growable::{fronted, relink};
use crate::graph::insertion::lemma_shrunk;
use crate::graph::selection::{kept_around, kept_of, law_reverse_lists, law_selection_is_maximal};
use crate::graph::GraphModel;
use crate::hnsw::construction::{
    lemma_bottom_entry, lemma_links, lemma_sizes, lemma_sound_hierarchy, lemma_upper_entry,
    same_sizes, Construction,
};
use crate::hnsw::linkage::{
    all_present, lemma_batch_stage, lemma_found_present, lemma_present_more, lemma_present_next,
    lemma_relink_at, lemma_shrunk_different, linked, node_linked, present, stage,
};
use crate::hnsw::way_down::{lemma_stops, walks_through};
use crate::scored::{ids, ScoredItem};
use crate::soundness::{everything, law_search_is_sound};
use vstd::prelude::*;

verus! {

/// A best-first search of `g` from `entry` with room for `ef` candidates finds those that the
/// neighbours `forward` are kept of.
pub open spec fn chosen_links(
    g: GraphModel,
    score: spec_fn(usize) -> i64,
    within: spec_fn(i64, i64) -> bool,
    ef: nat,
    entry: usize,
    distance: spec_fn(usize, usize) -> i64,
    bound: nat,
    forward: Seq<usize>,
) -> bool {
    exists|found: Seq<ScoredItem>| #[trigger]
        ends_with(neighbors_shown(g.adj), score, within, ef, everything(), entry, found) && kept_of(
            found,
            distance,
            bound,
            forward,
        )
}

/// A best-first search of `g` from `entry` with room for `ef` candidates finds `x` as the nearest.
pub open spec fn nearest_candidate(
    g: GraphModel,
    score: spec_fn(usize) -> i64,
    within: spec_fn(i64, i64) -> bool,
    ef: nat,
    entry: usize,
    x: usize,
) -> bool {
    exists|found: Seq<ScoredItem>|
        {
            &&& #[trigger] ends_with(
                neighbors_shown(g.adj),
                score,
                within,
                ef,
                everything(),
                entry,
                found,
            )
            &&& found.len() > 0
            &&& x == found[0].vector
        }
}

/// The walks through the first `upto` levels, the first one from node 0, lead to node `x`.
pub open spec fn stops_at(
    levels: Seq<GraphModel>,
    distance: spec_fn(usize) -> i64,
    upto: int,
    x: usize,
) -> bool {
    exists|stops: Seq<usize>|
        {
            &&& stops.len() == upto + 1
            &&& #[trigger] stops[0] == 0
            &&& forall|i: int|
                0 <= i < upto ==> walks_through(
                    #[trigger] levels[i],
                    distance,
                    stops[i],
                    stops[i + 1],
                )
            &&& stops.last() == x
        }
}

/// The distances are at least `lo`, and the test is steady on such distances.
pub open spec fn steady_construction(cons: Construction, lo: i64) -> bool {
    &&& steady(cons.within, lo)
    &&& forall|a: usize, b: usize| #[trigger] (cons.from)(a, b) >= lo
}

/// The node of level index `c` that the search for links of the vector at position `q` starts from.
pub open spec fn link_entry(
    cons: Construction,
    levels: Seq<GraphModel>,
    q: usize,
    level: nat,
    c: nat,
) -> ScoredItem {
    if c < cons.max_level {
        cons.upper_entry(levels, cons.ids[q as int], level, c)
    } else {
        cons.bottom_entry(levels, cons.ids[q as int], level)
    }
}

proof fn lemma_well_behaved(cons: Construction, g: GraphModel, id: usize, lo: i64)
    requires
        steady_construction(cons, lo),
    ensures
        well_behaved(
            |v: usize| (cons.distances(id))(g.external(v)),
            cons.within,
            g.adj.len(),
        ),
{
    let score = |v: usize| (cons.distances(id))(g.external(v));
    assert(scores_from(score, g.adj.len(), lo));
    assert(steady(cons.within, lo));
}

/// The items that searches for links start from have their distances.
proof fn lemma_entry_distance(
    cons: Construction,
    levels: Seq<GraphModel>,
    inserted: usize,
    level: nat,
    c: nat,
)
    requires
        cons.sound(),
        cons.levels_sound(levels),
        cons.ef >= 1,
        0 < level <= cons.max_level,
        cons.max_level - level <= c < cons.max_level,
    ensures
        ({
            let x = cons.upper_entry(levels, inserted, level, c);
            &&& x.vector < levels[c as int].adj.len()
            &&& x.distance == (cons.from)(inserted, levels[c as int].external(x.vector))
        }),
    decreases c,
{
    let top = cons.max_level - level;
    let distance = cons.distances(inserted);
    let x = cons.upper_entry(levels, inserted, level, c);
    assert(cons.level_sound(levels[c as int], c as int));
    lemma_upper_entry(cons, levels, inserted, level, c);
    if c > 0 {
        assert(cons.level_sound(levels[c - 1], c - 1));
        assert(cons.sizes_grow(levels, c - 1));
        assert(levels[c - 1].external(x.vector) == cons.ids[x.vector as int]);
    }
    assert(levels[c as int].external(x.vector) == cons.ids[x.vector as int]);
    if c == top {
        lemma_sound_hierarchy(cons, levels);
        assert(cons.level_sound(levels[0], 0));
        assert(levels[0].external(0) == cons.ids[0]);
        let stops = lemma_stops(
            levels,
            cons.ids.len(),
            distance,
            cons.within,
            cons.first_entry(inserted),
            c,
        );
    } else {
        let above = (c - 1) as nat;
        let g = levels[above as int];
        lemma_entry_distance(cons, levels, inserted, level, above);
        let entry = cons.upper_entry(levels, inserted, level, above);
        let m = g.search_by(distance, cons.within, cons.ef, 0);
        law_search_is_sound(m, entry);
        let found = cons.candidates(g, inserted, entry);
        assert(everything()(entry.vector));
        assert(found[0] == entry || found[0] == m.item(found[0].vector));
    }
}

/// Where the search for the links of a vector starts. A vector of the ground level only starts from
/// the very first one. Any other one starts, on its highest level, where the walks through the levels
/// above lead, and on each level below from the nearest candidate of the level above.
pub proof fn law_insertion_entries(
    cons: Construction,
    levels: Seq<GraphModel>,
    q: usize,
    level: nat,
    c: nat,
    lo: i64,
)
    requires
        cons.sound(),
        cons.levels_sound(levels),
        cons.ef >= 1,
        steady_construction(cons, lo),
        level <= cons.max_level,
        cons.max_level - level <= c <= cons.max_level,
    ensures
        ({
            let top = cons.max_level - level;
            let id = cons.ids[q as int];
            let e = link_entry(cons, levels, q, level, c);
            &&& level == 0 ==> e.vector == cons.ids[0]
            &&& level > 0 && c == top ==> stops_at(
                levels,
                |b: usize| (cons.from)(id, b),
                top,
                e.vector,
            )
            &&& c > top ==> exists|x: usize|
                {
                    &&& #[trigger] nearest_above(cons, levels, q, level, c, x)
                    &&& e.vector == if c < cons.max_level {
                        x
                    } else {
                        levels[c - 1].external(x)
                    }
                }
        }),
{
    let top = cons.max_level - level;
    let id = cons.ids[q as int];
    let distance = cons.distances(id);
    assert(distance =~= (|b: usize| (cons.from)(id, b)));
    if cons.max_level > 0 {
        assert(cons.level_sound(levels[cons.max_level - 1], cons.max_level - 1));
    }
    if level > 0 && c == top {
        lemma_sound_hierarchy(cons, levels);
        assert(cons.level_sound(levels[0], 0));
        assert(levels[0].external(0) == cons.ids[0]);
        let stops = lemma_stops(
            levels,
            cons.ids.len(),
            distance,
            cons.within,
            cons.first_entry(id),
            c,
        );
        assert(stops[0] == 0);
    }
    if c > top {
        let above = (c - 1) as nat;
        let g = levels[above as int];
        let entry = cons.upper_entry(levels, id, level, above);
        assert(cons.level_sound(g, above as int));
        lemma_entry_distance(cons, levels, id, level, above);
        lemma_well_behaved(cons, g, id, lo);
        law_graph_searches_are_best_first(
            g,
            distance,
            cons.within,
            cons.ef,
            0,
            entry,
            everything(),
        );
        let m = g.search_by(distance, cons.within, cons.ef, 0);
        law_search_is_sound(m, entry);
        assert(everything()(entry.vector));
        let found = cons.candidates(g, id, entry);
        assert((|v: usize| distance(g.external(v))) =~= (|v: usize| (cons.from)(id, g.external(v))));
        assert(nearest_above(cons, levels, q, level, c, found[0].vector));
    }
}

/// Node `x` is the nearest candidate for the vector at position `q` on the level above level index
/// `c`.
pub open spec fn nearest_above(
    cons: Construction,
    levels: Seq<GraphModel>,
    q: usize,
    level: nat,
    c: nat,
    x: usize,
) -> bool {
    nearest_candidate(
        levels[c - 1],
        |v: usize| (cons.from)(cons.ids[q as int], levels[c - 1].external(v)),
        cons.within,
        cons.ef as nat,
        link_entry(cons, levels, q, level, (c - 1) as nat).vector,
        x,
    )
}

/// What the insertion of the vector at position `q` does to one of its levels, on which it is node
/// `local`, with links chosen when the levels were `base`. The new node gets neighbours of those that
/// a best-first search finds, on the ground level up to twice as many as above. Each of them chooses
/// anew among its neighbours and the new node. All other lists stay.
pub proof fn law_insertion_links_both_ways(
    cons: Construction,
    levels: Seq<GraphModel>,
    base: Seq<GraphModel>,
    p: nat,
    q: usize,
    level: nat,
    c: nat,
    local: usize,
    lo: i64,
)
    requires
        local == (if c < cons.max_level {
            q
        } else {
            cons.ids[q as int]
        }),
        cons.m >= 1,
        cons.ef >= 1,
        steady_construction(cons, lo),
        stage(cons, levels, q as nat, level),
        stage(cons, base, p, level),
        same_sizes(levels, base),
        p <= q,
        q < base[cons.max_level - level].adj.len(),
        cons.max_level - level <= c <= cons.max_level,
    ensures
        ({
            let id = cons.ids[q as int];
            let g = base[c as int];
            let bound: nat = if c < cons.max_level {
                cons.m as nat
            } else {
                2 * cons.m as nat
            };
            let distance = |a: usize, b: usize| (cons.between)(g.external(a), g.external(b));
            let after = cons.insert(levels, base, q, level)[c as int];
            let forward = after.adj[local as int];
            &&& chosen_links(
                g,
                |v: usize| (cons.from)(id, g.external(v)),
                cons.within,
                cons.ef as nat,
                link_entry(cons, base, q, level, c).vector,
                distance,
                bound,
                forward,
            )
            &&& forward.len() > 0
            &&& all_present(cons, c as int, p, forward)
            &&& forall|i: int|
                0 <= i < forward.len() ==> kept_around(
                    distance,
                    #[trigger] forward[i],
                    g.adj[forward[i] as int].to_set().insert(local),
                    g.adj[forward[i] as int].len() + 1,
                    bound,
                    after.adj[forward[i] as int],
                )
            &&& forall|u: usize|
                u < after.adj.len() && u != local && !forward.contains(u)
                    ==> #[trigger] after.adj[u as int] == levels[c as int].adj[u as int]
            &&& after.adj.len() == levels[c as int].adj.len()
            &&& after.external(local) == id
        }),
{
    let top = cons.max_level - level;
    let ci = c as int;
    let id = cons.ids[q as int];
    let g = base[ci];
    let lg = levels[ci];
    assert(local == cons.local_id(q, c));
    let distance = cons.node_distance(g);
    let found = cons.found(base, q, level, c);
    let links = cons.links(base, q, level, c);
    let forward = links.0;
    let after = cons.insert(levels, base, q, level)[ci];
    let entry = link_entry(cons, base, q, level, c);
    assert(distance =~= (|a: usize, b: usize| (cons.between)(g.external(a), g.external(b))));
    assert(cons.level_sound(g, ci));
    assert(cons.level_sound(lg, ci));
    assert(lg.adj.len() == g.adj.len());
    lemma_sizes(cons, base, top, ci);
    assert(cons.level_sound(base[top], top));
    assert(id < cons.ids.len());
    assert(linked(cons, levels[ci], ci, q as nat));
    assert(linked(cons, base[ci], ci, p));
    // The candidates.
    if c < cons.max_level {
        lemma_entry_distance(cons, base, id, level, c);
    } else {
        lemma_bottom_entry(cons, base, id, level);
    }
    lemma_well_behaved(cons, g, id, lo);
    law_graph_searches_are_best_first(
        g,
        cons.distances(id),
        cons.within,
        cons.ef,
        0,
        entry,
        everything(),
    );
    assert((|v: usize| (cons.distances(id))(g.external(v))) =~= (|v: usize|
        (cons.from)(id, g.external(v))));
    law_selection_is_maximal(found, distance, cons.degree(c));
    // The lists.
    lemma_found_present(cons, base, p, q, level, c);
    lemma_shrunk_different(found, distance, cons.degree(c));
    lemma_links(cons, base, q, level, c);
    lemma_present_next(cons, ci, q, local);
    if present(cons, ci, p, local) {
        lemma_present_more(cons, ci, p, q as nat, local);
    }
    lemma_shrunk(found, distance, cons.degree(c));
    assert forall|i: int| 0 <= i < forward.len() implies present(cons, ci, p, #[trigger] forward[i])
        && forward[i] != local && forward[i] < g.adj.len() by {
        let j = choose|j: int| 0 <= j < found.len() && forward[i] == (#[trigger] found[j]).vector;
        assert(ids(found)[j] == forward[i]);
    }
    assert(node_linked(cons, lg, ci, q as nat, local));
    let middle = fronted(lg.adj, local, forward);
    assert(middle[local as int] =~= forward);
    assert(after.adj == relink(middle, links.1));
    assert forall|i: int| 0 <= i < links.1.len() implies (#[trigger] links.1[i]).0 == forward[i]
        && links.1[i].0 < middle.len() by {
    }
    lemma_relink_at(middle, links.1, local as int);
    assert(after.adj[local as int] == forward) by {
        if exists|i: int|
            0 <= i < links.1.len() && (#[trigger] links.1[i]).0 == local && after.adj[local as int]
                == links.1[i].1 {
            let i = choose|i: int|
                0 <= i < links.1.len() && (#[trigger] links.1[i]).0 == local
                    && after.adj[local as int] == links.1[i].1;
            assert(forward[i] == local);
        }
    }
    assert forall|i: int| 0 <= i < forward.len() implies kept_around(
        distance,
        #[trigger] forward[i],
        g.adj[forward[i] as int].to_set().insert(local),
        g.adj[forward[i] as int].len() + 1,
        cons.degree(c),
        after.adj[forward[i] as int],
    ) by {
        let v = forward[i];
        lemma_relink_at(middle, links.1, v as int);
        assert(links.1[i].0 == v);
        let l = choose|l: int|
            0 <= l < links.1.len() && (#[trigger] links.1[l]).0 == v && after.adj[v as int]
                == links.1[l].1;
        assert(forward[l] == v);
        assert(node_linked(cons, g, ci, p, v));
        if g.adj[v as int].contains(local) {
            let j = choose|j: int| 0 <= j < g.adj[v as int].len() && g.adj[v as int][j] == local;
            assert(present(cons, ci, p, g.adj[v as int][j]));
        }
        law_reverse_lists(g, distance, local, forward, l);
    }
    assert forall|u: usize|
        u < after.adj.len() && u != local && !forward.contains(
            u,
        ) implies #[trigger] after.adj[u as int] == lg.adj[u as int] by {
        lemma_relink_at(middle, links.1, u as int);
        if exists|i: int| 0 <= i < links.1.len() && (#[trigger] links.1[i]).0 == u {
            let i = choose|i: int| 0 <= i < links.1.len() && (#[trigger] links.1[i]).0 == u;
            assert(forward[i] == u);
        }
    }
}

/// All vectors of a batch choose their neighbours on the levels as they were before the batch: once
/// the batch is inserted, each one still has the neighbours chosen there, and all of these were
/// inserted before the batch.
pub proof fn law_batch_members_link_to_earlier_vectors(
    cons: Construction,
    base: Seq<GraphModel>,
    p: usize,
    count: nat,
    i: nat,
    level: nat,
    c: nat,
    lo: i64,
)
    requires
        steady_construction(cons, lo),
        stage(cons, base, p as nat, level),
        p + count <= base[cons.max_level - level].adj.len(),
        i < count,
        cons.max_level - level <= c <= cons.max_level,
    ensures
        ({
            let q = (p + i) as usize;
            let id = cons.ids[q as int];
            let g = base[c as int];
            let local = if c < cons.max_level {
                q
            } else {
                id
            };
            let bound: nat = if c < cons.max_level {
                cons.m as nat
            } else {
                2 * cons.m as nat
            };
            let forward = cons.insert_batch(base, p, count, level)[c as int].adj[local as int];
            &&& chosen_links(
                g,
                |v: usize| (cons.from)(id, g.external(v)),
                cons.within,
                cons.ef as nat,
                link_entry(cons, base, q, level, c).vector,
                |a: usize, b: usize| (cons.between)(g.external(a), g.external(b)),
                bound,
                forward,
            )
            &&& all_present(cons, c as int, p as nat, forward)
        }),
    decreases count,
{
    let before = (count - 1) as nat;
    let top = cons.max_level - level;
    let levels = cons.insert_batch(base, p, before, level);
    let last = (p + before) as usize;
    assert(cons.level_sound(base[top], top));
    lemma_batch_stage(cons, base, p, before, level);
    law_insertion_links_both_ways(
        cons,
        levels,
        base,
        p as nat,
        last,
        level,
        c,
        cons.local_id(last, c),
        lo,
    );
    if i < before {
        law_batch_members_link_to_earlier_vectors(cons, base, p, before, i, level, c, lo);
        let q = (p + i) as usize;
        let local = cons.local_id(q, c);
        let last_local = cons.local_id(last, c);
        let after = cons.insert_batch(base, p, count, level)[c as int];
        let forward = after.adj[last_local as int];
        lemma_sizes(cons, base, top, c as int);
        assert(cons.level_sound(base[c as int], c as int));
        assert(levels[c as int].adj.len() == base[c as int].adj.len());
        lemma_present_next(cons, c as int, q, local);
        assert(cons.ids[q as int] < cons.ids.len());
        assert(cons.ids[q as int] != cons.ids[last as int]);
        if forward.contains(local) {
            let j = choose|j: int| 0 <= j < forward.len() && forward[j] == local;
            assert(present(cons, c as int, p as nat, forward[j]));
            lemma_present_more(cons, c as int, p as nat, q as nat, local);
        }
        assert(after.adj[local as int] == levels[c as int].adj[local as int]);
    }
}

} // verus!
