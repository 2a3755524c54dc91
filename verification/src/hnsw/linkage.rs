//! What holds of the neighbour lists of every index that is built: no node is linked to itself or
//! twice to another one, and none is left alone.
use crate::dataset::Dataset;
use crate::graph::growable::{fronted, relink};
use crate::graph::insertion::{
    arranged, diverse, law_kept_neighbors_stand_apart, lemma_shrunk, relisted, shrunk,
};
use crate::graph::GraphModel;
use crate::hnsw::acorn::{expanded_list, law_expansion_does_not_shrink, lemma_arranged};
use crate::hnsw::builder::{
    buildable, built_levels, construction, first_position, lemma_counts, lemma_unlinked,
    level_counts, linked_levels, runs_parallel, unlinked_levels,
};
use crate::hnsw::construction::{
    grown, lemma_batches_of_one, lemma_insert, lemma_links, lemma_sizes, lemma_upper_entry,
    same_sizes, Construction,
};
use crate::hnsw::HNSWBuildConfiguration;
use crate::levels::{from_level, highest, law_every_vector_has_a_level};
use crate::permutation::{inverted, law_inverse_takes_back};
use crate::scored::{ids, lemma_rank_bounds, place, rank, ScoredItem};
use crate::soundness::{everything, is_path, law_search_is_sound, reachable};
use vstd::prelude::*;

verus! {

/// The neighbours of node `u` are different nodes other than `u`.
pub open spec fn simple(list: Seq<usize>, u: usize) -> bool {
    list.no_duplicates() && !list.contains(u)
}

/// The items are of different nodes.
pub open spec fn different(items: Seq<ScoredItem>) -> bool {
    forall|i: int, j: int|
        0 <= i < j < items.len() ==> (#[trigger] items[i]).vector != (#[trigger] items[j]).vector
}

/// Node `id` of level index `c` is one of the first `p` that were inserted.
pub open spec fn present(cons: Construction, c: int, p: nat, id: usize) -> bool {
    if c < cons.max_level {
        id < p
    } else {
        exists|j: int| 0 <= j < p && #[trigger] cons.ids[j] == id
    }
}

/// All nodes of `list` are among the first `p` that were inserted.
pub open spec fn all_present(cons: Construction, c: int, p: nat, list: Seq<usize>) -> bool {
    forall|j: int| 0 <= j < list.len() ==> present(cons, c, p, #[trigger] list[j])
}

/// What holds of the list of node `u` once the first `p` nodes were inserted.
pub open spec fn node_linked(cons: Construction, g: GraphModel, c: int, p: nat, u: usize) -> bool {
    let list = g.adj[u as int];
    &&& simple(list, u)
    &&& all_present(cons, c, p, list)
    &&& !present(cons, c, p, u) ==> list.len() == 0
    &&& present(cons, c, p, u) && p >= 2 ==> list.len() >= 1
}

/// What holds of the lists of a level once the first `p` nodes were inserted.
pub open spec fn linked(cons: Construction, g: GraphModel, c: int, p: nat) -> bool {
    forall|u: usize| u < g.adj.len() ==> #[trigger] node_linked(cons, g, c, p, u)
}

/// The levels once the first `p` nodes were inserted, the last of them on all levels up to
/// `level`. The levels above are complete.
pub open spec fn stage(cons: Construction, levels: Seq<GraphModel>, p: nat, level: nat) -> bool {
    let top = cons.max_level - level;
    &&& cons.sound()
    &&& cons.levels_sound(levels)
    &&& level <= cons.max_level
    &&& 1 <= p <= levels[top].adj.len()
    &&& top > 0 ==> levels[top - 1].adj.len() <= p
    &&& forall|c: int|
        0 <= c <= cons.max_level ==> linked(
            cons,
            #[trigger] levels[c],
            c,
            if c < top {
                levels[c].adj.len()
            } else {
                p
            },
        )
}

proof fn lemma_place_different(s: Seq<ScoredItem>, x: ScoredItem)
    requires
        different(s),
        forall|i: int| 0 <= i < s.len() ==> (#[trigger] s[i]).vector != x.vector,
    ensures
        different(place(s, x)),
{
    let t = place(s, x);
    let r = rank(s, x) as int;
    lemma_rank_bounds(s, x);
    assert forall|i: int, j: int| 0 <= i < j < t.len() implies (#[trigger] t[i]).vector != (
    #[trigger] t[j]).vector by {
        let a = if i < r { i } else { i - 1 };
        let b = if j < r { j } else { j - 1 };
        if i != r {
            assert(t[i] == s[a]);
        }
        if j != r {
            assert(t[j] == s[b]);
        }
    }
}

pub proof fn lemma_arranged_different(list: Seq<usize>, score: spec_fn(usize) -> i64)
    requires
        list.no_duplicates(),
    ensures
        different(arranged(list, score)),
    decreases list.len(),
{
    if list.len() > 0 {
        let rest = list.drop_last();
        let x = ScoredItem { distance: score(list.last()), vector: list.last() };
        let s = arranged(rest, score);
        assert forall|i: int, j: int| 0 <= i < rest.len() && 0 <= j < rest.len() && i
            != j implies rest[i] != rest[j] by {
            assert(list[i] != list[j]);
        }
        lemma_arranged_different(rest, score);
        lemma_arranged(rest, score);
        assert forall|i: int| 0 <= i < s.len() implies (#[trigger] s[i]).vector != x.vector by {
            assert(s.contains(s[i]));
            let l = choose|l: int| 0 <= l < rest.len() && rest[l] == s[i].vector;
            assert(list[l] != list[list.len() - 1]);
        }
        lemma_place_different(s, x);
    }
}

proof fn lemma_diverse_different(
    items: Seq<ScoredItem>,
    distance: spec_fn(usize, usize) -> i64,
    max_size: nat,
)
    requires
        different(items),
    ensures
        different(diverse(items, distance, max_size)),
        forall|i: int|
            0 <= i < diverse(items, distance, max_size).len() ==> items.contains(
                #[trigger] diverse(items, distance, max_size)[i],
            ),
    decreases items.len(),
{
    if items.len() > 0 {
        let rest = items.drop_last();
        let last = items[items.len() - 1];
        assert forall|i: int, j: int| 0 <= i < j < rest.len() implies (#[trigger] rest[i]).vector
            != (#[trigger] rest[j]).vector by {
            assert(items[i].vector != items[j].vector);
        }
        lemma_diverse_different(rest, distance, max_size);
        let kept = diverse(rest, distance, max_size);
        assert forall|i: int| 0 <= i < kept.len() implies items.contains(#[trigger] kept[i])
            && kept[i].vector != last.vector by {
            assert(rest.contains(kept[i]));
            let l = choose|l: int| 0 <= l < rest.len() && rest[l] == kept[i];
            assert(items[l] == kept[i]);
            assert(items[l].vector != items[items.len() - 1].vector);
        }
        assert(items.contains(last));
    }
}

/// Of different nodes, different ones are kept, and one in any case.
pub proof fn lemma_shrunk_different(
    items: Seq<ScoredItem>,
    distance: spec_fn(usize, usize) -> i64,
    max_size: nat,
)
    requires
        different(items),
    ensures
        shrunk(items, distance, max_size).no_duplicates(),
        items.len() > 0 ==> shrunk(items, distance, max_size).len() > 0,
{
    let list = shrunk(items, distance, max_size);
    let kept = if items.len() <= max_size {
        items
    } else {
        diverse(items, distance, max_size)
    };
    lemma_diverse_different(items, distance, max_size);
    law_kept_neighbors_stand_apart(items, distance, max_size);
    assert(list == ids(kept));
    assert forall|i: int, j: int| 0 <= i < list.len() && 0 <= j < list.len() && i
        != j implies list[i] != list[j] by {
        if i < j {
            assert(kept[i].vector != kept[j].vector);
        } else {
            assert(kept[j].vector != kept[i].vector);
        }
    }
}

/// A node that was inserted is a node of the level.
pub proof fn lemma_present_bound(cons: Construction, g: GraphModel, c: int, p: nat, id: usize)
    requires
        cons.sound(),
        0 <= c <= cons.max_level,
        cons.level_sound(g, c),
        p <= g.adj.len(),
        present(cons, c, p, id),
    ensures
        id < g.adj.len(),
{
}

/// Links lead from nodes that were inserted to nodes that were inserted.
proof fn lemma_path_present(
    cons: Construction,
    g: GraphModel,
    c: int,
    p: nat,
    path: Seq<usize>,
)
    requires
        cons.sound(),
        0 <= c <= cons.max_level,
        cons.level_sound(g, c),
        linked(cons, g, c, p),
        p <= g.adj.len(),
        is_path(g.adj, path),
        present(cons, c, p, path[0]),
    ensures
        present(cons, c, p, path.last()),
    decreases path.len(),
{
    if path.len() > 1 {
        let shorter = path.drop_last();
        assert(is_path(g.adj, shorter)) by {
            assert forall|i: int| 0 <= i < shorter.len() - 1 implies (
            #[trigger] g.adj[shorter[i] as int]).contains(shorter[i + 1]) by {
                assert(g.adj[path[i] as int].contains(path[i + 1]));
            }
        }
        lemma_path_present(cons, g, c, p, shorter);
        let from = path[path.len() - 2];
        lemma_present_bound(cons, g, c, p, from);
        assert(node_linked(cons, g, c, p, from));
        let list = g.adj[from as int];
        assert(list.contains(path[path.len() - 2 + 1]));
        let j = choose|j: int| 0 <= j < list.len() && list[j] == path.last();
        assert(present(cons, c, p, list[j]));
    }
}

/// A search that starts from a node that was inserted finds different nodes that were inserted.
pub proof fn lemma_candidates_present(
    cons: Construction,
    g: GraphModel,
    c: int,
    p: nat,
    inserted: usize,
    entry: ScoredItem,
)
    requires
        cons.sound(),
        cons.ef >= 1,
        0 <= c <= cons.max_level,
        cons.level_sound(g, c),
        linked(cons, g, c, p),
        p <= g.adj.len(),
        present(cons, c, p, entry.vector),
    ensures
        cons.candidates(g, inserted, entry).len() >= 1,
        different(cons.candidates(g, inserted, entry)),
        all_present(cons, c, p, ids(cons.candidates(g, inserted, entry))),
{
    let m = g.search_by(cons.distances(inserted), cons.within, cons.ef, 0);
    let found = cons.candidates(g, inserted, entry);
    lemma_present_bound(cons, g, c, p, entry.vector);
    law_search_is_sound(m, entry);
    assert(everything()(entry.vector));
    assert forall|i: int| 0 <= i < ids(found).len() implies present(
        cons,
        c,
        p,
        #[trigger] ids(found)[i],
    ) by {
        let id = found[i].vector;
        assert(reachable(g.adj, entry.vector, id));
        let path = choose|path: Seq<usize>| #[trigger]
            is_path(g.adj, path) && path[0] == entry.vector && path.last() == id;
        lemma_path_present(cons, g, c, p, path);
    }
}

/// Every search for links starts from a node that was inserted.
pub proof fn lemma_upper_entry_present(
    cons: Construction,
    levels: Seq<GraphModel>,
    p: nat,
    inserted: usize,
    level: nat,
    c: nat,
)
    requires
        stage(cons, levels, p, level),
        cons.ef >= 1,
        cons.max_level - level <= c <= cons.max_level,
    ensures
        cons.upper_entry(levels, inserted, level, c).vector < p,
    decreases c,
{
    let top = cons.max_level - level;
    if level > 0 {
        if c == top {
            lemma_upper_entry(cons, levels, inserted, level, c);
        } else {
            let above = (c - 1) as nat;
            let g = levels[above as int];
            lemma_upper_entry_present(cons, levels, p, inserted, level, above);
            lemma_sizes(cons, levels, top, above as int);
            assert(cons.level_sound(g, above as int));
            assert(linked(cons, levels[above as int], above as int, p));
            let entry = cons.upper_entry(levels, inserted, level, above);
            lemma_candidates_present(cons, g, above as int, p, inserted, entry);
            let found = cons.candidates(g, inserted, entry);
            assert(present(cons, above as int, p, ids(found)[0]));
        }
    }
}

/// The candidates for links are different nodes that were inserted, and there is one.
pub proof fn lemma_found_present(
    cons: Construction,
    levels: Seq<GraphModel>,
    p: nat,
    q: usize,
    level: nat,
    c: nat,
)
    requires
        stage(cons, levels, p, level),
        cons.ef >= 1,
        cons.max_level - level <= c <= cons.max_level,
    ensures
        cons.found(levels, q, level, c).len() >= 1,
        different(cons.found(levels, q, level, c)),
        all_present(cons, c as int, p, ids(cons.found(levels, q, level, c))),
{
    let top = cons.max_level - level;
    let inserted = cons.ids[q as int];
    let g = levels[c as int];
    lemma_sizes(cons, levels, top, c as int);
    assert(cons.level_sound(g, c as int));
    assert(linked(cons, levels[c as int], c as int, p));
    let entry = if c < cons.max_level {
        cons.upper_entry(levels, inserted, level, c)
    } else {
        cons.bottom_entry(levels, inserted, level)
    };
    lemma_upper_entry_present(cons, levels, p, inserted, level, c);
    if c == cons.max_level {
        let x = cons.upper_entry(levels, inserted, level, cons.max_level);
        if cons.max_level > 0 {
            let upper = levels[cons.max_level - 1];
            assert(cons.level_sound(upper, cons.max_level - 1));
            lemma_upper_entry(cons, levels, inserted, level, cons.max_level);
            assert(upper.external(x.vector) == cons.ids[x.vector as int]);
        } else {
            assert(cons.ids[0] == entry.vector);
        }
    }
    assert(present(cons, c as int, p, entry.vector));
    lemma_candidates_present(cons, g, c as int, p, inserted, entry);
}

/// Relinking gives every node that is named its new list, and leaves the others.
pub proof fn lemma_relink_at(adj: Seq<Seq<usize>>, links: Seq<(usize, Seq<usize>)>, u: int)
    requires
        0 <= u < adj.len(),
        forall|i: int| 0 <= i < links.len() ==> (#[trigger] links[i]).0 < adj.len(),
    ensures
        relink(adj, links).len() == adj.len(),
        relink(adj, links)[u] == adj[u] && (forall|i: int|
            0 <= i < links.len() ==> (#[trigger] links[i]).0 != u) || exists|i: int|
            0 <= i < links.len() && (#[trigger] links[i]).0 == u && relink(adj, links)[u]
                == links[i].1,
    decreases links.len(),
{
    if links.len() > 0 {
        let rest = links.drop_last();
        let last = links[links.len() - 1];
        assert(forall|i: int| 0 <= i < rest.len() ==> rest[i] == links[i]);
        lemma_relink_at(adj, rest, u);
        if last.0 != u {
            assert(relink(adj, links)[u] == relink(adj, rest)[u]);
            if exists|i: int|
                0 <= i < rest.len() && (#[trigger] rest[i]).0 == u && relink(adj, rest)[u]
                    == rest[i].1 {
                let i = choose|i: int|
                    0 <= i < rest.len() && (#[trigger] rest[i]).0 == u && relink(adj, rest)[u]
                        == rest[i].1;
                assert(links[i].0 == u);
            } else {
                assert forall|i: int| 0 <= i < links.len() implies (#[trigger] links[i]).0 != u by {
                    if i < rest.len() {
                        assert(rest[i].0 != u);
                    }
                }
            }
        }
    }
}

/// The new list of a node that a new one links to.
proof fn lemma_relisted_linked(
    cons: Construction,
    g: GraphModel,
    distance: spec_fn(usize, usize) -> i64,
    c: int,
    p: nat,
    node: usize,
    new: usize,
)
    requires
        linked(cons, g, c, p),
        node < g.adj.len(),
        present(cons, c, p, node),
        !present(cons, c, p, new),
    ensures
        simple(relisted(g, distance, node, new), node),
        relisted(g, distance, node, new).len() >= 1,
        forall|j: int|
            0 <= j < relisted(g, distance, node, new).len() ==> present(
                cons,
                c,
                p,
                #[trigger] relisted(g, distance, node, new)[j],
            ) || relisted(g, distance, node, new)[j] == new,
{
    assert(node_linked(cons, g, c, p, node));
    let old_list = g.adj[node as int];
    let all = old_list.push(new);
    let score = |id: usize| distance(node, id);
    let items = arranged(all, score);
    let list = relisted(g, distance, node, new);
    assert forall|i: int, j: int| 0 <= i < all.len() && 0 <= j < all.len() && i != j implies all[i]
        != all[j] by {
        if i < old_list.len() {
            assert(present(cons, c, p, old_list[i]));
        }
        if j < old_list.len() {
            assert(present(cons, c, p, old_list[j]));
        }
        if i < old_list.len() && j < old_list.len() {
            assert(old_list[i] != old_list[j]);
        }
    }
    lemma_arranged(all, score);
    lemma_arranged_different(all, score);
    lemma_shrunk(items, distance, g.max_degree as nat);
    lemma_shrunk_different(items, distance, g.max_degree as nat);
    assert forall|j: int| 0 <= j < list.len() implies (present(cons, c, p, #[trigger] list[j])
        || list[j] == new) && list[j] != node by {
        let i = choose|i: int| 0 <= i < items.len() && list[j] == (#[trigger] items[i]).vector;
        assert(items.contains(items[i]));
        assert(all.contains(items[i].vector));
        let l = choose|l: int| 0 <= l < all.len() && all[l] == items[i].vector;
        if l < old_list.len() {
            assert(old_list.contains(old_list[l]));
            assert(present(cons, c, p, old_list[l]));
        }
    }
}

/// What was inserted stays so.
pub proof fn lemma_present_more(cons: Construction, c: int, p: nat, q: nat, id: usize)
    requires
        p <= q,
        present(cons, c, p, id),
    ensures
        present(cons, c, q, id),
{
    if c >= cons.max_level {
        let j = choose|j: int| 0 <= j < p && #[trigger] cons.ids[j] == id;
        assert(cons.ids[j] == id);
    }
}

/// The vector at position `q` is the one that comes after the first `q`.
pub proof fn lemma_present_next(cons: Construction, c: int, q: usize, id: usize)
    requires
        cons.sound(),
        0 <= c <= cons.max_level,
        q < cons.ids.len(),
    ensures
        present(cons, c, (q + 1) as nat, id) <==> present(cons, c, q as nat, id) || id
            == cons.local_id(q, c as nat),
        !present(cons, c, q as nat, cons.local_id(q, c as nat)),
{
    if c >= cons.max_level {
        if present(cons, c, (q + 1) as nat, id) {
            let j = choose|j: int| 0 <= j < q + 1 && #[trigger] cons.ids[j] == id;
            if j < q {
                assert(present(cons, c, q as nat, id));
            }
        }
        if present(cons, c, q as nat, id) {
            lemma_present_more(cons, c, q as nat, (q + 1) as nat, id);
        }
        if id == cons.local_id(q, c as nat) {
            assert(cons.ids[q as int] == id);
            assert(present(cons, c, (q + 1) as nat, id));
        }
        if present(cons, c, q as nat, cons.local_id(q, c as nat)) {
            let j = choose|j: int|
                0 <= j < q && #[trigger] cons.ids[j] == cons.local_id(q, c as nat);
            assert(cons.ids[j] != cons.ids[q as int]);
        }
    }
}

/// One level after the vector at position `q` was linked in, with links that were chosen when the
/// first `p` vectors were.
proof fn lemma_insert_level(
    cons: Construction,
    levels: Seq<GraphModel>,
    base: Seq<GraphModel>,
    p: nat,
    q: usize,
    level: nat,
    c: nat,
)
    requires
        cons.m >= 1,
        cons.ef >= 1,
        stage(cons, levels, q as nat, level),
        stage(cons, base, p, level),
        same_sizes(levels, base),
        p <= q,
        q < base[cons.max_level - level].adj.len(),
        cons.max_level - level <= c <= cons.max_level,
    ensures
        linked(
            cons,
            cons.insert(levels, base, q, level)[c as int],
            c as int,
            (q + 1) as nat,
        ),
{
    let top = cons.max_level - level;
    let ci = c as int;
    let g = levels[ci];
    let bg = base[ci];
    let local = cons.local_id(q, c);
    let distance = cons.node_distance(bg);
    let found = cons.found(base, q, level, c);
    let links = cons.links(base, q, level, c);
    let forward = links.0;
    let after = cons.insert(levels, base, q, level)[ci];
    assert(cons.level_sound(bg, ci));
    assert(cons.level_sound(g, ci));
    assert(g.adj.len() == bg.adj.len());
    lemma_sizes(cons, base, top, ci);
    assert(cons.level_sound(base[top], top));
    assert(cons.ids[q as int] < cons.ids.len());
    assert(linked(cons, levels[ci], ci, q as nat));
    assert(linked(cons, base[ci], ci, p));
    lemma_found_present(cons, base, p, q, level, c);
    lemma_shrunk(found, distance, cons.degree(c));
    lemma_shrunk_different(found, distance, cons.degree(c));
    lemma_links(cons, base, q, level, c);
    lemma_present_next(cons, ci, q, local);
    if present(cons, ci, p, local) {
        lemma_present_more(cons, ci, p, q as nat, local);
    }
    assert forall|i: int| 0 <= i < forward.len() implies present(cons, ci, p, #[trigger] forward[i])
        && forward[i] != local by {
        let j = choose|j: int| 0 <= j < found.len() && forward[i] == (#[trigger] found[j]).vector;
        assert(ids(found)[j] == forward[i]);
    }
    assert(node_linked(cons, g, ci, q as nat, local));
    let middle = fronted(g.adj, local, forward);
    assert(middle[local as int] =~= forward);
    assert(after.adj == relink(middle, links.1));
    assert forall|i: int| 0 <= i < links.1.len() implies (#[trigger] links.1[i]).0 == forward[i]
        && links.1[i].1 == relisted(bg, distance, forward[i], local) && links.1[i].0
        < middle.len() by {
    }
    lemma_relink_at(middle, links.1, 0);
    assert forall|u: usize| u < after.adj.len() implies #[trigger] node_linked(
        cons,
        after,
        ci,
        (q + 1) as nat,
        u,
    ) by {
        let list = after.adj[u as int];
        lemma_relink_at(middle, links.1, u as int);
        lemma_present_next(cons, ci, q, u);
        if exists|i: int|
            0 <= i < links.1.len() && (#[trigger] links.1[i]).0 == u && list == links.1[i].1 {
            let i = choose|i: int|
                0 <= i < links.1.len() && (#[trigger] links.1[i]).0 == u && list == links.1[i].1;
            assert(present(cons, ci, p, forward[i]));
            lemma_relisted_linked(cons, bg, distance, ci, p, u, local);
            lemma_present_more(cons, ci, p, (q + 1) as nat, u);
            assert forall|j: int| 0 <= j < list.len() implies present(
                cons,
                ci,
                (q + 1) as nat,
                #[trigger] list[j],
            ) by {
                lemma_present_next(cons, ci, q, list[j]);
                if present(cons, ci, p, list[j]) {
                    lemma_present_more(cons, ci, p, (q + 1) as nat, list[j]);
                }
            }
        } else if u == local {
            assert(list == forward);
            assert(!forward.contains(local));
            assert forall|j: int| 0 <= j < list.len() implies present(
                cons,
                ci,
                (q + 1) as nat,
                #[trigger] list[j],
            ) by {
                lemma_present_more(cons, ci, p, (q + 1) as nat, forward[j]);
            }
        } else {
            assert(list == g.adj[u as int]);
            assert(node_linked(cons, g, ci, q as nat, u));
            assert forall|j: int| 0 <= j < list.len() implies present(
                cons,
                ci,
                (q + 1) as nat,
                #[trigger] list[j],
            ) by {
                lemma_present_more(cons, ci, q as nat, (q + 1) as nat, list[j]);
            }
            if present(cons, ci, (q + 1) as nat, u) && q == 1 {
                assert(present(cons, ci, 1, u));
                assert(present(cons, ci, p, forward[0]));
                assert(links.1[0].0 == forward[0]);
                assert(forward[0] == u);
            }
        }
    }
}

proof fn lemma_insert_stage(
    cons: Construction,
    levels: Seq<GraphModel>,
    base: Seq<GraphModel>,
    p: nat,
    q: usize,
    level: nat,
)
    requires
        stage(cons, levels, q as nat, level),
        stage(cons, base, p, level),
        same_sizes(levels, base),
        p <= q,
        q < base[cons.max_level - level].adj.len(),
    ensures
        stage(cons, cons.insert(levels, base, q, level), (q + 1) as nat, level),
        same_sizes(cons.insert(levels, base, q, level), base),
{
    let top = cons.max_level - level;
    let after = cons.insert(levels, base, q, level);
    assert(cons.level_sound(base[top], top));
    lemma_insert(cons, levels, base, q, level);
    assert forall|c: int| 0 <= c <= cons.max_level implies linked(
        cons,
        #[trigger] after[c],
        c,
        if c < top {
            after[c].adj.len()
        } else {
            (q + 1) as nat
        },
    ) by {
        if c >= top {
            lemma_insert_level(cons, levels, base, p, q, level, c as nat);
        } else {
            assert(after[c] == levels[c]);
            assert(linked(cons, levels[c], c, levels[c].adj.len()));
        }
    }
    assert(after[top].adj.len() == base[top].adj.len());
    if top > 0 {
        assert(after[top - 1] == levels[top - 1]);
    }
}

pub proof fn lemma_batch_stage(
    cons: Construction,
    base: Seq<GraphModel>,
    p: usize,
    count: nat,
    level: nat,
)
    requires
        stage(cons, base, p as nat, level),
        p + count <= base[cons.max_level - level].adj.len(),
    ensures
        stage(cons, cons.insert_batch(base, p, count, level), (p + count) as nat, level),
        same_sizes(cons.insert_batch(base, p, count, level), base),
        forall|c: int|
            0 <= c < cons.max_level - level ==> #[trigger] cons.insert_batch(
                base,
                p,
                count,
                level,
            )[c] == base[c],
    decreases count,
{
    if count > 0 {
        let before = (count - 1) as nat;
        assert(cons.level_sound(base[cons.max_level - level], cons.max_level - level));
        lemma_batch_stage(cons, base, p, before, level);
        lemma_insert_stage(
            cons,
            cons.insert_batch(base, p, before, level),
            base,
            p as nat,
            (p + before) as usize,
            level,
        );
    }
}

/// Inserting vectors in batches of any sizes leaves the levels above theirs as they were and keeps
/// the lists of all levels sound: the neighbours of a node are different nodes other than itself
/// that were inserted, and every node that was inserted has one as soon as there are two.
pub proof fn law_runs_keep_lists(
    cons: Construction,
    levels: Seq<GraphModel>,
    p: usize,
    end: usize,
    size: nat,
    cap: nat,
    level: nat,
)
    requires
        stage(cons, levels, p as nat, level),
        p <= end <= levels[cons.max_level - level].adj.len(),
        size >= 1,
    ensures
        stage(cons, cons.insert_run(levels, p, end, size, cap, level), end as nat, level),
        same_sizes(cons.insert_run(levels, p, end, size, cap, level), levels),
        forall|c: int|
            0 <= c < cons.max_level - level ==> #[trigger] cons.insert_run(
                levels,
                p,
                end,
                size,
                cap,
                level,
            )[c] == levels[c],
    decreases end - p,
{
    if p < end {
        let count: nat = if size <= end - p {
            size
        } else {
            (end - p) as nat
        };
        let next = cons.insert_batch(levels, p, count, level);
        lemma_batch_stage(cons, levels, p, count, level);
        let top = cons.max_level - level;
        assert(next[top].adj.len() == levels[top].adj.len());
        law_runs_keep_lists(cons, next, (p + count) as usize, end, grown(size, cap), cap, level);
    }
}

/// The levels after the vectors of the `c` highest levels were linked in.
pub proof fn lemma_linked_stage(
    cons: Construction,
    counts: Seq<nat>,
    build_params: HNSWBuildConfiguration,
    c: nat,
)
    requires
        cons.sound(),
        counts.len() == cons.max_level + 2,
        counts[0] == 0,
        counts[1] > 0,
        counts[cons.max_level as int + 1] == cons.ids.len(),
        forall|i: int, j: int|
            0 <= i <= j <= cons.max_level + 1 ==> #[trigger] counts[i] <= #[trigger] counts[j],
        build_params.initial_build_batch_size >= 1 || forall|i: int|
            0 <= i <= cons.max_level ==> !#[trigger] runs_parallel(counts, build_params, i),
        c <= cons.max_level + 1,
    ensures
        same_sizes(
            linked_levels(cons, counts, build_params, c),
            unlinked_levels(cons, counts),
        ),
        c == 0 ==> stage(
            cons,
            linked_levels(cons, counts, build_params, c),
            1,
            cons.max_level,
        ),
        c > 0 ==> stage(
            cons,
            linked_levels(cons, counts, build_params, c),
            counts[c as int],
            (cons.max_level - (c - 1)) as nat,
        ),
    decreases c,
{
    let unlinked = unlinked_levels(cons, counts);
    let levels = linked_levels(cons, counts, build_params, c);
    if c == 0 {
        lemma_unlinked(cons, counts);
        assert forall|i: int| 0 <= i <= cons.max_level implies linked(
            cons,
            #[trigger] levels[i],
            i,
            1,
        ) by {
            assert forall|u: usize| u < levels[i].adj.len() implies #[trigger] node_linked(
                cons,
                levels[i],
                i,
                1,
                u,
            ) by {
                assert(levels[i].adj[u as int] == Seq::<usize>::empty());
            }
        }
    } else {
        let index = c - 1;
        let above = linked_levels(cons, counts, build_params, (c - 1) as nat);
        let first = first_position(counts, index) as usize;
        let end = counts[c as int] as usize;
        let level = (cons.max_level - index) as nat;
        lemma_linked_stage(cons, counts, build_params, (c - 1) as nat);
        assert(counts[1] <= counts[c as int]);
        assert(counts[index] <= counts[c as int]);
        assert(counts[c as int] <= counts[cons.max_level as int + 1]);
        assert(above[index].adj.len() == unlinked[index].adj.len());
        assert(unlinked[index].adj.len() == counts[c as int]);
        assert(stage(cons, above, first as nat, level)) by {
            if index > 0 {
                assert(counts[1] <= counts[index]);
                assert(above[index - 1].adj.len() == unlinked[index - 1].adj.len());
                assert(unlinked[index - 1].adj.len() == counts[index]);
                assert forall|i: int| 0 <= i <= cons.max_level implies linked(
                    cons,
                    #[trigger] above[i],
                    i,
                    if i < index {
                        above[i].adj.len()
                    } else {
                        first as nat
                    },
                ) by {
                    assert(linked(
                        cons,
                        above[i],
                        i,
                        if i < index - 1 {
                            above[i].adj.len()
                        } else {
                            counts[index]
                        },
                    ));
                }
            }
        }
        if runs_parallel(counts, build_params, index) {
            law_runs_keep_lists(
                cons,
                above,
                first,
                end,
                build_params.initial_build_batch_size as nat,
                build_params.max_build_batch_size as nat,
                level,
            );
        } else {
            law_runs_keep_lists(cons, above, first, end, 1, 1, level);
            lemma_batches_of_one(cons, above, first, end, 1, level);
        }
    }
}

/// On every level of an index that is built, the neighbours of a node are different nodes other
/// than itself, and a node has at least one neighbour if it is not alone.
pub proof fn law_built_lists<D: Dataset>(
    dataset: &D,
    build_params: HNSWBuildConfiguration,
    ids: Seq<usize>,
    drawn: Seq<u8>,
    c: int,
    u: usize,
)
    requires
        buildable(dataset.n_vectors() as nat, build_params, ids, drawn),
        0 <= c <= highest(drawn),
        u < built_levels(dataset, build_params, ids, drawn)[c].adj.len(),
    ensures
        ({
            let g = built_levels(dataset, build_params, ids, drawn)[c];
            &&& simple(g.adj[u as int], u)
            &&& g.adj.len() >= 2 ==> g.adj[u as int].len() >= 1
        }),
{
    let counts = level_counts(ids, drawn);
    let max_level = highest(drawn) as nat;
    let cons = construction(
        dataset,
        from_level(ids, drawn, 0),
        max_level,
        build_params.num_neighbors_per_vec,
        build_params.ef_construction,
    );
    law_every_vector_has_a_level(ids, drawn);
    lemma_counts(ids, drawn);
    lemma_linked_stage(cons, counts, build_params, max_level + 1);
    let levels = built_levels(dataset, build_params, ids, drawn);
    let g = levels[c];
    let n = g.adj.len();
    assert(g.adj.len() == unlinked_levels(cons, counts)[c].adj.len());
    assert(linked(cons, levels[c], c, n)) by {
        assert(cons.level_sound(levels[c], c));
    }
    assert(node_linked(cons, g, c, n, u));
    if c == max_level {
        lemma_all_present(cons, u);
    }
}

/// Once all vectors were inserted, every node of the ground level was.
proof fn lemma_all_present(cons: Construction, u: usize)
    requires
        cons.sound(),
        u < cons.ids.len(),
    ensures
        present(cons, cons.max_level as int, cons.ids.len(), u),
{
    law_inverse_takes_back(cons.ids);
    let j = inverted(cons.ids)[u as int] as int;
    assert(cons.ids[j] == u);
}

/// On the ground level of an index that is built, expanding the list of a node does not make it
/// shorter, if the bound has room for the list. A bound of twice the number of neighbours per
/// vector always has.
pub proof fn law_built_expansion_does_not_shrink<D: Dataset>(
    dataset: &D,
    build_params: HNSWBuildConfiguration,
    ids: Seq<usize>,
    drawn: Seq<u8>,
    distance: spec_fn(usize, usize) -> i64,
    v: usize,
    bound: nat,
)
    requires
        buildable(dataset.n_vectors() as nat, build_params, ids, drawn),
        v < built_levels(dataset, build_params, ids, drawn).last().adj.len(),
    ensures
        ({
            let adj = built_levels(dataset, build_params, ids, drawn).last().adj;
            adj[v as int].len() <= bound || 2 * build_params.num_neighbors_per_vec <= bound
                ==> expanded_list(adj, distance, v, bound).len() >= adj[v as int].len()
        }),
{
    let levels = built_levels(dataset, build_params, ids, drawn);
    let cons = construction(
        dataset,
        from_level(ids, drawn, 0),
        highest(drawn) as nat,
        build_params.num_neighbors_per_vec,
        build_params.ef_construction,
    );
    law_every_vector_has_a_level(ids, drawn);
    lemma_counts(ids, drawn);
    lemma_linked_stage(
        cons,
        level_counts(ids, drawn),
        build_params,
        (highest(drawn) + 1) as nat,
    );
    assert(cons.level_sound(levels[highest(drawn) as int], highest(drawn) as int));
    assert(levels.last().adj[v as int].len() <= 2 * build_params.num_neighbors_per_vec);
    law_built_lists(dataset, build_params, ids, drawn, highest(drawn) as int, v);
    if levels.last().adj[v as int].len() <= bound {
        law_expansion_does_not_shrink(levels.last().adj, distance, v, bound);
    }
}

} // verus!
