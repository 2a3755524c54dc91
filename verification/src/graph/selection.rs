//! Which neighbours a node keeps.
use crate::best_first::{among, nearer, nearest_items};
use crate::graph::insertion::{
    arranged, diverse, insertion_plan, relisted, reverse_links, shrunk, stands_apart,
};
use crate::graph::GraphModel;
use crate::hnsw::acorn::lemma_arranged;
use crate::hnsw::linkage::lemma_arranged_different;
use crate::scored::{before, ids, in_order, ScoredItem};
use vstd::prelude::*;

verus! {

/// The item at place `p` is nearer to one of those kept before it than to the query.
pub open spec fn shadowed(
    items: Seq<ScoredItem>,
    distance: spec_fn(usize, usize) -> i64,
    kept: Seq<int>,
    p: int,
) -> bool {
    exists|i: int|
        0 <= i < kept.len() && #[trigger] kept[i] < p && distance(
            items[p].vector,
            items[kept[i]].vector,
        ) < items[p].distance
}

/// The items at the places `kept` are those to keep of `items`: no one of them is nearer to another
/// one before it than to the query; and an item that is left out is, unless `max_size` items before
/// it are kept (one in any case).
pub open spec fn keeps(
    items: Seq<ScoredItem>,
    distance: spec_fn(usize, usize) -> i64,
    max_size: nat,
    kept: Seq<int>,
) -> bool {
    &&& forall|i: int| 0 <= i < kept.len() ==> 0 <= #[trigger] kept[i] < items.len()
    &&& forall|i: int, j: int| 0 <= i < j < kept.len() ==> #[trigger] kept[i] < #[trigger] kept[j]
    &&& kept.len() <= max_size || kept.len() <= 1
    &&& forall|i: int|
        0 <= i < kept.len() ==> !shadowed(items, distance, kept, #[trigger] kept[i])
    &&& forall|p: int|
        0 <= p < items.len() && !#[trigger] kept.contains(p) ==> shadowed(items, distance, kept, p)
            || (kept.len() >= 1 && kept.len() >= max_size && kept.last() < p)
}

/// `list` are the nodes to keep of `items`: all of them if `max_size` allows it.
pub open spec fn kept_of(
    items: Seq<ScoredItem>,
    distance: spec_fn(usize, usize) -> i64,
    max_size: nat,
    list: Seq<usize>,
) -> bool {
    if items.len() <= max_size {
        list == ids(items)
    } else {
        exists|kept: Seq<int>| #[trigger]
            keeps(items, distance, max_size, kept) && list == kept.map_values(
                |p: int| items[p].vector,
            )
    }
}

proof fn lemma_diverse_keeps(
    items: Seq<ScoredItem>,
    distance: spec_fn(usize, usize) -> i64,
    max_size: nat,
) -> (kept: Seq<int>)
    ensures
        keeps(items, distance, max_size, kept),
        diverse(items, distance, max_size) == kept.map_values(|p: int| items[p]),
    decreases items.len(),
{
    if items.len() == 0 {
        let kept = Seq::<int>::empty();
        assert(diverse(items, distance, max_size) =~= kept.map_values(|p: int| items[p]));
        kept
    } else {
        let rest = items.drop_last();
        let at = items.len() - 1;
        let x = items[at];
        let before_kept = lemma_diverse_keeps(rest, distance, max_size);
        let chosen = diverse(rest, distance, max_size);
        let full = chosen.len() > 0 && chosen.len() >= max_size;
        assert(forall|i: int| 0 <= i < rest.len() ==> rest[i] == items[i]);
        assert forall|i: int| 0 <= i < before_kept.len() implies chosen[i] == items[
        #[trigger] before_kept[i]] by {
            assert(0 <= before_kept[i] < rest.len());
        }
        let kept = if !full && stands_apart(chosen, x, distance) {
            before_kept.push(at)
        } else {
            before_kept
        };
        assert(diverse(items, distance, max_size) =~= kept.map_values(|p: int| items[p])) by {
            assert(chosen =~= before_kept.map_values(|p: int| items[p]));
        }
        assert forall|p: int| 0 <= p < rest.len() implies (#[trigger] shadowed(
            items,
            distance,
            kept,
            p,
        ) <==> shadowed(rest, distance, before_kept, p)) by {
            if shadowed(items, distance, kept, p) {
                let i = choose|i: int|
                    0 <= i < kept.len() && #[trigger] kept[i] < p && distance(
                        items[p].vector,
                        items[kept[i]].vector,
                    ) < items[p].distance;
                assert(i < before_kept.len());
                assert(before_kept[i] == kept[i]);
                assert(rest[before_kept[i]] == items[kept[i]]);
            }
            if shadowed(rest, distance, before_kept, p) {
                let i = choose|i: int|
                    0 <= i < before_kept.len() && #[trigger] before_kept[i] < p && distance(
                        rest[p].vector,
                        rest[before_kept[i]].vector,
                    ) < rest[p].distance;
                assert(kept[i] == before_kept[i]);
                assert(rest[before_kept[i]] == items[kept[i]]);
            }
        }
        assert(shadowed(items, distance, kept, at) <==> !stands_apart(chosen, x, distance)) by {
            if shadowed(items, distance, kept, at) {
                let i = choose|i: int|
                    0 <= i < kept.len() && #[trigger] kept[i] < at && distance(
                        items[at].vector,
                        items[kept[i]].vector,
                    ) < items[at].distance;
                assert(i < before_kept.len());
                assert(before_kept[i] == kept[i]);
                assert(chosen[i] == items[before_kept[i]]);
            }
            if !stands_apart(chosen, x, distance) {
                let i = choose|i: int|
                    0 <= i < chosen.len() && distance(
                        x.vector,
                        (#[trigger] chosen[i]).vector,
                    ) < x.distance;
                assert(chosen[i] == items[before_kept[i]]);
                assert(kept[i] == before_kept[i]);
                assert(0 <= before_kept[i] < rest.len());
            }
        }
        assert forall|i: int| 0 <= i < kept.len() implies 0 <= #[trigger] kept[i] < items.len()
            && !shadowed(items, distance, kept, kept[i]) by {
            if i < before_kept.len() {
                assert(kept[i] == before_kept[i]);
                assert(0 <= before_kept[i] < rest.len());
                assert(!shadowed(rest, distance, before_kept, before_kept[i]));
            }
        }
        assert forall|i: int, j: int| 0 <= i < j < kept.len() implies #[trigger] kept[i]
            < #[trigger] kept[j] by {
            assert(kept[i] == before_kept[i]);
            assert(0 <= before_kept[i] < rest.len());
            if j < before_kept.len() {
                assert(kept[j] == before_kept[j]);
            }
        }
        assert forall|p: int| 0 <= p < items.len() && !#[trigger] kept.contains(
            p,
        ) implies shadowed(items, distance, kept, p) || (kept.len() >= 1 && kept.len() >= max_size
            && kept.last() < p) by {
            if p < rest.len() {
                if before_kept.contains(p) {
                    let i = choose|i: int| 0 <= i < before_kept.len() && before_kept[i] == p;
                    assert(kept[i] == p);
                }
                assert(!before_kept.contains(p));
                assert(shadowed(items, distance, kept, p) <==> shadowed(
                    rest,
                    distance,
                    before_kept,
                    p,
                ));
            } else {
                if kept.len() > before_kept.len() {
                    assert(kept[before_kept.len() as int] == p);
                } else if full {
                    assert(0 <= before_kept[before_kept.len() - 1] < rest.len());
                }
            }
        }
        kept
    }
}

/// Of the candidates for links, all are kept if there are few enough. Otherwise a candidate is left
/// out only if it is nearer to another one kept before it than to the new node, or if as many as
/// allowed are kept before it; and none is kept that is nearer to another one kept before it.
pub proof fn law_selection_is_maximal(
    items: Seq<ScoredItem>,
    distance: spec_fn(usize, usize) -> i64,
    max_size: nat,
)
    ensures
        kept_of(items, distance, max_size, shrunk(items, distance, max_size)),
{
    if items.len() > max_size {
        let kept = lemma_diverse_keeps(items, distance, max_size);
        let list = shrunk(items, distance, max_size);
        assert(list =~= kept.map_values(|p: int| items[p].vector)) by {
            assert(diverse(items, distance, max_size).len() == kept.len());
        }
        assert(keeps(items, distance, max_size, kept));
    }
}

/// `list` are the nodes to keep, next to `node`, of all the nodes in `from`, looked at nearest first.
pub open spec fn kept_around(
    distance: spec_fn(usize, usize) -> i64,
    node: usize,
    from: Set<usize>,
    count: nat,
    max_size: nat,
    list: Seq<usize>,
) -> bool {
    exists|items: Seq<ScoredItem>| #[trigger]
        all_by_distance(distance, node, from, count, items) && kept_of(
            items,
            distance,
            max_size,
            list,
        )
}

/// `items` are the `count` nodes of `from` with their distances from `node`, nearest first.
pub open spec fn all_by_distance(
    distance: spec_fn(usize, usize) -> i64,
    node: usize,
    from: Set<usize>,
    count: nat,
    items: Seq<ScoredItem>,
) -> bool {
    &&& items.len() == count
    &&& nearest_items(|id: usize| distance(node, id), from, count, items)
    &&& forall|id: usize| #[trigger] from.contains(id) ==> among(items, id)
}

/// A node that a new one links to chooses anew among its neighbours and the new node: its new list
/// has all of them if the degree bound allows it, and otherwise those to keep, looked at nearest
/// first.
pub proof fn law_reverse_lists(
    g: GraphModel,
    distance: spec_fn(usize, usize) -> i64,
    inserted: usize,
    forward: Seq<usize>,
    i: int,
)
    requires
        0 <= i < forward.len(),
        g.adj[forward[i] as int].no_duplicates(),
        !g.adj[forward[i] as int].contains(inserted),
    ensures
        reverse_links(g, distance, inserted, forward).len() == forward.len(),
        reverse_links(g, distance, inserted, forward)[i].0 == forward[i],
        kept_around(
            distance,
            forward[i],
            g.adj[forward[i] as int].to_set().insert(inserted),
            g.adj[forward[i] as int].len() + 1,
            g.max_degree as nat,
            reverse_links(g, distance, inserted, forward)[i].1,
        ),
{
    let node = forward[i];
    let old_list = g.adj[node as int];
    let all = old_list.push(inserted);
    let score = |id: usize| distance(node, id);
    let items = arranged(all, score);
    let from = old_list.to_set().insert(inserted);
    assert forall|a: int, b: int| 0 <= a < all.len() && 0 <= b < all.len() && a != b implies all[a]
        != all[b] by {
        if a < old_list.len() {
            assert(old_list.contains(old_list[a]));
        }
        if b < old_list.len() {
            assert(old_list.contains(old_list[b]));
        }
    }
    lemma_arranged(all, score);
    lemma_arranged_different(all, score);
    assert forall|id: usize| #[trigger] all.contains(id) <==> from.contains(id) by {
        if from.contains(id) {
            if id == inserted {
                assert(all[old_list.len() as int] == id);
            } else {
                let a = choose|a: int| 0 <= a < old_list.len() && old_list[a] == id;
                assert(all[a] == id);
            }
        }
        if all.contains(id) {
            let a = choose|a: int| 0 <= a < all.len() && all[a] == id;
            if a < old_list.len() {
                assert(old_list.contains(old_list[a]));
            }
        }
    }
    assert forall|id: usize| #[trigger] from.contains(id) implies among(items, id) by {
        assert(all.contains(id));
        let x = ScoredItem { distance: score(id), vector: id };
        assert(items.contains(x));
        let a = choose|a: int| 0 <= a < items.len() && items[a] == x;
        assert(items[a].vector == id);
    }
    assert forall|a: int| 0 <= a < items.len() implies {
        let x = #[trigger] items[a];
        from.contains(x.vector) && x.distance == score(x.vector)
    } by {
        assert(items.contains(items[a]));
        assert(all.contains(items[a].vector));
    }
    assert forall|a: int, b: int| 0 <= a < b < items.len() implies nearer(
        score,
        (#[trigger] items[a]).vector,
        (#[trigger] items[b]).vector,
    ) by {
        assert(!before(items[b], items[a]));
        assert(items[a].vector != items[b].vector);
        assert(items.contains(items[a]) && items.contains(items[b]));
    }
    assert(all_by_distance(distance, node, from, old_list.len() + 1, items));
    law_selection_is_maximal(items, distance, g.max_degree as nat);
    assert(relisted(g, distance, node, inserted) == shrunk(items, distance, g.max_degree as nat));
}

/// The plan for a new node: its neighbours are those to keep of the candidates found, each of them
/// gets a new list, and the candidate that is handed on is the nearest one.
pub proof fn law_insertion_plan(
    g: GraphModel,
    found: Seq<ScoredItem>,
    distance: spec_fn(usize, usize) -> i64,
    m: nat,
    inserted: usize,
)
    requires
        found.len() > 0,
        in_order(found),
    ensures
        ({
            let plan = insertion_plan(g, found, distance, m, inserted);
            &&& kept_of(found, distance, m, plan.0)
            &&& plan.1.len() == plan.0.len()
            &&& forall|i: int| 0 <= i < plan.0.len() ==> (#[trigger] plan.1[i]).0 == plan.0[i]
            &&& found.contains(plan.2)
            &&& forall|i: int|
                0 <= i < found.len() ==> plan.2.distance <= (#[trigger] found[i]).distance
        }),
{
    law_selection_is_maximal(found, distance, m);
    let plan = insertion_plan(g, found, distance, m, inserted);
    assert(found[0] == plan.2);
    assert forall|i: int| 0 <= i < found.len() implies plan.2.distance <= (
    #[trigger] found[i]).distance by {
        if i > 0 {
            assert(!before(found[i], found[0]));
        }
    }
}

} // verus!
