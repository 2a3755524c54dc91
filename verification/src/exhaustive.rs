//! A beam as wide as the graph finds everything there is to find.
use crate::beam::{
    beam_ok, closed, fresh, lemma_fresh, lemma_offer_all_ok, lemma_visited_bound, start, work_left,
    Beam, SearchModel,
};
use crate::graph::{first, lemma_offer_all_visited, lemma_pop_ok};
use crate::scored::{before, ids, lemma_place, lemma_rank_bounds, place, ScoredItem};
use crate::soundness::{
    everything, is_path, law_search_is_sound, lemma_ends, lemma_start_sound, lemma_step_sound,
    reachable, sound,
};
use vstd::prelude::*;

verus! {

/// The node `id` is among `items`.
pub open spec fn holds(items: Seq<ScoredItem>, id: usize) -> bool {
    exists|x: ScoredItem| #[trigger] items.contains(x) && x.vector == id
}

/// Every node that was seen is a result, and its neighbours were seen too unless it is still to
/// be expanded.
spec fn complete(m: SearchModel, b: Beam) -> bool {
    &&& b.top.len() == b.visited.len()
    &&& forall|id: usize| #[trigger] b.visited.contains(id) ==> holds(b.top, id)
    &&& forall|id: usize, j: int|
        b.visited.contains(id) && !holds(b.frontier, id) && 0 <= j < m.adj[id as int].len()
            ==> b.visited.contains(#[trigger] m.adj[id as int][j])
}

/// While there is room, every node that is offered joins.
pub proof fn lemma_offer_all_joins(m: SearchModel, b: Beam, found: Seq<usize>, n: nat)
    requires
        beam_ok(b, n),
        forall|i: int| 0 <= i < found.len() ==> #[trigger] found[i] < n,
        b.top.len() + found.len() <= m.ef,
    ensures
        ({
            let after = m.offer_all(b, found);
            &&& after.top.len() == b.top.len() + found.len()
            &&& forall|id: usize| #[trigger] holds(b.top, id) ==> holds(after.top, id)
            &&& forall|id: usize| #[trigger] holds(b.frontier, id) ==> holds(after.frontier, id)
            &&& forall|i: int|
                0 <= i < found.len() ==> holds(after.top, #[trigger] found[i]) && holds(
                    after.frontier,
                    found[i],
                )
        }),
    decreases found.len(),
{
    if found.len() > 0 {
        let rest = found.drop_last();
        let x = m.item(found.last());
        assert(forall|i: int| 0 <= i < rest.len() ==> rest[i] == found[i]);
        lemma_offer_all_joins(m, b, rest, n);
        lemma_offer_all_ok(m, b, rest, n);
        let prev = m.offer_all(b, rest);
        let after = m.offer_all(b, found);
        lemma_place(prev.top, x);
        lemma_place(prev.frontier, x);
        assert(after.top == place(prev.top, x));
        assert(after.frontier == place(prev.frontier, x));
        assert forall|id: usize| holds(prev.top, id) implies #[trigger] holds(after.top, id) by {
            let y = choose|y: ScoredItem| #[trigger] prev.top.contains(y) && y.vector == id;
            assert(after.top.contains(y));
        }
        assert forall|id: usize| holds(prev.frontier, id) implies #[trigger] holds(
            after.frontier,
            id,
        ) by {
            let y = choose|y: ScoredItem| #[trigger] prev.frontier.contains(y) && y.vector == id;
            assert(after.frontier.contains(y));
        }
        assert(after.top.contains(x) && after.frontier.contains(x));
        assert forall|i: int| 0 <= i < found.len() implies holds(after.top, #[trigger] found[i])
            && holds(after.frontier, found[i]) by {
            if i < rest.len() {
                assert(holds(prev.top, rest[i]));
            }
        }
    }
}

/// Every node that is offered makes a beam larger until it is full.
pub proof fn lemma_offer_all_fills(m: SearchModel, b: Beam, found: Seq<usize>)
    requires
        b.top.len() <= m.ef,
    ensures
        m.offer_all(b, found).top.len() == (if b.top.len() + found.len() <= m.ef {
            b.top.len() + found.len()
        } else {
            m.ef
        }),
    decreases found.len(),
{
    if found.len() > 0 {
        lemma_offer_all_fills(m, b, found.drop_last());
        lemma_rank_bounds(m.offer_all(b, found.drop_last()).top, m.item(found.last()));
    }
}

proof fn lemma_step_complete(m: SearchModel, entry: ScoredItem, b: Beam)
    requires
        closed(m.adj),
        m.ef >= 1,
        sound(m, entry, everything(), b),
        b.top.len() < m.ef ==> complete(m, b),
        b.frontier.len() > 0,
        m.step(m.expansion(), b).top.len() < m.ef,
    ensures
        complete(m, m.step(m.expansion(), b)),
{
    let n = m.adj.len();
    let node = b.frontier[0].vector;
    assert(b.frontier.contains(b.frontier[0]));
    let nbrs = m.adj[node as int];
    let rest = b.frontier.drop_first();
    let base = Beam { frontier: rest, ..b };
    let seen = m.see(base, nbrs);
    let found = fresh(nbrs, b.visited);
    let after = m.step(m.expansion(), b);
    assert(after == m.offer_all(seen, found));
    lemma_fresh(nbrs, b.visited);
    assert forall|i: int| 0 <= i < found.len() implies #[trigger] found[i] < n by {
        assert(found.contains(found[i]));
        let j = choose|j: int| 0 <= j < nbrs.len() && nbrs[j] == found[i];
        assert(m.adj[node as int][j] < n);
    }
    assert forall|id: usize| #[trigger] seen.visited.contains(id) implies id < n by {
        if !b.visited.contains(id) {
            let j = choose|j: int| 0 <= j < nbrs.len() && nbrs[j] == id;
            assert(m.adj[node as int][j] < n);
        }
    }
    lemma_visited_bound(seen.visited, n);
    lemma_pop_ok(b, n);
    assert(beam_ok(seen, n));
    lemma_offer_all_fills(m, seen, found);
    lemma_offer_all_joins(m, seen, found, n);
    lemma_offer_all_ok(m, seen, found, n);
    assert forall|id: usize| #[trigger] after.visited.contains(id) implies holds(after.top, id) by {
        if b.visited.contains(id) {
            assert(holds(seen.top, id));
        } else {
            assert(found.contains(id));
            let i = choose|i: int| 0 <= i < found.len() && found[i] == id;
            assert(holds(after.top, found[i]));
        }
    }
    assert forall|id: usize, j: int|
        after.visited.contains(id) && !holds(after.frontier, id) && 0 <= j
            < m.adj[id as int].len() implies after.visited.contains(
        #[trigger] m.adj[id as int][j],
    ) by {
        if id == node {
            assert(nbrs.contains(nbrs[j]));
        } else if b.visited.contains(id) {
            if holds(b.frontier, id) {
                let y = choose|y: ScoredItem| #[trigger] b.frontier.contains(y) && y.vector == id;
                let l = choose|l: int| 0 <= l < b.frontier.len() && b.frontier[l] == y;
                assert(rest[l - 1] == y);
                assert(rest.contains(y));
                assert(holds(seen.frontier, id));
            }
            assert(b.visited.contains(m.adj[id as int][j]));
        } else {
            assert(found.contains(id));
            let i = choose|i: int| 0 <= i < found.len() && found[i] == id;
            assert(holds(after.frontier, found[i]));
        }
    }
}

proof fn lemma_path_seen(m: SearchModel, b: Beam, path: Seq<usize>)
    requires
        is_path(m.adj, path),
        b.visited.contains(path[0]),
        forall|id: usize, j: int|
            b.visited.contains(id) && 0 <= j < m.adj[id as int].len() ==> b.visited.contains(
                #[trigger] m.adj[id as int][j],
            ),
    ensures
        b.visited.contains(path.last()),
    decreases path.len(),
{
    if path.len() > 1 {
        let shorter = path.drop_last();
        assert(is_path(m.adj, shorter)) by {
            assert forall|i: int| 0 <= i < shorter.len() - 1 implies (
            #[trigger] m.adj[shorter[i] as int]).contains(shorter[i + 1]) by {
                assert(m.adj[path[i] as int].contains(path[i + 1]));
            }
        }
        lemma_path_seen(m, b, shorter);
        let from = path[path.len() - 2];
        assert(m.adj[from as int].contains(path[path.len() - 2 + 1]));
        let j = choose|j: int|
            0 <= j < m.adj[from as int].len() && m.adj[from as int][j] == path.last();
        assert(b.visited.contains(m.adj[from as int][j]));
    }
}

/// If a search returns fewer results than its beam holds, it returns every node that can be
/// reached from the entry.
pub proof fn law_unfilled_beam_found_everything(m: SearchModel, entry: ScoredItem, id: usize)
    requires
        closed(m.adj),
        entry.vector < m.adj.len(),
        m.outcome(m.expansion(), start(entry)).len() < m.ef,
        reachable(m.adj, entry.vector, id),
    ensures
        holds(m.outcome(m.expansion(), start(entry)), id),
{
    let n = m.adj.len();
    let expand = m.expansion();
    let b0 = start(entry);
    let inv = |b: Beam|
        sound(m, entry, everything(), b) && (b.top.len() < m.ef ==> complete(m, b));
    assert(inv(b0)) by {
        lemma_start_sound(m, entry, everything(), everything());
        assert(b0.top[0] == entry && b0.frontier[0] == entry);
        assert(b0.top.contains(entry) && b0.frontier.contains(entry));
        assert(holds(b0.top, entry.vector) && holds(b0.frontier, entry.vector));
        assert(b0.visited =~= Set::<usize>::empty().insert(entry.vector));
        assert(b0.visited.len() == 1);
    }
    assert forall|b: Beam| #[trigger] inv(b) && !m.done(b) implies inv(m.step(expand, b)) && 0
        <= work_left(m.step(expand, b), n) < work_left(b, n) by {
        lemma_step_sound(m, entry, b);
        if m.step(expand, b).top.len() < m.ef {
            lemma_step_complete(m, entry, b);
        }
    }
    let end = lemma_ends(m, expand, inv, b0, 0);
    let b = m.after(expand, b0, end);
    lemma_entry_seen(m, entry, end);
    assert(b.frontier.len() == 0);
    assert forall|x: usize| !holds(b.frontier, x) by {
    }
    let path = choose|path: Seq<usize>| #[trigger]
        is_path(m.adj, path) && path[0] == entry.vector && path.last() == id;
    lemma_path_seen(m, b, path);
}

/// A search whose beam has room for all nodes returns every node that can be reached from the
/// entry.
pub proof fn law_wide_beam_finds_everything(m: SearchModel, entry: ScoredItem, id: usize)
    requires
        closed(m.adj),
        entry.vector < m.adj.len(),
        m.ef >= m.adj.len(),
        reachable(m.adj, entry.vector, id),
        id < m.adj.len(),
    ensures
        holds(m.outcome(m.expansion(), start(entry)), id),
{
    let results = m.outcome(m.expansion(), start(entry));
    law_search_is_sound(m, entry);
    if results.len() < m.ef {
        law_unfilled_beam_found_everything(m, entry, id);
    } else {
        let found = ids(results);
        assert forall|i: int, j: int| 0 <= i < found.len() && 0 <= j < found.len() && i
            != j implies found[i] != found[j] by {
            if i < j {
                assert(results[i].vector != results[j].vector);
            } else {
                assert(results[j].vector != results[i].vector);
            }
        }
        found.unique_seq_to_set();
        assert forall|x: usize| #[trigger] found.to_set().contains(x) implies x
            < m.adj.len() by {
            let i = choose|i: int| 0 <= i < found.len() && found[i] == x;
            assert(results[i].vector < m.adj.len());
        }
        if !found.contains(id) {
            lemma_visited_bound(found.to_set().insert(id), m.adj.len());
        }
        let i = choose|i: int| 0 <= i < found.len() && found[i] == id;
        assert(results.contains(results[i]));
    }
}

/// The entry counts as seen throughout a search.
proof fn lemma_entry_seen(m: SearchModel, entry: ScoredItem, steps: nat)
    ensures
        m.after(m.expansion(), start(entry), steps).visited.contains(entry.vector),
    decreases steps,
{
    if steps > 0 {
        lemma_entry_seen(m, entry, (steps - 1) as nat);
        let prev = m.after(m.expansion(), start(entry), (steps - 1) as nat);
        let base = Beam { frontier: prev.frontier.drop_first(), ..prev };
        let nbrs = m.adj[prev.frontier[0].vector as int];
        lemma_offer_all_visited(m, m.see(base, nbrs), fresh(nbrs, base.visited));
    }
}

/// The first `k` results of a search whose beam has room for all nodes are the `k` nearest nodes
/// that can be reached: a node that can be reached is among them, or there are `k` of them and
/// none is farther than it.
pub proof fn law_wide_beam_is_exact(m: SearchModel, entry: ScoredItem, k: nat, id: usize)
    requires
        closed(m.adj),
        entry.vector < m.adj.len(),
        entry == m.item(entry.vector),
        m.ef >= m.adj.len(),
        reachable(m.adj, entry.vector, id),
        id < m.adj.len(),
    ensures
        ({
            let results = first(m.outcome(m.expansion(), start(entry)), k);
            holds(results, id) || (results.len() == k && forall|i: int|
                0 <= i < k ==> (#[trigger] results[i]).distance <= (m.score)(id))
        }),
{
    let all = m.outcome(m.expansion(), start(entry));
    let results = first(all, k);
    law_wide_beam_finds_everything(m, entry, id);
    law_search_is_sound(m, entry);
    let x = choose|x: ScoredItem| #[trigger] all.contains(x) && x.vector == id;
    let at = choose|at: int| 0 <= at < all.len() && all[at] == x;
    assert(x == m.item(id));
    if at < results.len() {
        assert(results[at] == x);
        assert(results.contains(x));
    } else {
        assert forall|i: int| 0 <= i < k implies (#[trigger] results[i]).distance <= (m.score)(
            id,
        ) by {
            assert(results[i] == all[i]);
            assert(!before(all[at], all[i]));
        }
    }
}

} // verus!
