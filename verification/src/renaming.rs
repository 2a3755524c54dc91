//! A search does not depend on what the nodes are called.
use crate::beam::{closed, fresh, lemma_descend, lemma_outcome, start, Beam, SearchModel};
use crate::graph::remap::renamed;
use crate::permutation::is_permutation;
use crate::scored::{before, lemma_rank_bounds, place, rank, ScoredItem};
use crate::soundness::{lemma_search_ends, lemma_walk_settles, lemma_walk_sound};
use vstd::prelude::*;

verus! {

/// `x` with its node called by its new id.
pub open spec fn renamed_item(x: ScoredItem, new_ids: Seq<usize>) -> ScoredItem {
    ScoredItem { distance: x.distance, vector: new_ids[x.vector as int] }
}

/// `items` with every node called by its new id.
pub open spec fn renamed_items(items: Seq<ScoredItem>, new_ids: Seq<usize>) -> Seq<ScoredItem> {
    items.map_values(|x: ScoredItem| renamed_item(x, new_ids))
}

spec fn renamed_set(nodes: Set<usize>, new_ids: Seq<usize>) -> Set<usize> {
    nodes.map(|id: usize| new_ids[id as int])
}

spec fn renamed_beam(b: Beam, new_ids: Seq<usize>) -> Beam {
    Beam {
        top: renamed_items(b.top, new_ids),
        frontier: renamed_items(b.frontier, new_ids),
        visited: renamed_set(b.visited, new_ids),
    }
}

/// `other` is the search `m` with every node called by its new id.
pub open spec fn is_renaming(m: SearchModel, other: SearchModel, new_ids: Seq<usize>) -> bool {
    &&& closed(m.adj)
    &&& is_permutation(new_ids)
    &&& new_ids.len() == m.adj.len()
    &&& other.adj.len() == m.adj.len()
    &&& forall|u: usize|
        u < m.adj.len() ==> #[trigger] other.adj[new_ids[u as int] as int] == renamed(
            m.adj[u as int],
            new_ids,
        )
    &&& forall|u: usize|
        u < m.adj.len() ==> #[trigger] (other.score)(new_ids[u as int]) == (m.score)(u)
    &&& other.within == m.within
    &&& other.ef == m.ef
    &&& other.k == m.k
}

/// No two nodes are equally far.
pub open spec fn scores_differ(m: SearchModel) -> bool {
    forall|u: usize, v: usize|
        u < m.adj.len() && v < m.adj.len() && #[trigger] (m.score)(u) == #[trigger] (m.score)(v)
            ==> u == v
}

spec fn item_valid(m: SearchModel, x: ScoredItem) -> bool {
    x.vector < m.adj.len() && x == m.item(x.vector)
}

spec fn items_valid(m: SearchModel, items: Seq<ScoredItem>) -> bool {
    forall|i: int| 0 <= i < items.len() ==> item_valid(m, #[trigger] items[i])
}

spec fn beam_valid(m: SearchModel, b: Beam) -> bool {
    &&& items_valid(m, b.top)
    &&& items_valid(m, b.frontier)
    &&& forall|id: usize| #[trigger] b.visited.contains(id) ==> id < m.adj.len()
}

proof fn lemma_injective(new_ids: Seq<usize>, u: usize, v: usize)
    requires
        is_permutation(new_ids),
        u < new_ids.len(),
        v < new_ids.len(),
        new_ids[u as int] == new_ids[v as int],
    ensures
        u == v,
{
    if u < v {
        assert(new_ids[u as int] != new_ids[v as int]);
    } else if v < u {
        assert(new_ids[v as int] != new_ids[u as int]);
    }
}

proof fn lemma_before(m: SearchModel, new_ids: Seq<usize>, x: ScoredItem, y: ScoredItem)
    requires
        is_permutation(new_ids),
        new_ids.len() == m.adj.len(),
        scores_differ(m),
        item_valid(m, x),
        item_valid(m, y),
    ensures
        before(renamed_item(x, new_ids), renamed_item(y, new_ids)) == before(x, y),
{
    if x.distance == y.distance {
        assert((m.score)(x.vector) == (m.score)(y.vector));
    }
}

proof fn lemma_rank(m: SearchModel, new_ids: Seq<usize>, s: Seq<ScoredItem>, x: ScoredItem)
    requires
        is_permutation(new_ids),
        new_ids.len() == m.adj.len(),
        scores_differ(m),
        items_valid(m, s),
        item_valid(m, x),
    ensures
        rank(renamed_items(s, new_ids), renamed_item(x, new_ids)) == rank(s, x),
    decreases s.len(),
{
    if s.len() > 0 {
        lemma_before(m, new_ids, s[0], x);
        let rest = s.drop_first();
        assert(forall|i: int| 0 <= i < rest.len() ==> rest[i] == s[i + 1]);
        lemma_rank(m, new_ids, rest, x);
        assert(renamed_items(s, new_ids).drop_first() =~= renamed_items(rest, new_ids));
    }
}

proof fn lemma_place_renamed(
    m: SearchModel,
    new_ids: Seq<usize>,
    s: Seq<ScoredItem>,
    x: ScoredItem,
)
    requires
        is_permutation(new_ids),
        new_ids.len() == m.adj.len(),
        scores_differ(m),
        items_valid(m, s),
        item_valid(m, x),
    ensures
        place(renamed_items(s, new_ids), renamed_item(x, new_ids)) == renamed_items(
            place(s, x),
            new_ids,
        ),
        items_valid(m, place(s, x)),
{
    lemma_rank(m, new_ids, s, x);
    lemma_rank_bounds(s, x);
    let r = rank(s, x) as int;
    assert(place(renamed_items(s, new_ids), renamed_item(x, new_ids)) =~= renamed_items(
        place(s, x),
        new_ids,
    ));
    assert forall|i: int| 0 <= i < place(s, x).len() implies item_valid(
        m,
        #[trigger] place(s, x)[i],
    ) by {
        if i < r {
            assert(place(s, x)[i] == s[i]);
        } else if i > r {
            assert(place(s, x)[i] == s[i - 1]);
        }
    }
}

proof fn lemma_offer_renamed(
    m: SearchModel,
    other: SearchModel,
    new_ids: Seq<usize>,
    b: Beam,
    x: ScoredItem,
)
    requires
        is_renaming(m, other, new_ids),
        scores_differ(m),
        beam_valid(m, b),
        item_valid(m, x),
    ensures
        other.offer(renamed_beam(b, new_ids), renamed_item(x, new_ids)) == renamed_beam(
            m.offer(b, x),
            new_ids,
        ),
        beam_valid(m, m.offer(b, x)),
{
    lemma_place_renamed(m, new_ids, b.top, x);
    lemma_place_renamed(m, new_ids, b.frontier, x);
    let rb = renamed_beam(b, new_ids);
    let rx = renamed_item(x, new_ids);
    if b.top.len() > 0 {
        assert(rb.top.last() == renamed_item(b.top.last(), new_ids));
    }
    assert(other.admits(rb.top, rx) == m.admits(b.top, x));
    let grown = if m.admits(b.top, x) {
        place(b.top, x)
    } else {
        b.top
    };
    if grown.len() > m.ef {
        assert(renamed_items(grown, new_ids).drop_last() =~= renamed_items(
            grown.drop_last(),
            new_ids,
        ));
        assert forall|i: int| 0 <= i < grown.len() - 1 implies item_valid(
            m,
            #[trigger] grown.drop_last()[i],
        ) by {
            assert(grown.drop_last()[i] == grown[i]);
        }
    }
    assert(other.offer(rb, rx) =~= renamed_beam(m.offer(b, x), new_ids));
}

proof fn lemma_offer_all_renamed(
    m: SearchModel,
    other: SearchModel,
    new_ids: Seq<usize>,
    b: Beam,
    found: Seq<usize>,
)
    requires
        is_renaming(m, other, new_ids),
        scores_differ(m),
        beam_valid(m, b),
        forall|i: int| 0 <= i < found.len() ==> #[trigger] found[i] < m.adj.len(),
    ensures
        other.offer_all(renamed_beam(b, new_ids), renamed(found, new_ids)) == renamed_beam(
            m.offer_all(b, found),
            new_ids,
        ),
        beam_valid(m, m.offer_all(b, found)),
    decreases found.len(),
{
    let names = renamed(found, new_ids);
    if found.len() > 0 {
        let rest = found.drop_last();
        let id = found[found.len() - 1];
        assert(forall|i: int| 0 <= i < rest.len() ==> rest[i] == found[i]);
        lemma_offer_all_renamed(m, other, new_ids, b, rest);
        assert(names.drop_last() =~= renamed(rest, new_ids));
        assert(names.last() == new_ids[id as int]);
        assert((other.score)(new_ids[id as int]) == (m.score)(id));
        assert(other.item(names.last()) == renamed_item(m.item(id), new_ids));
        lemma_offer_renamed(m, other, new_ids, m.offer_all(b, rest), m.item(id));
    }
}

proof fn lemma_set_renamed(new_ids: Seq<usize>, nodes: Set<usize>, id: usize)
    requires
        is_permutation(new_ids),
        id < new_ids.len(),
        forall|x: usize| #[trigger] nodes.contains(x) ==> x < new_ids.len(),
    ensures
        renamed_set(nodes, new_ids).contains(new_ids[id as int]) == nodes.contains(id),
{
    if renamed_set(nodes, new_ids).contains(new_ids[id as int]) {
        let x = choose|x: usize| nodes.contains(x) && new_ids[x as int] == new_ids[id as int];
        lemma_injective(new_ids, x, id);
    }
}

proof fn lemma_contains_renamed(new_ids: Seq<usize>, list: Seq<usize>, id: usize)
    requires
        is_permutation(new_ids),
        id < new_ids.len(),
        forall|i: int| 0 <= i < list.len() ==> #[trigger] list[i] < new_ids.len(),
    ensures
        renamed(list, new_ids).contains(new_ids[id as int]) == list.contains(id),
{
    let names = renamed(list, new_ids);
    if names.contains(new_ids[id as int]) {
        let i = choose|i: int| 0 <= i < names.len() && names[i] == new_ids[id as int];
        lemma_injective(new_ids, list[i], id);
        assert(list.contains(list[i]));
    }
    if list.contains(id) {
        let i = choose|i: int| 0 <= i < list.len() && list[i] == id;
        assert(names[i] == new_ids[id as int]);
    }
}

proof fn lemma_fresh_renamed(new_ids: Seq<usize>, nbrs: Seq<usize>, visited: Set<usize>)
    requires
        is_permutation(new_ids),
        forall|i: int| 0 <= i < nbrs.len() ==> #[trigger] nbrs[i] < new_ids.len(),
        forall|x: usize| #[trigger] visited.contains(x) ==> x < new_ids.len(),
    ensures
        fresh(renamed(nbrs, new_ids), renamed_set(visited, new_ids)) == renamed(
            fresh(nbrs, visited),
            new_ids,
        ),
        forall|i: int|
            0 <= i < fresh(nbrs, visited).len() ==> #[trigger] fresh(nbrs, visited)[i]
                < new_ids.len(),
    decreases nbrs.len(),
{
    let names = renamed(nbrs, new_ids);
    if nbrs.len() > 0 {
        let rest = nbrs.drop_last();
        let id = nbrs[nbrs.len() - 1];
        assert(forall|i: int| 0 <= i < rest.len() ==> rest[i] == nbrs[i]);
        lemma_fresh_renamed(new_ids, rest, visited);
        assert(names.drop_last() =~= renamed(rest, new_ids));
        assert(names.last() == new_ids[id as int]);
        lemma_set_renamed(new_ids, visited, id);
        lemma_contains_renamed(new_ids, rest, id);
        let f = fresh(rest, visited);
        assert(renamed(f.push(id), new_ids) =~= renamed(f, new_ids).push(new_ids[id as int]));
    } else {
        assert(renamed(fresh(nbrs, visited), new_ids) =~= Seq::empty());
    }
}

proof fn lemma_union_renamed(new_ids: Seq<usize>, nbrs: Seq<usize>, visited: Set<usize>)
    ensures
        renamed_set(visited, new_ids).union(renamed(nbrs, new_ids).to_set()) == renamed_set(
            visited.union(nbrs.to_set()),
            new_ids,
        ),
{
    let names = renamed(nbrs, new_ids);
    let left = renamed_set(visited, new_ids).union(names.to_set());
    let right = renamed_set(visited.union(nbrs.to_set()), new_ids);
    assert forall|y: usize| left.contains(y) <==> right.contains(y) by {
        if names.contains(y) {
            let i = choose|i: int| 0 <= i < names.len() && names[i] == y;
            assert(nbrs.contains(nbrs[i]));
            assert(visited.union(nbrs.to_set()).contains(nbrs[i]));
        }
        if renamed_set(visited, new_ids).contains(y) {
            let x = choose|x: usize| visited.contains(x) && new_ids[x as int] == y;
            assert(visited.union(nbrs.to_set()).contains(x));
        }
        if right.contains(y) {
            let x = choose|x: usize|
                visited.union(nbrs.to_set()).contains(x) && new_ids[x as int] == y;
            if visited.contains(x) {
                assert(renamed_set(visited, new_ids).contains(y));
            } else {
                let i = choose|i: int| 0 <= i < nbrs.len() && nbrs[i] == x;
                assert(names[i] == y);
            }
        }
    }
    assert(left =~= right);
}

proof fn lemma_step_renamed(
    m: SearchModel,
    other: SearchModel,
    new_ids: Seq<usize>,
    b: Beam,
)
    requires
        is_renaming(m, other, new_ids),
        scores_differ(m),
        beam_valid(m, b),
        b.frontier.len() > 0,
    ensures
        other.step(other.expansion(), renamed_beam(b, new_ids)) == renamed_beam(
            m.step(m.expansion(), b),
            new_ids,
        ),
        beam_valid(m, m.step(m.expansion(), b)),
{
    let rb = renamed_beam(b, new_ids);
    let node = b.frontier[0].vector;
    assert(item_valid(m, b.frontier[0]));
    let nbrs = m.adj[node as int];
    assert forall|i: int| 0 <= i < nbrs.len() implies #[trigger] nbrs[i] < m.adj.len() by {
        assert(m.adj[node as int][i] < m.adj.len());
    }
    assert(rb.frontier[0] == renamed_item(b.frontier[0], new_ids));
    assert(other.adj[new_ids[node as int] as int] == renamed(nbrs, new_ids));
    assert(rb.frontier.drop_first() =~= renamed_items(b.frontier.drop_first(), new_ids));
    let base = Beam { frontier: b.frontier.drop_first(), ..b };
    assert(items_valid(m, base.frontier)) by {
        assert forall|i: int| 0 <= i < base.frontier.len() implies item_valid(
            m,
            #[trigger] base.frontier[i],
        ) by {
            assert(base.frontier[i] == b.frontier[i + 1]);
        }
    }
    lemma_fresh_renamed(new_ids, nbrs, b.visited);
    lemma_union_renamed(new_ids, nbrs, b.visited);
    let seen = m.see(base, nbrs);
    assert(beam_valid(m, seen)) by {
        assert forall|id: usize| #[trigger] seen.visited.contains(id) implies id < m.adj.len() by {
            if !b.visited.contains(id) {
                let i = choose|i: int| 0 <= i < nbrs.len() && nbrs[i] == id;
                assert(nbrs[i] < m.adj.len());
            }
        }
    }
    lemma_offer_all_renamed(m, other, new_ids, seen, fresh(nbrs, b.visited));
}

proof fn lemma_done_renamed(m: SearchModel, other: SearchModel, new_ids: Seq<usize>, b: Beam)
    requires
        is_renaming(m, other, new_ids),
    ensures
        other.done(renamed_beam(b, new_ids)) == m.done(b),
{
    let rb = renamed_beam(b, new_ids);
    if b.frontier.len() > 0 {
        assert(rb.frontier[0] == renamed_item(b.frontier[0], new_ids));
    }
    if b.top.len() > 0 {
        assert(rb.top.last() == renamed_item(b.top.last(), new_ids));
    }
}

proof fn lemma_after_renamed(
    m: SearchModel,
    other: SearchModel,
    new_ids: Seq<usize>,
    b0: Beam,
    steps: nat,
)
    requires
        is_renaming(m, other, new_ids),
        scores_differ(m),
        beam_valid(m, b0),
        forall|i: nat|
            i < steps ==> (#[trigger] m.after(m.expansion(), b0, i)).frontier.len() > 0,
    ensures
        other.after(other.expansion(), renamed_beam(b0, new_ids), steps) == renamed_beam(
            m.after(m.expansion(), b0, steps),
            new_ids,
        ),
        beam_valid(m, m.after(m.expansion(), b0, steps)),
    decreases steps,
{
    if steps > 0 {
        let before = (steps - 1) as nat;
        lemma_after_renamed(m, other, new_ids, b0, before);
        let prev = m.after(m.expansion(), b0, before);
        assert(prev.frontier.len() > 0);
        lemma_step_renamed(m, other, new_ids, prev);
        assert(m.after(m.expansion(), b0, steps) == m.step(m.expansion(), prev));
        assert(other.after(other.expansion(), renamed_beam(b0, new_ids), steps) == other.step(
            other.expansion(),
            renamed_beam(prev, new_ids),
        ));
    }
}

/// If the nodes are called by other ids, a beam search returns the same nodes by those ids, with
/// the same distances and in the same order, as long as no two nodes are equally far.
pub proof fn law_search_follows_renaming(
    m: SearchModel,
    other: SearchModel,
    new_ids: Seq<usize>,
    entry: ScoredItem,
)
    requires
        is_renaming(m, other, new_ids),
        scores_differ(m),
        entry.vector < m.adj.len(),
        entry == m.item(entry.vector),
    ensures
        other.outcome(other.expansion(), start(renamed_item(entry, new_ids))) == renamed_items(
            m.outcome(m.expansion(), start(entry)),
            new_ids,
        ),
{
    let b0 = start(entry);
    let rb0 = start(renamed_item(entry, new_ids));
    assert(rb0 =~= renamed_beam(b0, new_ids)) by {
        assert(rb0.top =~= renamed_items(b0.top, new_ids));
        assert(rb0.frontier =~= renamed_items(b0.frontier, new_ids));
        assert forall|y: usize| rb0.visited.contains(y) <==> renamed_set(
            b0.visited,
            new_ids,
        ).contains(y) by {
            if rb0.visited.contains(y) {
                assert(b0.visited.contains(entry.vector));
            }
        }
        assert(rb0.visited =~= renamed_set(b0.visited, new_ids));
    }
    let end = lemma_search_ends(m, entry);
    assert forall|i: nat| i <= end implies other.done(
        #[trigger] other.after(other.expansion(), rb0, i),
    ) == m.done(m.after(m.expansion(), b0, i)) by {
        assert forall|j: nat| j < i implies (#[trigger] m.after(
            m.expansion(),
            b0,
            j,
        )).frontier.len() > 0 by {
            assert(!m.done(m.after(m.expansion(), b0, j)));
        }
        lemma_after_renamed(m, other, new_ids, b0, i);
        lemma_done_renamed(m, other, new_ids, m.after(m.expansion(), b0, i));
    }
    assert forall|i: nat| i < end implies !other.done(
        #[trigger] other.after(other.expansion(), rb0, i),
    ) by {
        assert(!m.done(m.after(m.expansion(), b0, i)));
    }
    assert forall|j: nat| j < end implies (#[trigger] m.after(
        m.expansion(),
        b0,
        j,
    )).frontier.len() > 0 by {
        assert(!m.done(m.after(m.expansion(), b0, j)));
    }
    lemma_after_renamed(m, other, new_ids, b0, end);
    lemma_outcome(other, other.expansion(), rb0, end);
}

proof fn lemma_nearest_renamed(
    m: SearchModel,
    other: SearchModel,
    new_ids: Seq<usize>,
    best: ScoredItem,
    nbrs: Seq<usize>,
)
    requires
        is_renaming(m, other, new_ids),
        forall|i: int| 0 <= i < nbrs.len() ==> #[trigger] nbrs[i] < m.adj.len(),
    ensures
        other.nearest_of(renamed_item(best, new_ids), renamed(nbrs, new_ids)) == renamed_item(
            m.nearest_of(best, nbrs),
            new_ids,
        ),
    decreases nbrs.len(),
{
    if nbrs.len() > 0 {
        let rest = nbrs.drop_last();
        let id = nbrs[nbrs.len() - 1];
        assert(forall|i: int| 0 <= i < rest.len() ==> rest[i] == nbrs[i]);
        lemma_nearest_renamed(m, other, new_ids, best, rest);
        let names = renamed(nbrs, new_ids);
        assert(names.drop_last() =~= renamed(rest, new_ids));
        assert(names.last() == new_ids[id as int]);
        assert((other.score)(new_ids[id as int]) == (m.score)(id));
    }
}

proof fn lemma_walk_renamed(
    m: SearchModel,
    other: SearchModel,
    new_ids: Seq<usize>,
    entry: ScoredItem,
    hops: nat,
)
    requires
        is_renaming(m, other, new_ids),
        entry.vector < m.adj.len(),
    ensures
        other.walk(renamed_item(entry, new_ids), hops) == renamed_item(
            m.walk(entry, hops),
            new_ids,
        ),
    decreases hops,
{
    if hops > 0 {
        let before = (hops - 1) as nat;
        lemma_walk_renamed(m, other, new_ids, entry, before);
        lemma_walk_sound(m, entry, before);
        let prev = m.walk(entry, before);
        let nbrs = m.adj[prev.vector as int];
        assert forall|i: int| 0 <= i < nbrs.len() implies #[trigger] nbrs[i] < m.adj.len() by {
            assert(m.adj[prev.vector as int][i] < m.adj.len());
        }
        assert(other.adj[new_ids[prev.vector as int] as int] == renamed(nbrs, new_ids));
        lemma_nearest_renamed(m, other, new_ids, prev, nbrs);
    }
}

/// If the nodes are called by other ids, a greedy walk ends at the same node.
pub proof fn law_walk_follows_renaming(
    m: SearchModel,
    other: SearchModel,
    new_ids: Seq<usize>,
    entry: ScoredItem,
)
    requires
        is_renaming(m, other, new_ids),
        entry.vector < m.adj.len(),
    ensures
        other.descend(renamed_item(entry, new_ids)) == renamed_item(m.descend(entry), new_ids),
{
    let end = lemma_walk_settles(m, entry, 0);
    lemma_descend(m, entry, end);
    lemma_walk_renamed(m, other, new_ids, entry, end);
    lemma_walk_renamed(m, other, new_ids, entry, end + 1);
    let x = m.walk(entry, end);
    assert(m.walk(entry, end + 1) == x);
    assert(other.settled(other.walk(renamed_item(entry, new_ids), end))) by {
        assert(other.walk(renamed_item(entry, new_ids), end + 1) == renamed_item(x, new_ids));
    }
    lemma_descend(other, renamed_item(entry, new_ids), end);
}

} // verus!
