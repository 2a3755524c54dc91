//! What a search amounts to: the nearest node seen so far is expanded again and again, until none
//! is left or the nearest one does not stand up to the worst of the best nodes seen.
use crate::beam::{
    closed, fresh, lemma_fresh, start, start_filtered, work_left, Beam,
    SearchModel,
};
use crate::filtering::lemma_offer_all_room;
use crate::graph::{first, lemma_offer_all_visited, GraphModel};
use crate::scored::{before, ids, in_order, lemma_place, lemma_rank_bounds, place, rank, ScoredItem};
use crate::soundness::{
    everything, lemma_ends, lemma_expand_is_scan, lemma_filter_facts,
    lemma_skipping_step_sound, lemma_start_sound, lemma_step_sound, lemma_two_hop_step_sound, sound,
};
use vstd::prelude::*;

verus! {

/// Node `a` is nearer than node `b`, or as near and the smaller one.
pub open spec fn nearer(score: spec_fn(usize) -> i64, a: usize, b: usize) -> bool {
    score(a) < score(b) || (score(a) == score(b) && a < b)
}

/// `items` are the `size` nearest nodes of `from` (all of them, if there are fewer), each once and
/// with its score, nearest first.
pub open spec fn nearest_items(
    score: spec_fn(usize) -> i64,
    from: Set<usize>,
    size: nat,
    items: Seq<ScoredItem>,
) -> bool {
    &&& items.len() <= size
    &&& forall|i: int|
        0 <= i < items.len() ==> {
            let x = #[trigger] items[i];
            from.contains(x.vector) && x.distance == score(x.vector)
        }
    &&& forall|i: int, j: int|
        0 <= i < j < items.len() ==> nearer(
            score,
            (#[trigger] items[i]).vector,
            (#[trigger] items[j]).vector,
        )
    &&& forall|id: usize| #[trigger]
        from.contains(id) && !among(items, id) ==> items.len() == size && forall|i: int|
            0 <= i < items.len() ==> nearer(score, (#[trigger] items[i]).vector, id)
}

/// `list` are the `size` nearest nodes of `from`, or all of them if there are fewer, nearest first.
pub open spec fn nearest_nodes(
    score: spec_fn(usize) -> i64,
    from: Set<usize>,
    size: nat,
    list: Seq<usize>,
) -> bool {
    exists|items: Seq<ScoredItem>| #[trigger]
        nearest_items(score, from, size, items) && list == ids(items)
}

/// Node `id` is one of `items`.
pub open spec fn among(items: Seq<ScoredItem>, id: usize) -> bool {
    exists|i: int| 0 <= i < items.len() && (#[trigger] items[i]).vector == id
}

/// The nodes seen once the nodes `expanded` were expanded, in that order. Expanding node `x` when
/// the nodes `seen` were seen shows the nodes `shows(seen, x)`.
pub open spec fn seen_after(
    shows: spec_fn(Set<usize>, usize) -> Set<usize>,
    entry: usize,
    expanded: Seq<usize>,
) -> Set<usize>
    decreases expanded.len(),
{
    if expanded.len() == 0 {
        set![entry]
    } else {
        let seen = seen_after(shows, entry, expanded.drop_last());
        seen.union(shows(seen, expanded.last()))
    }
}

/// Expanding a node shows its neighbours.
pub open spec fn neighbors_shown(adj: Seq<Seq<usize>>) -> spec_fn(Set<usize>, usize) -> Set<usize> {
    |seen: Set<usize>, x: usize| adj[x as int].to_set()
}

/// Node `y` is a neighbour of `x` that does not pass and has not been seen.
pub open spec fn reached_through(
    adj: Seq<Seq<usize>>,
    pass: spec_fn(usize) -> bool,
    seen: Set<usize>,
    x: usize,
    y: usize,
) -> bool {
    adj[x as int].contains(y) && !pass(y) && !seen.contains(y)
}

/// Expanding a node shows its neighbours, and the neighbours of those among them that do not pass
/// and had not been seen.
pub open spec fn two_hops_shown(
    adj: Seq<Seq<usize>>,
    pass: spec_fn(usize) -> bool,
) -> spec_fn(Set<usize>, usize) -> Set<usize> {
    |seen: Set<usize>, x: usize|
        Set::new(
            |z: usize|
                adj[x as int].contains(z) || exists|y: usize| #[trigger]
                    reached_through(adj, pass, seen, x, y) && adj[y as int].contains(z),
        )
}

/// The nodes of `seen` that pass.
pub open spec fn passing_of(seen: Set<usize>, pass: spec_fn(usize) -> bool) -> Set<usize> {
    Set::new(|id: usize| seen.contains(id) && pass(id))
}

/// Node `id` can be expanded: it was seen and not expanded, and it passes or is the entry.
pub open spec fn can_expand(
    seen: Set<usize>,
    pass: spec_fn(usize) -> bool,
    entry: usize,
    expanded: Seq<usize>,
    id: usize,
) -> bool {
    seen.contains(id) && (pass(id) || id == entry) && !expanded.contains(id)
}

/// The nodes `expanded` were expanded in the right order. `best[i]` are the best nodes before the
/// node `expanded[i]` was: that node is the nearest one that could be expanded, and it stands up
/// to the worst of the best nodes, unless there is room for more of them.
pub open spec fn expands_nearest_first(
    shows: spec_fn(Set<usize>, usize) -> Set<usize>,
    score: spec_fn(usize) -> i64,
    within: spec_fn(i64, i64) -> bool,
    size: nat,
    pass: spec_fn(usize) -> bool,
    entry: usize,
    expanded: Seq<usize>,
    best: Seq<Seq<ScoredItem>>,
) -> bool {
    &&& best.len() == expanded.len() + 1
    &&& forall|i: int|
        0 <= i <= expanded.len() ==> nearest_items(
            score,
            passing_of(seen_after(shows, entry, expanded.take(i)), pass),
            size,
            #[trigger] best[i],
        )
    &&& forall|i: int|
        0 <= i < expanded.len() ==> {
            let x = #[trigger] expanded[i];
            let seen = seen_after(shows, entry, expanded.take(i));
            &&& can_expand(seen, pass, entry, expanded.take(i), x)
            &&& forall|y: usize| #[trigger]
                can_expand(seen, pass, entry, expanded.take(i), y) && y != x ==> nearer(score, x, y)
            &&& best[i].len() < size || within(score(x), best[i].last().distance)
        }
}

/// A search from `entry` expands the nodes `expanded` and ends with the last of `best`: nothing
/// that could still be expanded stands up to the worst of them, and there is no room for more.
pub open spec fn best_first(
    shows: spec_fn(Set<usize>, usize) -> Set<usize>,
    score: spec_fn(usize) -> i64,
    within: spec_fn(i64, i64) -> bool,
    size: nat,
    pass: spec_fn(usize) -> bool,
    entry: usize,
    expanded: Seq<usize>,
    best: Seq<Seq<ScoredItem>>,
) -> bool {
    &&& expands_nearest_first(shows, score, within, size, pass, entry, expanded, best)
    &&& forall|y: usize| #[trigger]
        can_expand(seen_after(shows, entry, expanded), pass, entry, expanded, y)
            ==> best.last().len() >= size && !within(score(y), best.last().last().distance)
}

/// A best-first search from `entry` ends with `results`.
pub open spec fn ends_with(
    shows: spec_fn(Set<usize>, usize) -> Set<usize>,
    score: spec_fn(usize) -> i64,
    within: spec_fn(i64, i64) -> bool,
    size: nat,
    pass: spec_fn(usize) -> bool,
    entry: usize,
    results: Seq<ScoredItem>,
) -> bool {
    exists|expanded: Seq<usize>, best: Seq<Seq<ScoredItem>>|
        {
            &&& #[trigger] best_first(
                shows,
                score,
                within,
                size,
                pass,
                entry,
                expanded,
                best,
            )
            &&& results == best.last()
        }
}

/// No distance falls below `lo`, and among such distances the test lets a distance stand up to any
/// that is not smaller; a smaller distance stands up as well, and to a larger one too.
pub open spec fn steady(within: spec_fn(i64, i64) -> bool, lo: i64) -> bool {
    &&& forall|d: i64, w: i64| lo <= d <= w ==> #[trigger] within(d, w)
    &&& forall|d: i64, w: i64, d2: i64, w2: i64|
        lo <= d2 <= d && lo <= w <= w2 && #[trigger] within(d, w) ==> #[trigger] within(d2, w2)
}

/// The scores of all `n` nodes are at least `lo`.
pub open spec fn scores_from(score: spec_fn(usize) -> i64, n: nat, lo: i64) -> bool {
    forall|id: usize| id < n ==> #[trigger] score(id) >= lo
}

/// The test lets the scores of `n` nodes stand up to one another as [`steady`] says.
pub open spec fn well_behaved(
    score: spec_fn(usize) -> i64,
    within: spec_fn(i64, i64) -> bool,
    n: nat,
) -> bool {
    exists|lo: i64| #[trigger] steady(within, lo) && scores_from(score, n, lo)
}

/// A best-first search from `entry` ends with nodes of which `results` are the `k` nearest.
pub open spec fn finds_nearest(
    shows: spec_fn(Set<usize>, usize) -> Set<usize>,
    score: spec_fn(usize) -> i64,
    within: spec_fn(i64, i64) -> bool,
    size: nat,
    pass: spec_fn(usize) -> bool,
    entry: usize,
    k: nat,
    results: Seq<ScoredItem>,
) -> bool {
    exists|found: Seq<ScoredItem>| #[trigger]
        ends_with(shows, score, within, size, pass, entry, found) && results == first(found, k)
}

/// The plain order of distances is steady.
pub proof fn law_plain_order_is_steady(within: spec_fn(i64, i64) -> bool)
    requires
        forall|d: i64, w: i64| #[trigger] within(d, w) <==> d <= w,
    ensures
        steady(within, i64::MIN),
{
}

proof fn lemma_in_order(score: spec_fn(usize) -> i64, from: Set<usize>, size: nat, s: Seq<ScoredItem>)
    requires
        nearest_items(score, from, size, s),
    ensures
        in_order(s),
{
    assert forall|i: int, j: int| 0 <= i < j < s.len() implies !before(
        #[trigger] s[j],
        #[trigger] s[i],
    ) by {
        assert(nearer(score, s[i].vector, s[j].vector));
    }
}

/// Where an item goes among items that are nearest first.
proof fn lemma_place_nearest(
    m: SearchModel,
    from: Set<usize>,
    size: nat,
    s: Seq<ScoredItem>,
    id: usize,
)
    requires
        nearest_items(m.score, from, size, s),
        !from.contains(id),
    ensures
        ({
            let t = place(s, m.item(id));
            &&& t.len() == s.len() + 1
            &&& forall|i: int|
                0 <= i < t.len() ==> {
                    let y = #[trigger] t[i];
                    &&& y.distance == (m.score)(y.vector)
                    &&& y.vector == id || from.contains(y.vector)
                }
            &&& forall|i: int, j: int|
                0 <= i < j < t.len() ==> nearer(
                    m.score,
                    (#[trigger] t[i]).vector,
                    (#[trigger] t[j]).vector,
                )
            &&& forall|y: usize| #[trigger] among(t, y) <==> y == id || among(s, y)
        }),
{
    let x = m.item(id);
    let t = place(s, x);
    let r = rank(s, x) as int;
    lemma_in_order(m.score, from, size, s);
    lemma_rank_bounds(s, x);
    lemma_place(s, x);
    assert forall|i: int| 0 <= i < t.len() implies {
        let y = #[trigger] t[i];
        &&& y.distance == (m.score)(y.vector)
        &&& y.vector == id || from.contains(y.vector)
    } by {
        if i < r {
            assert(t[i] == s[i]);
        } else if i > r {
            assert(t[i] == s[i - 1]);
        }
    }
    assert forall|i: int, j: int| 0 <= i < j < t.len() implies nearer(
        m.score,
        (#[trigger] t[i]).vector,
        (#[trigger] t[j]).vector,
    ) by {
        if i < r && j < r {
            assert(t[i] == s[i] && t[j] == s[j]);
        } else if i < r && j == r {
            assert(t[i] == s[i]);
            assert(before(s[i], x));
        } else if i < r && j > r {
            assert(t[i] == s[i] && t[j] == s[j - 1]);
        } else if i == r {
            assert(t[j] == s[j - 1]);
            assert(!before(s[r], x));
            assert(from.contains(s[r].vector) && from.contains(s[j - 1].vector));
            if j - 1 > r {
                assert(nearer(m.score, s[r].vector, s[j - 1].vector));
            }
        } else {
            assert(t[i] == s[i - 1] && t[j] == s[j - 1]);
        }
    }
    assert forall|y: usize| #[trigger] among(t, y) <==> y == id || among(s, y) by {
        if among(t, y) && y != id {
            let i = choose|i: int| 0 <= i < t.len() && (#[trigger] t[i]).vector == y;
            if i < r {
                assert(s[i].vector == y);
            } else {
                assert(s[i - 1].vector == y);
            }
        }
        if y == id {
            assert(t[r].vector == y);
        }
        if among(s, y) {
            let i = choose|i: int| 0 <= i < s.len() && (#[trigger] s[i]).vector == y;
            if i < r {
                assert(t[i].vector == y);
            } else {
                assert(t[i + 1].vector == y);
            }
        }
    }
}

/// The worst of the best nodes is no farther than before, once there is no room.
spec fn no_worse(size: nat, old_top: Seq<ScoredItem>, new_top: Seq<ScoredItem>) -> bool {
    old_top.len() >= size ==> new_top.len() >= size && new_top.last().distance
        <= old_top.last().distance
}

/// A node that is offered joins the frontier, or does not stand up to the worst of the best nodes.
spec fn kept_or_rejected(m: SearchModel, b: Beam, id: usize) -> bool {
    among(b.frontier, id) || (b.top.len() >= m.ef && !(m.within)(
        (m.score)(id),
        b.top.last().distance,
    ))
}

/// Every score is at least `lo`, and the test is steady on such scores.
spec fn steady_search(m: SearchModel, lo: i64) -> bool {
    steady(m.within, lo) && scores_from(m.score, m.adj.len(), lo)
}

proof fn lemma_offer_nearest(m: SearchModel, from: Set<usize>, b: Beam, id: usize, lo: i64)
    requires
        steady_search(m, lo),
        m.ef >= 1,
        nearest_items(m.score, from, m.ef, b.top),
        in_order(b.frontier),
        forall|x: usize| #[trigger] from.contains(x) ==> x < m.adj.len(),
        id < m.adj.len(),
        !from.contains(id),
    ensures
        ({
            let c = m.offer(b, m.item(id));
            &&& nearest_items(m.score, from.insert(id), m.ef, c.top)
            &&& in_order(c.frontier)
            &&& forall|x: ScoredItem| #[trigger]
                c.frontier.contains(x) ==> b.frontier.contains(x) || x == m.item(id)
            &&& forall|x: ScoredItem| #[trigger] b.frontier.contains(x) ==> c.frontier.contains(x)
            &&& kept_or_rejected(m, c, id)
            &&& no_worse(m.ef, b.top, c.top)
        }),
{
    let x = m.item(id);
    let c = m.offer(b, x);
    let s = b.top;
    let t = place(s, x);
    let grown = from.insert(id);
    lemma_place_nearest(m, from, m.ef, s, id);
    lemma_place(b.frontier, x);
    if !m.admits(s, x) {
        assert(c.top == s);
        let last = s[s.len() - 1];
        assert(last == s.last());
        assert(from.contains(last.vector));
        assert(x.distance > last.distance);
        assert forall|y: usize| #[trigger] grown.contains(y) && !among(s, y) implies s.len() == m.ef
            && forall|i: int| 0 <= i < s.len() ==> nearer(m.score, (#[trigger] s[i]).vector, y) by {
            if y == id {
                assert forall|i: int| 0 <= i < s.len() implies nearer(
                    m.score,
                    (#[trigger] s[i]).vector,
                    y,
                ) by {
                    if i < s.len() - 1 {
                        assert(nearer(m.score, s[i].vector, last.vector));
                    }
                }
            } else {
                assert(from.contains(y));
            }
        }
    } else {
        assert(c.frontier == place(b.frontier, x));
        assert(c.frontier.contains(x));
        let fi = choose|i: int| 0 <= i < c.frontier.len() && c.frontier[i] == x;
        assert(c.frontier[fi].vector == id);
        if s.len() < m.ef {
            assert(c.top == t);
            assert forall|y: usize| #[trigger] grown.contains(y) && !among(t, y) implies t.len()
                == m.ef && forall|i: int|
                0 <= i < t.len() ==> nearer(m.score, (#[trigger] t[i]).vector, y) by {
                if y != id {
                    assert(from.contains(y) && !among(s, y));
                }
            }
        } else {
            let u = t.drop_last();
            assert(c.top == u);
            let dropped = t[t.len() - 1];
            let last = s[s.len() - 1];
            assert forall|y: usize| #[trigger] grown.contains(y) && !among(u, y) implies u.len()
                == m.ef && forall|i: int|
                0 <= i < u.len() ==> nearer(m.score, (#[trigger] u[i]).vector, y) by {
                assert forall|i: int| 0 <= i < u.len() implies nearer(
                    m.score,
                    (#[trigger] u[i]).vector,
                    y,
                ) by {
                    assert(u[i] == t[i]);
                    assert(nearer(m.score, t[i].vector, dropped.vector));
                    if among(t, y) {
                        let l = choose|l: int| 0 <= l < t.len() && (#[trigger] t[l]).vector == y;
                        if l < u.len() {
                            assert(u[l].vector == y);
                        }
                        assert(dropped.vector == y);
                    } else {
                        assert(from.contains(y) && !among(s, y));
                        assert(nearer(m.score, last.vector, y));
                        if dropped.vector == id {
                            assert(among(t, u[i].vector));
                            assert(among(s, u[i].vector));
                            let l = choose|l: int|
                                0 <= l < s.len() && (#[trigger] s[l]).vector == u[i].vector;
                            assert(nearer(m.score, s[l].vector, y));
                        } else {
                            assert(among(t, dropped.vector));
                            assert(among(s, dropped.vector));
                            let l = choose|l: int|
                                0 <= l < s.len() && (#[trigger] s[l]).vector == dropped.vector;
                            assert(nearer(m.score, s[l].vector, y));
                        }
                    }
                }
            }
            let ul = u[u.len() - 1];
            assert(ul == t[t.len() - 2]);
            assert(nearer(m.score, ul.vector, dropped.vector));
            assert(among(t, last.vector)) by {
                assert(among(s, last.vector));
            }
            let l = choose|l: int| 0 <= l < t.len() && (#[trigger] t[l]).vector == last.vector;
            if l < t.len() - 2 {
                assert(nearer(m.score, t[l].vector, t[t.len() - 2].vector));
                lemma_last_place(s, x, t);
            }
            assert forall|i: int| 0 <= i < u.len() implies {
                let y = #[trigger] u[i];
                grown.contains(y.vector) && y.distance == (m.score)(y.vector)
            } by {
                assert(u[i] == t[i]);
            }
            assert forall|i: int, j: int| 0 <= i < j < u.len() implies nearer(
                m.score,
                (#[trigger] u[i]).vector,
                (#[trigger] u[j]).vector,
            ) by {
                assert(u[i] == t[i] && u[j] == t[j]);
            }
        }
    }
}

/// Putting an item in its place moves the last item by at most one place.
proof fn lemma_last_place(s: Seq<ScoredItem>, x: ScoredItem, t: Seq<ScoredItem>)
    requires
        s.len() > 0,
        t == place(s, x),
    ensures
        t[t.len() - 1] == s[s.len() - 1] || t[t.len() - 2] == s[s.len() - 1],
{
    lemma_rank_bounds(s, x);
}

proof fn lemma_offers_nearest(m: SearchModel, from: Set<usize>, b: Beam, found: Seq<usize>, lo: i64)
    requires
        steady_search(m, lo),
        m.ef >= 1,
        nearest_items(m.score, from, m.ef, b.top),
        in_order(b.frontier),
        forall|x: usize| #[trigger] from.contains(x) ==> x < m.adj.len(),
        forall|i: int|
            0 <= i < found.len() ==> #[trigger] found[i] < m.adj.len() && !from.contains(found[i]),
        found.no_duplicates(),
    ensures
        ({
            let c = m.offer_all(b, found);
            &&& nearest_items(m.score, from.union(found.to_set()), m.ef, c.top)
            &&& in_order(c.frontier)
            &&& forall|x: ScoredItem| #[trigger]
                c.frontier.contains(x) ==> b.frontier.contains(x) || (found.contains(x.vector) && x
                    == m.item(x.vector))
            &&& forall|x: ScoredItem| #[trigger] b.frontier.contains(x) ==> c.frontier.contains(x)
            &&& forall|i: int|
                0 <= i < found.len() ==> kept_or_rejected(m, c, #[trigger] found[i])
            &&& no_worse(m.ef, b.top, c.top)
        }),
    decreases found.len(),
{
    if found.len() == 0 {
        assert(from.union(found.to_set()) =~= from);
    } else {
        let rest = found.drop_last();
        let id = found[found.len() - 1];
        assert(forall|i: int| 0 <= i < rest.len() ==> rest[i] == found[i]);
        assert forall|i: int, j: int| 0 <= i < rest.len() && 0 <= j < rest.len() && i
            != j implies rest[i] != rest[j] by {
            assert(found[i] != found[j]);
        }
        lemma_offers_nearest(m, from, b, rest, lo);
        let prev = m.offer_all(b, rest);
        let before_set = from.union(rest.to_set());
        assert(!rest.contains(id)) by {
            if rest.contains(id) {
                let i = choose|i: int| 0 <= i < rest.len() && rest[i] == id;
                assert(found[i] == found[found.len() - 1]);
            }
        }
        assert forall|x: usize| #[trigger] before_set.contains(x) implies x < m.adj.len() by {
            if rest.contains(x) {
                let i = choose|i: int| 0 <= i < rest.len() && rest[i] == x;
                assert(found[i] == x);
            }
        }
        lemma_offer_nearest(m, before_set, prev, id, lo);
        assert(rest.push(id) =~= found);
        rest.lemma_push_to_set_commute(id);
        assert(from.union(found.to_set()) =~= before_set.insert(id));
        let c = m.offer_all(b, found);
        assert(c == m.offer(prev, m.item(id)));
        assert forall|i: int| 0 <= i < found.len() implies kept_or_rejected(
            m,
            c,
            #[trigger] found[i],
        ) by {
            if i < rest.len() {
                assert(kept_or_rejected(m, prev, rest[i]));
                lemma_kept_or_rejected_stays(m, before_set, prev, c, rest[i], lo);
            }
        }
        assert forall|x: ScoredItem| #[trigger] c.frontier.contains(x) implies b.frontier.contains(
            x,
        ) || (found.contains(x.vector) && x == m.item(x.vector)) by {
            if prev.frontier.contains(x) {
                if rest.contains(x.vector) {
                    let i = choose|i: int| 0 <= i < rest.len() && rest[i] == x.vector;
                    assert(found[i] == x.vector);
                }
            } else {
                assert(found[found.len() - 1] == x.vector);
            }
        }
    }
}

proof fn lemma_kept_or_rejected_stays(
    m: SearchModel,
    from: Set<usize>,
    b: Beam,
    c: Beam,
    id: usize,
    lo: i64,
)
    requires
        steady_search(m, lo),
        m.ef >= 1,
        id < m.adj.len(),
        kept_or_rejected(m, b, id),
        no_worse(m.ef, b.top, c.top),
        forall|x: ScoredItem| #[trigger] b.frontier.contains(x) ==> c.frontier.contains(x),
        c.top.len() > 0 ==> c.top.last().distance >= lo,
    ensures
        kept_or_rejected(m, c, id),
{
    if among(b.frontier, id) {
        let i = choose|i: int| 0 <= i < b.frontier.len() && (#[trigger] b.frontier[i]).vector == id;
        assert(b.frontier.contains(b.frontier[i]));
        assert(c.frontier.contains(b.frontier[i]));
        let j = choose|j: int| 0 <= j < c.frontier.len() && c.frontier[j] == b.frontier[i];
        assert(c.frontier[j].vector == id);
    } else {
        assert((m.score)(id) >= lo);
        if (m.within)((m.score)(id), c.top.last().distance) {
            assert((m.within)((m.score)(id), b.top.last().distance));
        }
    }
}

/// How far a search has come: the nodes `expanded` were expanded, and `best` are the best nodes
/// before each expansion and now.
spec fn running(
    m: SearchModel,
    shows: spec_fn(Set<usize>, usize) -> Set<usize>,
    pass: spec_fn(usize) -> bool,
    entry: usize,
    b: Beam,
    expanded: Seq<usize>,
    best: Seq<Seq<ScoredItem>>,
) -> bool {
    &&& expands_nearest_first(shows, m.score, m.within, m.ef, pass, entry, expanded, best)
    &&& b.visited == seen_after(shows, entry, expanded)
    &&& b.visited.contains(entry)
    &&& best.last() == b.top
    &&& in_order(b.frontier)
    &&& forall|id: usize| #[trigger] b.visited.contains(id) ==> id < m.adj.len()
    &&& forall|i: int|
        0 <= i < b.frontier.len() ==> {
            let x = #[trigger] b.frontier[i];
            x == m.item(x.vector) && can_expand(b.visited, pass, entry, expanded, x.vector)
        }
    &&& forall|i: int, j: int|
        0 <= i < j < b.frontier.len() ==> (#[trigger] b.frontier[i]).vector != (
        #[trigger] b.frontier[j]).vector
    &&& forall|y: usize| #[trigger]
        can_expand(b.visited, pass, entry, expanded, y) ==> kept_or_rejected(m, b, y)
}

/// What an expansion of the nearest item does: the nodes of `found` are offered, and they are the
/// passing ones of those that are shown and were not seen before.
spec fn expands_to(
    m: SearchModel,
    shows: spec_fn(Set<usize>, usize) -> Set<usize>,
    pass: spec_fn(usize) -> bool,
    b: Beam,
    after: Beam,
    found: Seq<usize>,
) -> bool {
    let base = Beam { frontier: b.frontier.drop_first(), ..b };
    let shown = shows(b.visited, b.frontier[0].vector);
    &&& after.top == m.offer_all(base, found).top
    &&& after.frontier == m.offer_all(base, found).frontier
    &&& after.visited == b.visited.union(shown)
    &&& found.no_duplicates()
    &&& forall|y: usize| #[trigger]
        found.contains(y) <==> shown.contains(y) && !b.visited.contains(y) && pass(y)
    &&& forall|y: usize| #[trigger] shown.contains(y) ==> y < m.adj.len()
}

/// The node that is expanded next is the nearest one that can be.
proof fn lemma_next_is_nearest(
    m: SearchModel,
    shows: spec_fn(Set<usize>, usize) -> Set<usize>,
    pass: spec_fn(usize) -> bool,
    entry: usize,
    b: Beam,
    expanded: Seq<usize>,
    best: Seq<Seq<ScoredItem>>,
    lo: i64,
)
    requires
        steady_search(m, lo),
        m.ef >= 1,
        m.ef >= m.k,
        running(m, shows, pass, entry, b, expanded, best),
        !m.done(b),
    ensures
        ({
            let x = b.frontier[0].vector;
            &&& can_expand(b.visited, pass, entry, expanded, x)
            &&& forall|y: usize| #[trigger]
                can_expand(b.visited, pass, entry, expanded, y) && y != x ==> nearer(m.score, x, y)
            &&& b.top.len() < m.ef || (m.within)((m.score)(x), b.top.last().distance)
        }),
{
    let first = b.frontier[0];
    let x = first.vector;
    assert(first == m.item(x));
    assert forall|y: usize| #[trigger]
        can_expand(b.visited, pass, entry, expanded, y) && y != x implies nearer(m.score, x, y) by {
        assert(kept_or_rejected(m, b, y));
        if among(b.frontier, y) {
            let j = choose|j: int|
                0 <= j < b.frontier.len() && (#[trigger] b.frontier[j]).vector == y;
            assert(!before(b.frontier[j], b.frontier[0]));
            assert(b.frontier[j] == m.item(y));
        } else {
            assert((m.score)(y) >= lo && (m.score)(x) >= lo);
            let last = b.top[b.top.len() - 1];
            assert(best[best.len() - 1] == b.top);
            assert(best[expanded.len() as int] == b.top);
            assert(expanded.take(expanded.len() as int) =~= expanded);
            assert(passing_of(b.visited, pass).contains(last.vector));
            assert(b.visited.contains(last.vector));
            assert((m.score)(last.vector) >= lo);
        }
    }
}

proof fn lemma_step_running(
    m: SearchModel,
    shows: spec_fn(Set<usize>, usize) -> Set<usize>,
    pass: spec_fn(usize) -> bool,
    entry: usize,
    b: Beam,
    after: Beam,
    found: Seq<usize>,
    expanded: Seq<usize>,
    best: Seq<Seq<ScoredItem>>,
    lo: i64,
)
    requires
        steady_search(m, lo),
        m.ef >= 1,
        m.ef >= m.k,
        running(m, shows, pass, entry, b, expanded, best),
        !m.done(b),
        expands_to(m, shows, pass, b, after, found),
    ensures
        running(
            m,
            shows,
            pass,
            entry,
            after,
            expanded.push(b.frontier[0].vector),
            best.push(after.top),
        ),
{
    let x = b.frontier[0].vector;
    let rest = b.frontier.drop_first();
    let base = Beam { frontier: rest, ..b };
    let longer = expanded.push(x);
    let bests = best.push(after.top);
    let shown = shows(b.visited, x);
    let known = passing_of(b.visited, pass);
    lemma_next_is_nearest(m, shows, pass, entry, b, expanded, best, lo);
    assert(best[expanded.len() as int] == b.top);
    assert(expanded.take(expanded.len() as int) =~= expanded);
    assert(nearest_items(m.score, known, m.ef, b.top));
    assert forall|i: int, j: int| 0 <= i < j < rest.len() implies !before(
        #[trigger] rest[j],
        #[trigger] rest[i],
    ) by {
        assert(rest[i] == b.frontier[i + 1] && rest[j] == b.frontier[j + 1]);
    }
    assert forall|i: int| 0 <= i < found.len() implies #[trigger] found[i] < m.adj.len()
        && !known.contains(found[i]) && !b.visited.contains(found[i]) by {
        assert(found.contains(found[i]));
        assert(shown.contains(found[i]));
    }
    lemma_offers_nearest(m, known, base, found, lo);
    assert(longer.drop_last() =~= expanded);
    assert(seen_after(shows, entry, longer) == b.visited.union(shown));
    assert(known.union(found.to_set()) =~= passing_of(after.visited, pass)) by {
        assert forall|y: usize| passing_of(after.visited, pass).contains(y) implies known.union(
            found.to_set(),
        ).contains(y) by {
            if !b.visited.contains(y) {
                assert(found.contains(y));
            }
        }
        assert forall|y: usize| known.union(found.to_set()).contains(y) implies passing_of(
            after.visited,
            pass,
        ).contains(y) by {
            if found.contains(y) {
                assert(shown.contains(y));
            }
        }
    }
    assert forall|i: int| 0 <= i <= longer.len() implies nearest_items(
        m.score,
        passing_of(seen_after(shows, entry, longer.take(i)), pass),
        m.ef,
        #[trigger] bests[i],
    ) by {
        if i < longer.len() {
            assert(longer.take(i) =~= expanded.take(i));
            assert(bests[i] == best[i]);
        } else {
            assert(longer.take(i) =~= longer);
        }
    }
    assert forall|i: int| 0 <= i < longer.len() implies {
        let y = #[trigger] longer[i];
        let seen = seen_after(shows, entry, longer.take(i));
        &&& can_expand(seen, pass, entry, longer.take(i), y)
        &&& forall|z: usize| #[trigger]
            can_expand(seen, pass, entry, longer.take(i), z) && z != y ==> nearer(m.score, y, z)
        &&& bests[i].len() < m.ef || (m.within)((m.score)(y), bests[i].last().distance)
    } by {
        assert(longer.take(i) =~= expanded.take(i));
        assert(bests[i] == best[i]);
        if i < expanded.len() {
            assert(longer[i] == expanded[i]);
        }
    }
    assert forall|id: usize| #[trigger] after.visited.contains(id) implies id < m.adj.len() by {
        if !b.visited.contains(id) {
            assert(shown.contains(id));
        }
    }
    assert forall|y: usize| longer.contains(y) <==> expanded.contains(y) || y == x by {
        if expanded.contains(y) {
            let i = choose|i: int| 0 <= i < expanded.len() && expanded[i] == y;
            assert(longer[i] == y);
        }
        if y == x {
            assert(longer[expanded.len() as int] == y);
        }
        if longer.contains(y) && y != x {
            let i = choose|i: int| 0 <= i < longer.len() && longer[i] == y;
            assert(expanded[i] == y);
        }
    }
    assert forall|i: int| 0 <= i < expanded.len() implies b.visited.contains(
        #[trigger] expanded[i],
    ) by {
        lemma_expanded_seen(shows, m.score, m.within, m.ef, pass, entry, expanded, best, i);
    }
    let f = after.frontier;
    assert forall|i: int| 0 <= i < f.len() implies {
        let y = #[trigger] f[i];
        y == m.item(y.vector) && can_expand(after.visited, pass, entry, longer, y.vector)
    } by {
        let y = f[i];
        assert(f.contains(y));
        if rest.contains(y) {
            let j = choose|j: int| 0 <= j < rest.len() && rest[j] == y;
            assert(b.frontier[j + 1] == y);
            assert(b.frontier[0].vector != b.frontier[j + 1].vector);
        } else {
            assert(found.contains(y.vector));
            if expanded.contains(y.vector) {
                let j = choose|j: int| 0 <= j < expanded.len() && expanded[j] == y.vector;
                assert(b.visited.contains(expanded[j]));
            }
            assert(b.visited.contains(x));
        }
    }
    lemma_offers_distinct(m, base, found, b.visited);
    assert forall|y: usize| #[trigger]
        can_expand(after.visited, pass, entry, longer, y) implies kept_or_rejected(
        m,
        after,
        y,
    ) by {
        if b.visited.contains(y) {
            assert(can_expand(b.visited, pass, entry, expanded, y));
            assert(kept_or_rejected(m, b, y));
            assert(kept_or_rejected(m, base, y)) by {
                if among(b.frontier, y) {
                    let j = choose|j: int|
                        0 <= j < b.frontier.len() && (#[trigger] b.frontier[j]).vector == y;
                    assert(rest[j - 1].vector == y);
                }
            }
            if after.top.len() > 0 {
                let last = after.top[after.top.len() - 1];
                assert(known.union(found.to_set()).contains(last.vector));
                assert(after.visited.contains(last.vector));
                assert((m.score)(last.vector) >= lo);
            }
            lemma_kept_or_rejected_stays(m, known, base, after, y, lo);
        } else {
            assert(found.contains(y));
            let j = choose|j: int| 0 <= j < found.len() && found[j] == y;
            assert(kept_or_rejected(m, m.offer_all(base, found), found[j]));
        }
    }
}

/// What was expanded was seen.
proof fn lemma_expanded_seen(
    shows: spec_fn(Set<usize>, usize) -> Set<usize>,
    score: spec_fn(usize) -> i64,
    within: spec_fn(i64, i64) -> bool,
    size: nat,
    pass: spec_fn(usize) -> bool,
    entry: usize,
    expanded: Seq<usize>,
    best: Seq<Seq<ScoredItem>>,
    i: int,
)
    requires
        expands_nearest_first(shows, score, within, size, pass, entry, expanded, best),
        0 <= i < expanded.len(),
    ensures
        seen_after(shows, entry, expanded).contains(expanded[i]),
{
    lemma_seen_grows(shows, entry, expanded, i);
    let x = expanded[i];
    assert(can_expand(
        seen_after(shows, entry, expanded.take(i)),
        pass,
        entry,
        expanded.take(i),
        x,
    ));
}

/// What was seen stays seen.
pub proof fn lemma_seen_grows(
    shows: spec_fn(Set<usize>, usize) -> Set<usize>,
    entry: usize,
    expanded: Seq<usize>,
    i: int,
)
    requires
        0 <= i <= expanded.len(),
    ensures
        seen_after(shows, entry, expanded.take(i)).subset_of(seen_after(shows, entry, expanded)),
    decreases expanded.len() - i,
{
    if i < expanded.len() {
        lemma_seen_grows(shows, entry, expanded, i + 1);
        assert(expanded.take(i + 1).drop_last() =~= expanded.take(i));
    } else {
        assert(expanded.take(i) =~= expanded);
    }
}

/// Offering unseen nodes keeps the items of the frontier of different nodes.
proof fn lemma_offers_distinct(m: SearchModel, b: Beam, found: Seq<usize>, seen: Set<usize>)
    requires
        forall|i: int|
            0 <= i < b.frontier.len() ==> seen.contains((#[trigger] b.frontier[i]).vector),
        forall|i: int, j: int|
            0 <= i < j < b.frontier.len() ==> (#[trigger] b.frontier[i]).vector != (
            #[trigger] b.frontier[j]).vector,
        forall|i: int| 0 <= i < found.len() ==> !seen.contains(#[trigger] found[i]),
        found.no_duplicates(),
    ensures
        ({
            let f = m.offer_all(b, found).frontier;
            &&& forall|i: int|
                0 <= i < f.len() ==> seen.contains((#[trigger] f[i]).vector) || found.contains(
                    f[i].vector,
                )
            &&& forall|i: int, j: int|
                0 <= i < j < f.len() ==> (#[trigger] f[i]).vector != (#[trigger] f[j]).vector
        }),
    decreases found.len(),
{
    if found.len() > 0 {
        let rest = found.drop_last();
        let id = found[found.len() - 1];
        assert(forall|i: int| 0 <= i < rest.len() ==> rest[i] == found[i]);
        assert forall|i: int, j: int| 0 <= i < rest.len() && 0 <= j < rest.len() && i
            != j implies rest[i] != rest[j] by {
            assert(found[i] != found[j]);
        }
        lemma_offers_distinct(m, b, rest, seen);
        let prev = m.offer_all(b, rest).frontier;
        let x = m.item(id);
        let f = m.offer_all(b, found).frontier;
        let t = place(prev, x);
        let r = rank(prev, x) as int;
        lemma_rank_bounds(prev, x);
        assert(found.contains(id));
        assert forall|i: int| 0 <= i < prev.len() implies (#[trigger] prev[i]).vector != id && (
        seen.contains(prev[i].vector) || found.contains(prev[i].vector)) by {
            if rest.contains(prev[i].vector) {
                let l = choose|l: int| 0 <= l < rest.len() && rest[l] == prev[i].vector;
                assert(found[l] != found[found.len() - 1]);
                assert(found.contains(found[l]));
            }
        }
        if f != prev {
            assert(f == t);
            assert forall|i: int| 0 <= i < f.len() implies seen.contains((#[trigger] f[i]).vector)
                || found.contains(f[i].vector) by {
                if i < r {
                    assert(f[i] == prev[i]);
                } else if i > r {
                    assert(f[i] == prev[i - 1]);
                }
            }
            assert forall|i: int, j: int| 0 <= i < j < f.len() implies (#[trigger] f[i]).vector != (
            #[trigger] f[j]).vector by {
                let a = if i < r { i } else { i - 1 };
                let c = if j < r { j } else { j - 1 };
                if i != r {
                    assert(f[i] == prev[a]);
                }
                if j != r {
                    assert(f[j] == prev[c]);
                }
            }
        }
    }
}

proof fn lemma_start_running(
    m: SearchModel,
    shows: spec_fn(Set<usize>, usize) -> Set<usize>,
    pass: spec_fn(usize) -> bool,
    entry: ScoredItem,
)
    requires
        m.ef >= 1,
        entry.vector < m.adj.len(),
        entry == m.item(entry.vector),
    ensures
        running(
            m,
            shows,
            pass,
            entry.vector,
            start_filtered(entry, pass),
            Seq::empty(),
            seq![start_filtered(entry, pass).top],
        ),
{
    let b = start_filtered(entry, pass);
    let expanded = Seq::<usize>::empty();
    let best = seq![b.top];
    assert(expanded.take(0) =~= expanded);
    let from = passing_of(b.visited, pass);
    assert(nearest_items(m.score, from, m.ef, b.top)) by {
        if pass(entry.vector) {
            assert(b.top[0].vector == entry.vector);
            assert(among(b.top, entry.vector));
        }
    }
    assert(b.frontier[0].vector == entry.vector);
    assert(among(b.frontier, entry.vector));
}

/// At the end of a search, nothing that could be expanded stands up.
proof fn lemma_done_running(
    m: SearchModel,
    shows: spec_fn(Set<usize>, usize) -> Set<usize>,
    pass: spec_fn(usize) -> bool,
    entry: usize,
    b: Beam,
    expanded: Seq<usize>,
    best: Seq<Seq<ScoredItem>>,
    lo: i64,
)
    requires
        steady_search(m, lo),
        m.ef >= 1,
        m.ef >= m.k,
        running(m, shows, pass, entry, b, expanded, best),
        m.done(b),
    ensures
        best_first(shows, m.score, m.within, m.ef, pass, entry, expanded, best),
{
    assert forall|y: usize| #[trigger]
        can_expand(seen_after(shows, entry, expanded), pass, entry, expanded, y) implies b.top.len()
        >= m.ef && !(m.within)((m.score)(y), b.top.last().distance) by {
        assert(can_expand(b.visited, pass, entry, expanded, y));
        assert(kept_or_rejected(m, b, y));
        if among(b.frontier, y) {
            let j = choose|j: int|
                0 <= j < b.frontier.len() && (#[trigger] b.frontier[j]).vector == y;
            if j > 0 {
                assert(!before(b.frontier[j], b.frontier[0]));
            }
            assert(b.frontier[j] == m.item(y));
            assert(b.frontier[0] == m.item(b.frontier[0].vector));
            assert(b.visited.contains(b.frontier[0].vector));
            assert((m.score)(b.frontier[0].vector) >= lo);
            let last = b.top[b.top.len() - 1];
            assert(best[expanded.len() as int] == b.top);
            assert(expanded.take(expanded.len() as int) =~= expanded);
            assert(passing_of(b.visited, pass).contains(last.vector));
            assert(b.visited.contains(last.vector));
            assert((m.score)(last.vector) >= lo);
        }
    }
}

/// A beam search is best-first: the nearest node seen is expanded again and again, until none is
/// left or the nearest one does not stand up to the worst of the `ef` nearest nodes seen, and these
/// are returned.
pub proof fn law_search_is_best_first(m: SearchModel, entry: ScoredItem, lo: i64)
    requires
        closed(m.adj),
        entry.vector < m.adj.len(),
        entry == m.item(entry.vector),
        m.ef >= 1,
        m.ef >= m.k,
        steady(m.within, lo),
        scores_from(m.score, m.adj.len(), lo),
    ensures
        ends_with(
            neighbors_shown(m.adj),
            m.score,
            m.within,
            m.ef,
            everything(),
            entry.vector,
            m.outcome(m.expansion(), start(entry)),
        ),
{
    let pass = everything();
    let shows = neighbors_shown(m.adj);
    let n = m.adj.len();
    let expand = m.expansion();
    let b0 = start(entry);
    let inv = |b: Beam|
        sound(m, entry, pass, b) && exists|expanded: Seq<usize>, best: Seq<Seq<ScoredItem>>|
            #[trigger] running(m, shows, pass, entry.vector, b, expanded, best);
    lemma_start_sound(m, entry, pass, pass);
    lemma_start_running(m, shows, pass, entry);
    assert(start_filtered(entry, pass) == b0);
    assert(inv(b0));
    assert forall|b: Beam| #[trigger] inv(b) && !m.done(b) implies inv(m.step(expand, b)) && 0
        <= work_left(m.step(expand, b), n) < work_left(b, n) by {
        lemma_step_sound(m, entry, b);
        let (expanded, best) = choose|expanded: Seq<usize>, best: Seq<Seq<ScoredItem>>|
            #[trigger] running(m, shows, pass, entry.vector, b, expanded, best);
        let base = Beam { frontier: b.frontier.drop_first(), ..b };
        let x = b.frontier[0].vector;
        assert(can_expand(b.visited, pass, entry.vector, expanded, x));
        let found = lemma_scan_expands(m, pass, b, base);
        lemma_expand_is_scan(m, base, x);
        lemma_step_running(
            m,
            shows,
            pass,
            entry.vector,
            b,
            m.step(expand, b),
            found,
            expanded,
            best,
            lo,
        );
    }
    let end = lemma_ends(m, expand, inv, b0, 0);
    let b = m.after(expand, b0, end);
    let (expanded, best) = choose|expanded: Seq<usize>, best: Seq<Seq<ScoredItem>>|
        #[trigger] running(m, shows, pass, entry.vector, b, expanded, best);
    lemma_done_running(m, shows, pass, entry.vector, b, expanded, best, lo);
}

/// A scan of the neighbours offers the unseen ones that pass.
proof fn lemma_scan_expands(
    m: SearchModel,
    pass: spec_fn(usize) -> bool,
    b: Beam,
    base: Beam,
) -> (found: Seq<usize>)
    requires
        closed(m.adj),
        b.visited.finite(),
        b.frontier.len() > 0,
        b.frontier[0].vector < m.adj.len(),
        base == (Beam { frontier: b.frontier.drop_first(), ..b }),
    ensures
        expands_to(
            m,
            neighbors_shown(m.adj),
            pass,
            b,
            m.scan(base, m.adj[b.frontier[0].vector as int], pass),
            found,
        ),
        found == fresh(m.adj[b.frontier[0].vector as int], b.visited).filter(pass),
{
    let x = b.frontier[0].vector;
    let nbrs = m.adj[x as int];
    let unseen = fresh(nbrs, b.visited);
    let found = unseen.filter(pass);
    let after = m.scan(base, nbrs, pass);
    lemma_fresh(nbrs, b.visited);
    lemma_filter_facts(unseen, pass);
    lemma_offer_all_visited(m, m.see(base, nbrs), found);
    lemma_offers_ignore_visited(m, m.see(base, nbrs), base, found);
    lemma_filter_members(unseen, pass);
    assert forall|y: usize| #[trigger] nbrs.to_set().contains(y) implies y < m.adj.len() by {
        let j = choose|j: int| 0 <= j < nbrs.len() && nbrs[j] == y;
        assert(m.adj[x as int][j] < m.adj.len());
    }
    found
}

proof fn lemma_filter_members(s: Seq<usize>, pass: spec_fn(usize) -> bool)
    requires
        s.no_duplicates(),
    ensures
        forall|y: usize| #[trigger] s.filter(pass).contains(y) <==> s.contains(y) && pass(y),
{
    lemma_filter_facts(s, pass);
    let f = s.filter(pass);
    assert forall|y: usize| #[trigger] f.contains(y) <==> s.contains(y) && pass(y) by {
        if f.contains(y) {
            let i = choose|i: int| 0 <= i < f.len() && f[i] == y;
            assert(s.contains(f[i]));
        }
        if s.contains(y) && pass(y) {
            let i = choose|i: int| 0 <= i < s.len() && s[i] == y;
            s.lemma_filter_contains(pass, i);
        }
    }
}

/// What is offered goes to the items, whatever was seen.
proof fn lemma_offers_ignore_visited(m: SearchModel, a: Beam, b: Beam, found: Seq<usize>)
    requires
        a.top == b.top,
        a.frontier == b.frontier,
    ensures
        m.offer_all(a, found).top == m.offer_all(b, found).top,
        m.offer_all(a, found).frontier == m.offer_all(b, found).frontier,
    decreases found.len(),
{
    if found.len() > 0 {
        lemma_offers_ignore_visited(m, a, b, found.drop_last());
    }
}

/// A filtered search that skips failing nodes is best-first among the nodes that pass: the nearest
/// such node seen is expanded again and again, the entry first, until none is left or the nearest
/// one does not stand up to the worst of the `ef` nearest ones seen, and these are returned.
pub proof fn law_skipping_search_is_best_first(
    m: SearchModel,
    entry: ScoredItem,
    pass: spec_fn(usize) -> bool,
    lo: i64,
)
    requires
        closed(m.adj),
        entry.vector < m.adj.len(),
        entry == m.item(entry.vector),
        m.ef >= 1,
        m.ef >= m.k,
        steady(m.within, lo),
        scores_from(m.score, m.adj.len(), lo),
    ensures
        ends_with(
            neighbors_shown(m.adj),
            m.score,
            m.within,
            m.ef,
            pass,
            entry.vector,
            m.outcome(m.passing_expansion(pass), start_filtered(entry, pass)),
        ),
{
    let shows = neighbors_shown(m.adj);
    let n = m.adj.len();
    let expand = m.passing_expansion(pass);
    let b0 = start_filtered(entry, pass);
    let inv = |b: Beam|
        sound(m, entry, pass, b) && exists|expanded: Seq<usize>, best: Seq<Seq<ScoredItem>>|
            #[trigger] running(m, shows, pass, entry.vector, b, expanded, best);
    lemma_start_sound(m, entry, pass, pass);
    lemma_start_running(m, shows, pass, entry);
    assert(inv(b0));
    assert forall|b: Beam| #[trigger] inv(b) && !m.done(b) implies inv(m.step(expand, b)) && 0
        <= work_left(m.step(expand, b), n) < work_left(b, n) by {
        lemma_skipping_step_sound(m, entry, pass, b);
        let (expanded, best) = choose|expanded: Seq<usize>, best: Seq<Seq<ScoredItem>>|
            #[trigger] running(m, shows, pass, entry.vector, b, expanded, best);
        let base = Beam { frontier: b.frontier.drop_first(), ..b };
        let x = b.frontier[0].vector;
        assert(can_expand(b.visited, pass, entry.vector, expanded, x));
        let found = lemma_scan_expands(m, pass, b, base);
        lemma_offer_all_room(m, m.see(base, m.adj[x as int]), found);
        assert(m.step(expand, b) == m.scan(base, m.adj[x as int], pass));
        lemma_step_running(
            m,
            shows,
            pass,
            entry.vector,
            b,
            m.step(expand, b),
            found,
            expanded,
            best,
            lo,
        );
    }
    let end = lemma_ends(m, expand, inv, b0, 0);
    let b = m.after(expand, b0, end);
    let (expanded, best) = choose|expanded: Seq<usize>, best: Seq<Seq<ScoredItem>>|
        #[trigger] running(m, shows, pass, entry.vector, b, expanded, best);
    lemma_done_running(m, shows, pass, entry.vector, b, expanded, best, lo);
}

proof fn lemma_offers_join_up(m: SearchModel, b: Beam, f: Seq<usize>, g: Seq<usize>)
    ensures
        m.offer_all(m.offer_all(b, f), g) == m.offer_all(b, f + g),
    decreases g.len(),
{
    if g.len() == 0 {
        assert(f + g =~= f);
    } else {
        lemma_offers_join_up(m, b, f, g.drop_last());
        assert((f + g).drop_last() =~= f + g.drop_last());
        assert((f + g).last() == g.last());
    }
}

/// Node `z` is a neighbour of one of `mids`.
spec fn beside(adj: Seq<Seq<usize>>, mids: Seq<usize>, z: usize) -> bool {
    exists|y: usize| #[trigger] mids.contains(y) && adj[y as int].contains(z)
}

/// Scanning around several nodes offers their unseen neighbours that pass.
proof fn lemma_around_offers(
    m: SearchModel,
    pass: spec_fn(usize) -> bool,
    b: Beam,
    mids: Seq<usize>,
) -> (found: Seq<usize>)
    requires
        b.visited.finite(),
    ensures
        ({
            let after = m.scan_around(b, mids, pass);
            &&& after.top == m.offer_all(b, found).top
            &&& after.frontier == m.offer_all(b, found).frontier
            &&& after.visited.finite()
            &&& forall|z: usize| #[trigger]
                after.visited.contains(z) <==> b.visited.contains(z) || beside(m.adj, mids, z)
        }),
        found.no_duplicates(),
        forall|z: usize| #[trigger]
            found.contains(z) <==> beside(m.adj, mids, z) && !b.visited.contains(z) && pass(z),
    decreases mids.len(),
{
    if mids.len() == 0 {
        Seq::empty()
    } else {
        let rest = mids.drop_last();
        let mid = mids[mids.len() - 1];
        let nbrs = m.adj[mid as int];
        let f = lemma_around_offers(m, pass, b, rest);
        let prev = m.scan_around(b, rest, pass);
        let unseen = fresh(nbrs, prev.visited);
        let g = unseen.filter(pass);
        let after = m.scan_around(b, mids, pass);
        lemma_fresh(nbrs, prev.visited);
        lemma_filter_facts(unseen, pass);
        lemma_filter_members(unseen, pass);
        lemma_offer_all_visited(m, m.see(prev, nbrs), g);
        lemma_offers_ignore_visited(m, m.see(prev, nbrs), m.offer_all(b, f), g);
        lemma_offers_join_up(m, b, f, g);
        let found = f + g;
        assert forall|z: usize| #[trigger] beside(m.adj, mids, z) <==> beside(m.adj, rest, z)
            || nbrs.contains(z) by {
            if beside(m.adj, rest, z) {
                let y = choose|y: usize| #[trigger] rest.contains(y) && m.adj[y as int].contains(z);
                let i = choose|i: int| 0 <= i < rest.len() && rest[i] == y;
                assert(mids[i] == y);
                assert(mids.contains(y));
            }
            if nbrs.contains(z) {
                assert(mids.contains(mid));
            }
            if beside(m.adj, mids, z) {
                let y = choose|y: usize| #[trigger] mids.contains(y) && m.adj[y as int].contains(z);
                let i = choose|i: int| 0 <= i < mids.len() && mids[i] == y;
                if i < rest.len() {
                    assert(rest[i] == y);
                    assert(rest.contains(y));
                }
            }
        }
        assert forall|z: usize| #[trigger] found.contains(z) <==> f.contains(z) || g.contains(z) by {
            if f.contains(z) {
                let i = choose|i: int| 0 <= i < f.len() && f[i] == z;
                assert(found[i] == z);
            }
            if g.contains(z) {
                let i = choose|i: int| 0 <= i < g.len() && g[i] == z;
                assert(found[f.len() + i] == z);
            }
            if found.contains(z) {
                let i = choose|i: int| 0 <= i < found.len() && found[i] == z;
                if i < f.len() {
                    assert(f[i] == z);
                } else {
                    assert(g[i - f.len()] == z);
                }
            }
        }
        assert forall|i: int, j: int| 0 <= i < found.len() && 0 <= j < found.len() && i
            != j implies found[i] != found[j] by {
            if i < f.len() && j < f.len() {
                assert(f[i] != f[j]);
            } else if i >= f.len() && j >= f.len() {
                assert(g[i - f.len()] != g[j - f.len()]);
            } else if i < f.len() {
                assert(f.contains(f[i]) && g.contains(g[j - f.len()]));
                assert(beside(m.adj, rest, f[i]));
                assert(prev.visited.contains(f[i]));
            } else {
                assert(f.contains(f[j]) && g.contains(g[i - f.len()]));
                assert(beside(m.adj, rest, f[j]));
                assert(prev.visited.contains(f[j]));
            }
        }
        assert forall|z: usize| #[trigger] after.visited.contains(z) <==> b.visited.contains(z)
            || beside(m.adj, mids, z) by {
            assert(after.visited.contains(z) <==> prev.visited.contains(z) || nbrs.contains(z));
        }
        assert forall|z: usize| #[trigger] found.contains(z) <==> beside(m.adj, mids, z)
            && !b.visited.contains(z) && pass(z) by {
            assert(prev.visited.contains(z) <==> b.visited.contains(z) || beside(m.adj, rest, z));
        }
        found
    }
}

/// A two-hop expansion offers the unseen passing nodes among the neighbours, and among the
/// neighbours of the unseen ones that fail.
proof fn lemma_two_hop_expands(
    m: SearchModel,
    pass: spec_fn(usize) -> bool,
    b: Beam,
    base: Beam,
) -> (found: Seq<usize>)
    requires
        closed(m.adj),
        b.visited.finite(),
        b.frontier.len() > 0,
        b.frontier[0].vector < m.adj.len(),
        base == (Beam { frontier: b.frontier.drop_first(), ..b }),
    ensures
        expands_to(
            m,
            two_hops_shown(m.adj, pass),
            pass,
            b,
            m.expand_two_hop(base, b.frontier[0].vector, pass),
            found,
        ),
{
    let x = b.frontier[0].vector;
    let nbrs = m.adj[x as int];
    let unseen = fresh(nbrs, b.visited);
    let fails = |id: usize| !pass(id);
    let mids = unseen.filter(fails);
    let direct = m.scan(base, nbrs, pass);
    let after = m.expand_two_hop(base, x, pass);
    let shown = two_hops_shown(m.adj, pass)(b.visited, x);
    let f = lemma_scan_expands(m, pass, b, base);
    lemma_fresh(nbrs, b.visited);
    lemma_filter_members(unseen, fails);
    assert(direct.visited == b.visited.union(nbrs.to_set()));
    let g = lemma_around_offers(m, pass, direct, mids);
    lemma_offers_ignore_visited(m, direct, m.offer_all(base, f), g);
    lemma_offers_join_up(m, base, f, g);
    let found = f + g;
    assert forall|z: usize| #[trigger] beside(m.adj, mids, z) <==> exists|y: usize| #[trigger]
        reached_through(m.adj, pass, b.visited, x, y) && m.adj[y as int].contains(z) by {
        if beside(m.adj, mids, z) {
            let y = choose|y: usize| #[trigger] mids.contains(y) && m.adj[y as int].contains(z);
            assert(unseen.contains(y));
            assert(reached_through(m.adj, pass, b.visited, x, y));
        }
        if exists|y: usize| #[trigger]
            reached_through(m.adj, pass, b.visited, x, y) && m.adj[y as int].contains(z) {
            let y = choose|y: usize| #[trigger]
                reached_through(m.adj, pass, b.visited, x, y) && m.adj[y as int].contains(z);
            assert(unseen.contains(y));
            assert(mids.contains(y));
        }
    }
    assert forall|z: usize| #[trigger] shown.contains(z) <==> nbrs.contains(z) || beside(
        m.adj,
        mids,
        z,
    ) by {}
    assert(after.visited =~= b.visited.union(shown)) by {
        assert forall|z: usize| after.visited.contains(z) <==> b.visited.union(shown).contains(z) by {
            assert(shown.contains(z) <==> nbrs.contains(z) || beside(m.adj, mids, z));
            assert(direct.visited.contains(z) <==> b.visited.contains(z) || nbrs.contains(z));
        }
    }
    assert forall|z: usize| #[trigger] found.contains(z) <==> f.contains(z) || g.contains(z) by {
        if f.contains(z) {
            let i = choose|i: int| 0 <= i < f.len() && f[i] == z;
            assert(found[i] == z);
        }
        if g.contains(z) {
            let i = choose|i: int| 0 <= i < g.len() && g[i] == z;
            assert(found[f.len() + i] == z);
        }
        if found.contains(z) {
            let i = choose|i: int| 0 <= i < found.len() && found[i] == z;
            if i < f.len() {
                assert(f[i] == z);
            } else {
                assert(g[i - f.len()] == z);
            }
        }
    }
    assert forall|z: usize| #[trigger] f.contains(z) <==> nbrs.contains(z) && !b.visited.contains(z)
        && pass(z) by {
        assert(neighbors_shown(m.adj)(b.visited, x).contains(z) <==> nbrs.contains(z));
    }
    assert forall|i: int, j: int| 0 <= i < found.len() && 0 <= j < found.len() && i
        != j implies found[i] != found[j] by {
        if i < f.len() && j < f.len() {
            assert(f[i] != f[j]);
        } else if i >= f.len() && j >= f.len() {
            assert(g[i - f.len()] != g[j - f.len()]);
        } else if i < f.len() {
            assert(f.contains(f[i]) && g.contains(g[j - f.len()]));
            assert(direct.visited.contains(f[i]));
        } else {
            assert(f.contains(f[j]) && g.contains(g[i - f.len()]));
            assert(direct.visited.contains(f[j]));
        }
    }
    assert forall|z: usize| #[trigger] found.contains(z) <==> shown.contains(z)
        && !b.visited.contains(z) && pass(z) by {
        assert(direct.visited.contains(z) <==> b.visited.contains(z) || nbrs.contains(z));
        assert(shown.contains(z) <==> nbrs.contains(z) || beside(m.adj, mids, z));
    }
    assert forall|z: usize| #[trigger] shown.contains(z) implies z < m.adj.len() by {
        if nbrs.contains(z) {
            let j = choose|j: int| 0 <= j < nbrs.len() && nbrs[j] == z;
            assert(m.adj[x as int][j] < m.adj.len());
        } else {
            assert(beside(m.adj, mids, z));
            let y = choose|y: usize| #[trigger] mids.contains(y) && m.adj[y as int].contains(z);
            assert(unseen.contains(y));
            let i = choose|i: int| 0 <= i < nbrs.len() && nbrs[i] == y;
            assert(m.adj[x as int][i] < m.adj.len());
            let j = choose|j: int| 0 <= j < m.adj[y as int].len() && m.adj[y as int][j] == z;
            assert(m.adj[y as int][j] < m.adj.len());
        }
    }
    found
}

/// A filtered search with two-hop expansion is best-first among the nodes that pass: the nearest
/// such node seen is expanded again and again, the entry first, until none is left or the nearest
/// one does not stand up to the worst of the `ef` nearest ones seen, and these are returned. A node
/// shows its neighbours and those of its neighbours that fail and had not been seen.
pub proof fn law_two_hop_search_is_best_first(
    m: SearchModel,
    entry: ScoredItem,
    pass: spec_fn(usize) -> bool,
    lo: i64,
)
    requires
        closed(m.adj),
        entry.vector < m.adj.len(),
        entry == m.item(entry.vector),
        m.ef >= 1,
        m.ef >= m.k,
        steady(m.within, lo),
        scores_from(m.score, m.adj.len(), lo),
    ensures
        ends_with(
            two_hops_shown(m.adj, pass),
            m.score,
            m.within,
            m.ef,
            pass,
            entry.vector,
            m.outcome(m.two_hop_expansion(pass), start_filtered(entry, pass)),
        ),
{
    let shows = two_hops_shown(m.adj, pass);
    let n = m.adj.len();
    let expand = m.two_hop_expansion(pass);
    let b0 = start_filtered(entry, pass);
    let inv = |b: Beam|
        sound(m, entry, pass, b) && exists|expanded: Seq<usize>, best: Seq<Seq<ScoredItem>>|
            #[trigger] running(m, shows, pass, entry.vector, b, expanded, best);
    lemma_start_sound(m, entry, pass, pass);
    lemma_start_running(m, shows, pass, entry);
    assert(inv(b0));
    assert forall|b: Beam| #[trigger] inv(b) && !m.done(b) implies inv(m.step(expand, b)) && 0
        <= work_left(m.step(expand, b), n) < work_left(b, n) by {
        lemma_two_hop_step_sound(m, entry, pass, b);
        let (expanded, best) = choose|expanded: Seq<usize>, best: Seq<Seq<ScoredItem>>|
            #[trigger] running(m, shows, pass, entry.vector, b, expanded, best);
        let base = Beam { frontier: b.frontier.drop_first(), ..b };
        let x = b.frontier[0].vector;
        assert(can_expand(b.visited, pass, entry.vector, expanded, x));
        let found = lemma_two_hop_expands(m, pass, b, base);
        lemma_step_running(
            m,
            shows,
            pass,
            entry.vector,
            b,
            m.step(expand, b),
            found,
            expanded,
            best,
            lo,
        );
    }
    let end = lemma_ends(m, expand, inv, b0, 0);
    let b = m.after(expand, b0, end);
    let (expanded, best) = choose|expanded: Seq<usize>, best: Seq<Seq<ScoredItem>>|
        #[trigger] running(m, shows, pass, entry.vector, b, expanded, best);
    lemma_done_running(m, shows, pass, entry.vector, b, expanded, best, lo);
}

/// On a graph whose nodes go by dataset ids, a search goes best-first by the distances of the
/// vectors that the nodes stand for.
pub proof fn law_graph_searches_are_best_first(
    g: GraphModel,
    distance: spec_fn(usize) -> i64,
    within: spec_fn(i64, i64) -> bool,
    ef: usize,
    k: usize,
    entry: ScoredItem,
    pass: spec_fn(usize) -> bool,
)
    requires
        closed(g.adj),
        entry.vector < g.adj.len(),
        entry.distance == distance(g.external(entry.vector)),
        ef >= 1,
        ef >= k,
        well_behaved(|id: usize| distance(g.external(id)), within, g.adj.len()),
    ensures
        ({
            let m = g.search_by(distance, within, ef, k);
            let score = |id: usize| distance(g.external(id));
            &&& ends_with(
                neighbors_shown(g.adj),
                score,
                within,
                ef as nat,
                everything(),
                entry.vector,
                m.outcome(m.expansion(), start(entry)),
            )
            &&& ends_with(
                neighbors_shown(g.adj),
                score,
                within,
                ef as nat,
                pass,
                entry.vector,
                m.outcome(m.passing_expansion(pass), start_filtered(entry, pass)),
            )
            &&& ends_with(
                two_hops_shown(g.adj, pass),
                score,
                within,
                ef as nat,
                pass,
                entry.vector,
                m.outcome(m.two_hop_expansion(pass), start_filtered(entry, pass)),
            )
        }),
{
    let m = g.search_by(distance, within, ef, k);
    let score = |id: usize| distance(g.external(id));
    assert(m.score =~= score);
    assert(m.within =~= within);
    let lo = choose|lo: i64| #[trigger]
        steady(within, lo) && scores_from(score, g.adj.len(), lo);
    law_search_is_best_first(m, entry, lo);
    law_skipping_search_is_best_first(m, entry, pass, lo);
    law_two_hop_search_is_best_first(m, entry, pass, lo);
}

} // verus!
