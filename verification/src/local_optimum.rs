//! Where a search ends, nothing near its results was missed.
use crate::beam::{
    beam_ok, closed, fresh, lemma_fresh, lemma_offer_all_ok, lemma_scan_ok, start, start_filtered,
    Beam, SearchModel,
};
use crate::best_first::{
    among, best_first, can_expand, law_search_is_best_first, law_skipping_search_is_best_first,
    law_two_hop_search_is_best_first, lemma_seen_grows, nearer, neighbors_shown, passing_of,
    reached_through, scores_from, seen_after, steady, two_hops_shown,
};
use crate::graph::{lemma_offer_all_visited, lemma_pop_ok};
use crate::scored::{lemma_place, place, ScoredItem};
use crate::soundness::{everything, lemma_search_ends, lemma_start_sound, lemma_step_sound, sound};
use vstd::prelude::*;

verus! {

/// Node `y` is one of `results`, or there is no room for it and all of them are nearer.
pub open spec fn not_missed(
    score: spec_fn(usize) -> i64,
    size: nat,
    results: Seq<ScoredItem>,
    y: usize,
) -> bool {
    among(results, y) || (results.len() == size && forall|i: int|
        0 <= i < results.len() ==> nearer(score, (#[trigger] results[i]).vector, y))
}

/// Every node that a search ends with was expanded.
proof fn lemma_results_expanded(
    shows: spec_fn(Set<usize>, usize) -> Set<usize>,
    score: spec_fn(usize) -> i64,
    within: spec_fn(i64, i64) -> bool,
    size: nat,
    pass: spec_fn(usize) -> bool,
    entry: usize,
    expanded: Seq<usize>,
    best: Seq<Seq<ScoredItem>>,
    lo: i64,
    x: usize,
) -> (at: int)
    requires
        best_first(shows, score, within, size, pass, entry, expanded, best),
        size >= 1,
        steady(within, lo),
        forall|id: usize| #[trigger]
            seen_after(shows, entry, expanded).contains(id) ==> score(id) >= lo,
        among(best.last(), x),
    ensures
        0 <= at < expanded.len(),
        expanded[at] == x,
{
    let seen = seen_after(shows, entry, expanded);
    let top = best.last();
    assert(best[expanded.len() as int] == top);
    assert(expanded.take(expanded.len() as int) =~= expanded);
    let i = choose|i: int| 0 <= i < top.len() && (#[trigger] top[i]).vector == x;
    let last = top[top.len() - 1];
    assert(passing_of(seen, pass).contains(top[i].vector));
    assert(passing_of(seen, pass).contains(last.vector));
    assert(seen.contains(x));
    if i < top.len() - 1 {
        assert(nearer(score, top[i].vector, last.vector));
    }
    assert(within(score(x), last.distance));
    if !expanded.contains(x) {
        assert(can_expand(seen, pass, entry, expanded, x));
    }
    choose|at: int| 0 <= at < expanded.len() && expanded[at] == x
}

/// What an expansion shows is seen in the end.
proof fn lemma_shown_is_seen(
    shows: spec_fn(Set<usize>, usize) -> Set<usize>,
    entry: usize,
    expanded: Seq<usize>,
    at: int,
    y: usize,
)
    requires
        0 <= at < expanded.len(),
        shows(seen_after(shows, entry, expanded.take(at)), expanded[at]).contains(y),
    ensures
        seen_after(shows, entry, expanded).contains(y),
{
    lemma_seen_grows(shows, entry, expanded, at + 1);
    assert(expanded.take(at + 1).drop_last() =~= expanded.take(at));
    assert(expanded.take(at + 1).last() == expanded[at]);
}

/// A passing node that was seen is not missed.
proof fn lemma_seen_not_missed(
    shows: spec_fn(Set<usize>, usize) -> Set<usize>,
    score: spec_fn(usize) -> i64,
    within: spec_fn(i64, i64) -> bool,
    size: nat,
    pass: spec_fn(usize) -> bool,
    entry: usize,
    expanded: Seq<usize>,
    best: Seq<Seq<ScoredItem>>,
    y: usize,
)
    requires
        best_first(shows, score, within, size, pass, entry, expanded, best),
        seen_after(shows, entry, expanded).contains(y),
        pass(y),
    ensures
        not_missed(score, size, best.last(), y),
{
    assert(best[expanded.len() as int] == best.last());
    assert(expanded.take(expanded.len() as int) =~= expanded);
    assert(passing_of(seen_after(shows, entry, expanded), pass).contains(y));
}

/// Expanding one of `n` nodes shows only such nodes.
spec fn shows_inside(shows: spec_fn(Set<usize>, usize) -> Set<usize>, n: nat) -> bool {
    forall|seen: Set<usize>, x: usize, z: usize|
        x < n && #[trigger] shows(seen, x).contains(z) ==> z < n
}

proof fn lemma_shows_inside(adj: Seq<Seq<usize>>, pass: spec_fn(usize) -> bool)
    requires
        closed(adj),
    ensures
        shows_inside(neighbors_shown(adj), adj.len()),
        shows_inside(two_hops_shown(adj, pass), adj.len()),
{
    assert forall|x: usize, y: usize|
        x < adj.len() && #[trigger] adj[x as int].contains(y) implies y < adj.len() by {
        let j = choose|j: int| 0 <= j < adj[x as int].len() && adj[x as int][j] == y;
        assert(adj[x as int][j] < adj.len());
    }
    assert forall|seen: Set<usize>, x: usize, z: usize|
        x < adj.len() && #[trigger] neighbors_shown(adj)(seen, x).contains(z) implies z
        < adj.len() by {
        assert(adj[x as int].contains(z));
    }
    assert forall|seen: Set<usize>, x: usize, z: usize|
        x < adj.len() && #[trigger] two_hops_shown(adj, pass)(seen, x).contains(z) implies z
        < adj.len() by {
        if !adj[x as int].contains(z) {
            let y = choose|y: usize| #[trigger]
                reached_through(adj, pass, seen, x, y) && adj[y as int].contains(z);
            assert(adj[x as int].contains(y));
            assert(adj[y as int].contains(z));
        }
    }
}

/// All nodes that are seen are nodes of the graph.
proof fn lemma_seen_inside(
    shows: spec_fn(Set<usize>, usize) -> Set<usize>,
    n: nat,
    entry: usize,
    expanded: Seq<usize>,
)
    requires
        shows_inside(shows, n),
        entry < n,
        forall|i: int| 0 <= i < expanded.len() ==> #[trigger] expanded[i] < n,
    ensures
        forall|id: usize| #[trigger] seen_after(shows, entry, expanded).contains(id) ==> id < n,
    decreases expanded.len(),
{
    if expanded.len() > 0 {
        let rest = expanded.drop_last();
        assert(forall|i: int| 0 <= i < rest.len() ==> rest[i] == expanded[i]);
        lemma_seen_inside(shows, n, entry, rest);
        let seen = seen_after(shows, entry, rest);
        let x = expanded[expanded.len() - 1];
        assert forall|id: usize| #[trigger]
            seen_after(shows, entry, expanded).contains(id) implies id < n by {
            if !seen.contains(id) {
                assert(shows(seen, x).contains(id));
            }
        }
    }
}

/// The node that is expanded at place `i` was seen before.
spec fn seen_at(
    shows: spec_fn(Set<usize>, usize) -> Set<usize>,
    entry: usize,
    expanded: Seq<usize>,
    i: int,
) -> bool {
    seen_after(shows, entry, expanded.take(i)).contains(expanded[i])
}

/// What is expanded was seen before.
spec fn seen_first(
    shows: spec_fn(Set<usize>, usize) -> Set<usize>,
    entry: usize,
    expanded: Seq<usize>,
) -> bool {
    forall|i: int| 0 <= i < expanded.len() ==> #[trigger] seen_at(shows, entry, expanded, i)
}

/// The nodes that are expanded are nodes of the graph.
proof fn lemma_expanded_inside(
    shows: spec_fn(Set<usize>, usize) -> Set<usize>,
    n: nat,
    entry: usize,
    expanded: Seq<usize>,
    upto: int,
)
    requires
        shows_inside(shows, n),
        entry < n,
        seen_first(shows, entry, expanded),
        0 <= upto <= expanded.len(),
    ensures
        forall|i: int| 0 <= i < upto ==> #[trigger] expanded[i] < n,
    decreases upto,
{
    if upto > 0 {
        lemma_expanded_inside(shows, n, entry, expanded, upto - 1);
        let prefix = expanded.take(upto - 1);
        assert(forall|i: int| 0 <= i < prefix.len() ==> prefix[i] == expanded[i]);
        lemma_seen_inside(shows, n, entry, prefix);
        assert(seen_at(shows, entry, expanded, upto - 1));
    }
}

/// What a search has seen has scores from `lo` on.
proof fn lemma_scores_seen(
    m: SearchModel,
    shows: spec_fn(Set<usize>, usize) -> Set<usize>,
    pass: spec_fn(usize) -> bool,
    entry: usize,
    expanded: Seq<usize>,
    best: Seq<Seq<ScoredItem>>,
    lo: i64,
)
    requires
        closed(m.adj),
        entry < m.adj.len(),
        shows == neighbors_shown(m.adj) || shows == two_hops_shown(m.adj, pass),
        best_first(shows, m.score, m.within, m.ef, pass, entry, expanded, best),
        scores_from(m.score, m.adj.len(), lo),
    ensures
        forall|id: usize| #[trigger]
            seen_after(shows, entry, expanded).contains(id) ==> (m.score)(id) >= lo,
        forall|i: int| 0 <= i < expanded.len() ==> #[trigger] expanded[i] < m.adj.len(),
{
    let n = m.adj.len();
    lemma_shows_inside(m.adj, pass);
    assert(seen_first(shows, entry, expanded)) by {
        assert forall|i: int| 0 <= i < expanded.len() implies #[trigger] seen_at(
            shows,
            entry,
            expanded,
            i,
        ) by {
            let x = expanded[i];
            assert(can_expand(
                seen_after(shows, entry, expanded.take(i)),
                pass,
                entry,
                expanded.take(i),
                x,
            ));
        }
    }
    lemma_expanded_inside(shows, n, entry, expanded, expanded.len() as int);
    lemma_seen_inside(shows, n, entry, expanded);
}

/// No neighbour of a result was missed: it is a result itself, or the beam is full of nearer nodes.
pub proof fn law_search_is_locally_optimal(
    m: SearchModel,
    entry: ScoredItem,
    lo: i64,
    x: usize,
    y: usize,
)
    requires
        closed(m.adj),
        entry.vector < m.adj.len(),
        entry == m.item(entry.vector),
        m.ef >= 1,
        m.ef >= m.k,
        steady(m.within, lo),
        scores_from(m.score, m.adj.len(), lo),
        among(m.outcome(m.expansion(), start(entry)), x),
        m.adj[x as int].contains(y),
    ensures
        not_missed(m.score, m.ef, m.outcome(m.expansion(), start(entry)), y),
{
    law_search_is_best_first(m, entry, lo);
    let pass = everything();
    let shows = neighbors_shown(m.adj);
    let (expanded, best) = choose|expanded: Seq<usize>, best: Seq<Seq<ScoredItem>>|
        {
            &&& #[trigger] best_first(
                shows,
                m.score,
                m.within,
                m.ef,
                pass,
                entry.vector,
                expanded,
                best,
            )
            &&& m.outcome(m.expansion(), start(entry)) == best.last()
        };
    lemma_scores_seen(m, shows, pass, entry.vector, expanded, best, lo);
    let at = lemma_results_expanded(
        shows,
        m.score,
        m.within,
        m.ef,
        pass,
        entry.vector,
        expanded,
        best,
        lo,
        x,
    );
    lemma_shown_is_seen(shows, entry.vector, expanded, at, y);
    lemma_seen_not_missed(
        shows,
        m.score,
        m.within,
        m.ef,
        pass,
        entry.vector,
        expanded,
        best,
        y,
    );
}

/// A filtered search that skips failing nodes misses no passing neighbour of a result.
pub proof fn law_skipping_search_is_locally_optimal(
    m: SearchModel,
    entry: ScoredItem,
    pass: spec_fn(usize) -> bool,
    lo: i64,
    x: usize,
    y: usize,
)
    requires
        closed(m.adj),
        entry.vector < m.adj.len(),
        entry == m.item(entry.vector),
        m.ef >= 1,
        m.ef >= m.k,
        steady(m.within, lo),
        scores_from(m.score, m.adj.len(), lo),
        among(m.outcome(m.passing_expansion(pass), start_filtered(entry, pass)), x),
        m.adj[x as int].contains(y),
        pass(y),
    ensures
        not_missed(
            m.score,
            m.ef,
            m.outcome(m.passing_expansion(pass), start_filtered(entry, pass)),
            y,
        ),
{
    law_skipping_search_is_best_first(m, entry, pass, lo);
    let shows = neighbors_shown(m.adj);
    let (expanded, best) = choose|expanded: Seq<usize>, best: Seq<Seq<ScoredItem>>|
        {
            &&& #[trigger] best_first(
                shows,
                m.score,
                m.within,
                m.ef,
                pass,
                entry.vector,
                expanded,
                best,
            )
            &&& m.outcome(m.passing_expansion(pass), start_filtered(entry, pass)) == best.last()
        };
    lemma_scores_seen(m, shows, pass, entry.vector, expanded, best, lo);
    let at = lemma_results_expanded(
        shows,
        m.score,
        m.within,
        m.ef,
        pass,
        entry.vector,
        expanded,
        best,
        lo,
        x,
    );
    lemma_shown_is_seen(shows, entry.vector, expanded, at, y);
    lemma_seen_not_missed(
        shows,
        m.score,
        m.within,
        m.ef,
        pass,
        entry.vector,
        expanded,
        best,
        y,
    );
}

/// When a node was first seen.
proof fn lemma_first_seen(
    shows: spec_fn(Set<usize>, usize) -> Set<usize>,
    entry: usize,
    expanded: Seq<usize>,
    y: usize,
) -> (at: int)
    requires
        seen_after(shows, entry, expanded).contains(y),
        y != entry,
    ensures
        0 <= at < expanded.len(),
        !seen_after(shows, entry, expanded.take(at)).contains(y),
        shows(seen_after(shows, entry, expanded.take(at)), expanded[at]).contains(y),
    decreases expanded.len(),
{
    let rest = expanded.drop_last();
    if seen_after(shows, entry, rest).contains(y) {
        let at = lemma_first_seen(shows, entry, rest, y);
        assert(rest.take(at) =~= expanded.take(at));
        at
    } else {
        assert(rest =~= expanded.take(expanded.len() - 1));
        expanded.len() - 1
    }
}

/// No other failing node links to `y`.
pub open spec fn met_directly(
    adj: Seq<Seq<usize>>,
    pass: spec_fn(usize) -> bool,
    y: usize,
) -> bool {
    forall|other: usize|
        other < adj.len() && other != y && #[trigger] adj[other as int].contains(y) ==> pass(other)
}

/// A filtered search with two-hop expansion misses no passing neighbour of a result. It does not
/// miss the passing neighbours of a failing neighbour of a result either, whether the beam is full
/// or not, unless that failing node may have been met behind another one.
pub proof fn law_two_hop_search_is_locally_optimal(
    m: SearchModel,
    entry: ScoredItem,
    pass: spec_fn(usize) -> bool,
    lo: i64,
    x: usize,
    y: usize,
)
    requires
        closed(m.adj),
        entry.vector < m.adj.len(),
        entry == m.item(entry.vector),
        m.ef >= 1,
        m.ef >= m.k,
        steady(m.within, lo),
        scores_from(m.score, m.adj.len(), lo),
        among(m.outcome(m.two_hop_expansion(pass), start_filtered(entry, pass)), x),
        m.adj[x as int].contains(y),
    ensures
        ({
            let results = m.outcome(m.two_hop_expansion(pass), start_filtered(entry, pass));
            &&& pass(y) ==> not_missed(m.score, m.ef, results, y)
            &&& !pass(y) && (y == entry.vector || met_directly(m.adj, pass, y)) ==> forall|z: usize|
                pass(z) && #[trigger] m.adj[y as int].contains(z) ==> not_missed(
                    m.score,
                    m.ef,
                    results,
                    z,
                )
        }),
{
    law_two_hop_search_is_best_first(m, entry, pass, lo);
    let shows = two_hops_shown(m.adj, pass);
    let results = m.outcome(m.two_hop_expansion(pass), start_filtered(entry, pass));
    let (expanded, best) = choose|expanded: Seq<usize>, best: Seq<Seq<ScoredItem>>|
        {
            &&& #[trigger] best_first(
                shows,
                m.score,
                m.within,
                m.ef,
                pass,
                entry.vector,
                expanded,
                best,
            )
            &&& results == best.last()
        };
    lemma_scores_seen(m, shows, pass, entry.vector, expanded, best, lo);
    let at = lemma_results_expanded(
        shows,
        m.score,
        m.within,
        m.ef,
        pass,
        entry.vector,
        expanded,
        best,
        lo,
        x,
    );
    lemma_shown_is_seen(shows, entry.vector, expanded, at, y);
    if pass(y) {
        lemma_seen_not_missed(
            shows,
            m.score,
            m.within,
            m.ef,
            pass,
            entry.vector,
            expanded,
            best,
            y,
        );
    } else if y == entry.vector || met_directly(m.adj, pass, y) {
        assert forall|z: usize| pass(z) && #[trigger] m.adj[y as int].contains(z) implies not_missed(
            m.score,
            m.ef,
            results,
            z,
        ) by {
            if y == entry.vector {
                assert(expanded.take(0) =~= Seq::<usize>::empty());
                let first = expanded[0];
                assert(can_expand(
                    seen_after(shows, entry.vector, expanded.take(0)),
                    pass,
                    entry.vector,
                    expanded.take(0),
                    first,
                ));
                assert(first == y);
                lemma_shown_is_seen(shows, entry.vector, expanded, 0, z);
            } else {
                let when = lemma_first_seen(shows, entry.vector, expanded, y);
                let seen = seen_after(shows, entry.vector, expanded.take(when));
                let from = expanded[when];
                if !m.adj[from as int].contains(y) {
                    let other = choose|other: usize| #[trigger]
                        reached_through(m.adj, pass, seen, from, other)
                            && m.adj[other as int].contains(y);
                    let j = choose|j: int|
                        0 <= j < m.adj[from as int].len() && m.adj[from as int][j] == other;
                    assert(m.adj[from as int][j] < m.adj.len());
                    assert(other != y);
                }
                assert(reached_through(m.adj, pass, seen, from, y));
                lemma_shown_is_seen(shows, entry.vector, expanded, when, z);
            }
            lemma_seen_not_missed(
                shows,
                m.score,
                m.within,
                m.ef,
                pass,
                entry.vector,
                expanded,
                best,
                z,
            );
        }
    }
}

/// What joins the best items joins the frontier, and nothing that is offered makes the frontier lose
/// an item.
proof fn lemma_offers_reach_frontier(m: SearchModel, b: Beam, found: Seq<usize>, n: nat)
    requires
        beam_ok(b, n),
        forall|i: int| 0 <= i < found.len() ==> #[trigger] found[i] < n,
    ensures
        ({
            let c = m.offer_all(b, found);
            &&& forall|x: ScoredItem| #[trigger]
                c.top.contains(x) ==> b.top.contains(x) || c.frontier.contains(x)
            &&& forall|x: ScoredItem| #[trigger] b.frontier.contains(x) ==> c.frontier.contains(x)
        }),
    decreases found.len(),
{
    if found.len() > 0 {
        let rest = found.drop_last();
        assert(forall|i: int| 0 <= i < rest.len() ==> rest[i] == found[i]);
        lemma_offers_reach_frontier(m, b, rest, n);
        lemma_offer_all_ok(m, b, rest, n);
        let prev = m.offer_all(b, rest);
        let x0 = m.item(found.last());
        let c = m.offer_all(b, found);
        lemma_place(prev.top, x0);
        lemma_place(prev.frontier, x0);
        let grown = if m.admits(prev.top, x0) {
            place(prev.top, x0)
        } else {
            prev.top
        };
        assert forall|x: ScoredItem| #[trigger] c.top.contains(x) implies b.top.contains(x)
            || c.frontier.contains(x) by {
            let i = choose|i: int| 0 <= i < c.top.len() && c.top[i] == x;
            assert(grown[i] == x);
            assert(grown.contains(x));
            if prev.top.contains(x) {
                if !b.top.contains(x) {
                    assert(prev.frontier.contains(x));
                }
            }
        }
    }
}

/// Node `x` is still to be expanded, or all its neighbours were seen.
spec fn pending_or_expanded(m: SearchModel, b: Beam, x: ScoredItem) -> bool {
    b.frontier.contains(x) || forall|j: int|
        0 <= j < m.adj[x.vector as int].len() ==> b.visited.contains(
            #[trigger] m.adj[x.vector as int][j],
        )
}

proof fn lemma_top_is_expanded(m: SearchModel, entry: ScoredItem, steps: nat)
    requires
        closed(m.adj),
        entry.vector < m.adj.len(),
        forall|i: nat|
            i < steps ==> !m.done(#[trigger] m.after(m.expansion(), start(entry), i)),
    ensures
        sound(m, entry, everything(), m.after(m.expansion(), start(entry), steps)),
        forall|i: nat, x: ScoredItem|
            i <= steps && #[trigger] m.after(m.expansion(), start(entry), i).top.contains(x)
                ==> pending_or_expanded(m, m.after(m.expansion(), start(entry), steps), x),
    decreases steps,
{
    let b0 = start(entry);
    let expand = m.expansion();
    if steps == 0 {
        lemma_start_sound(m, entry, everything(), everything());
        assert(start_filtered(entry, everything()) == b0);
        assert forall|i: nat, x: ScoredItem|
            i <= steps && #[trigger] m.after(expand, b0, i).top.contains(
                x,
            ) implies pending_or_expanded(m, m.after(expand, b0, steps), x) by {
            assert(b0.top[0] == entry && b0.frontier[0] == entry);
            assert(x == entry);
            assert(b0.frontier.contains(entry));
        }
    } else {
        let before = (steps - 1) as nat;
        lemma_top_is_expanded(m, entry, before);
        let prev = m.after(expand, b0, before);
        let next = m.after(expand, b0, steps);
        let n = m.adj.len();
        assert(!m.done(prev));
        lemma_step_sound(m, entry, prev);
        let first = prev.frontier[0];
        assert(prev.frontier.contains(first));
        let node = first.vector;
        let nbrs = m.adj[node as int];
        let base = Beam { frontier: prev.frontier.drop_first(), ..prev };
        let seen = m.see(base, nbrs);
        let found = fresh(nbrs, base.visited);
        assert forall|j: int| 0 <= j < nbrs.len() implies #[trigger] nbrs[j] < n by {
            assert(m.adj[node as int][j] < n);
        }
        lemma_pop_ok(prev, n);
        lemma_scan_ok(m, base, nbrs, everything(), n);
        lemma_fresh(nbrs, base.visited);
        lemma_offers_reach_frontier(m, seen, found, n);
        lemma_offer_all_visited(m, seen, found);
        assert(next == m.offer_all(seen, found));
        assert forall|i: nat, x: ScoredItem|
            i <= steps && #[trigger] m.after(expand, b0, i).top.contains(
                x,
            ) implies pending_or_expanded(m, next, x) by {
            if i <= before || prev.top.contains(x) {
                assert(m.after(expand, b0, before).top.contains(x) || i <= before);
                assert(pending_or_expanded(m, prev, x));
                if prev.frontier.contains(x) {
                    let l = choose|l: int| 0 <= l < prev.frontier.len() && prev.frontier[l] == x;
                    if l == 0 {
                        assert forall|j: int| 0 <= j < nbrs.len() implies next.visited.contains(
                            #[trigger] m.adj[x.vector as int][j],
                        ) by {
                            assert(nbrs.contains(nbrs[j]));
                        }
                    } else {
                        assert(base.frontier[l - 1] == x);
                        assert(seen.frontier.contains(x));
                    }
                } else {
                    let list = m.adj[x.vector as int];
                    assert forall|j: int| 0 <= j < list.len() implies next.visited.contains(
                        #[trigger] m.adj[x.vector as int][j],
                    ) by {
                        assert(prev.visited.contains(m.adj[x.vector as int][j]));
                    }
                }
            } else {
                assert(next.top.contains(x));
                assert(next.frontier.contains(x));
            }
        }
    }
}

/// A search for more results than its beam holds never stops early: every node that was ever among
/// the best ones is expanded, even if better ones took its place.
pub proof fn law_search_for_more_than_the_beam_holds(m: SearchModel, entry: ScoredItem) -> (end: nat)
    requires
        closed(m.adj),
        entry.vector < m.adj.len(),
        m.ef >= 1,
        m.k > m.ef,
    ensures
        m.outcome(m.expansion(), start(entry)) == m.after(m.expansion(), start(entry), end).top,
        forall|i: nat, x: ScoredItem, j: int|
            i <= end && #[trigger] m.after(m.expansion(), start(entry), i).top.contains(x) && 0 <= j
                < m.adj[x.vector as int].len() ==> m.after(
                m.expansion(),
                start(entry),
                end,
            ).visited.contains(#[trigger] m.adj[x.vector as int][j]),
{
    let end = lemma_search_ends(m, entry);
    let expand = m.expansion();
    let b0 = start(entry);
    let b = m.after(expand, b0, end);
    lemma_top_is_expanded(m, entry, end);
    assert(b.frontier.len() == 0);
    assert forall|i: nat, x: ScoredItem, j: int|
        i <= end && #[trigger] m.after(expand, b0, i).top.contains(x) && 0 <= j
            < m.adj[x.vector as int].len() implies b.visited.contains(
        #[trigger] m.adj[x.vector as int][j],
    ) by {
        assert(pending_or_expanded(m, b, x));
    }
    end
}

} // verus!
