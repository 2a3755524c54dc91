//! A filtered search finds all that passing nodes alone lead to, if its beam has room for it.
use crate::beam::{
    beam_ok, closed, fresh, lemma_fresh, lemma_offer_admitted_ok, lemma_offer_all_ok,
    lemma_scan_around_ok, lemma_scan_ok, start_filtered, work_left, Beam, SearchModel,
};
use crate::exhaustive::{holds, lemma_offer_all_fills, lemma_offer_all_joins};
use crate::graph::lemma_pop_ok;
use crate::locality::lemma_offer_admitted_visited;
use crate::scored::{ids, lemma_place, lemma_rank_bounds, place, ScoredItem};
use crate::soundness::{
    is_path, law_skipping_search_is_sound, law_two_hop_search_is_sound, lemma_ends,
    lemma_filter_facts, lemma_skipping_step_sound, lemma_start_sound, lemma_two_hop_step_sound,
    results_sound, sound,
};
use vstd::prelude::*;

verus! {

/// Each node of `path` is a neighbour of the one before it, and all but the first one pass.
pub open spec fn is_passing_path(
    adj: Seq<Seq<usize>>,
    pass: spec_fn(usize) -> bool,
    path: Seq<usize>,
) -> bool {
    &&& is_path(adj, path)
    &&& forall|i: int| 1 <= i < path.len() ==> pass(#[trigger] path[i])
}

/// Passing nodes alone lead from `a` to `b`, which passes too.
pub open spec fn reachable_passing(
    adj: Seq<Seq<usize>>,
    pass: spec_fn(usize) -> bool,
    a: usize,
    b: usize,
) -> bool {
    &&& pass(b)
    &&& exists|path: Seq<usize>| #[trigger]
        is_passing_path(adj, pass, path) && path[0] == a && path.last() == b
}

/// The nodes of a graph of `n` nodes that pass.
pub open spec fn passing_nodes(n: nat, pass: spec_fn(usize) -> bool) -> Set<usize> {
    Set::new(|id: usize| id < n && pass(id))
}

/// Every passing node that was seen is a result, and the neighbours of the entry and of every
/// passing node that was seen were seen too unless it is still to be expanded.
spec fn complete(
    m: SearchModel,
    entry: ScoredItem,
    pass: spec_fn(usize) -> bool,
    b: Beam,
) -> bool {
    &&& forall|id: usize| #[trigger] b.visited.contains(id) && pass(id) ==> holds(b.top, id)
    &&& forall|id: usize, j: int|
        b.visited.contains(id) && (pass(id) || id == entry.vector) && !holds(b.frontier, id) && 0
            <= j < m.adj[id as int].len() ==> b.visited.contains(#[trigger] m.adj[id as int][j])
}

/// Offering nodes makes a beam larger until it is full.
proof fn lemma_offers_fill(m: SearchModel, b: Beam, found: Seq<usize>)
    requires
        b.top.len() <= m.ef,
    ensures
        m.offer_admitted(b, found).top.len() == (if b.top.len() + found.len() <= m.ef {
            b.top.len() + found.len()
        } else {
            m.ef
        }),
    decreases found.len(),
{
    if found.len() > 0 {
        lemma_offers_fill(m, b, found.drop_last());
        lemma_rank_bounds(m.offer_admitted(b, found.drop_last()).top, m.item(found.last()));
    }
}

/// While there is room, every node that is offered joins.
proof fn lemma_offers_join(m: SearchModel, b: Beam, found: Seq<usize>, n: nat)
    requires
        beam_ok(b, n),
        forall|i: int| 0 <= i < found.len() ==> #[trigger] found[i] < n,
        b.top.len() + found.len() <= m.ef,
    ensures
        ({
            let after = m.offer_admitted(b, found);
            &&& forall|id: usize| #[trigger] holds(b.top, id) ==> holds(after.top, id)
            &&& forall|id: usize| #[trigger] holds(b.frontier, id) ==> holds(after.frontier, id)
            &&& forall|i: int|
                0 <= i < found.len() ==> holds(after.top, #[trigger] found[i]) && holds(
                    after.frontier,
                    found[i],
                )
        }),
    decreases found.len(),
{
    if found.len() > 0 {
        let rest = found.drop_last();
        let x = m.item(found.last());
        assert(forall|i: int| 0 <= i < rest.len() ==> rest[i] == found[i]);
        lemma_offers_join(m, b, rest, n);
        lemma_offers_fill(m, b, rest);
        lemma_offer_admitted_ok(m, b, rest, n);
        let prev = m.offer_admitted(b, rest);
        let after = m.offer_admitted(b, found);
        lemma_place(prev.top, x);
        lemma_place(prev.frontier, x);
        assert(after.top == place(prev.top, x));
        assert(after.frontier == place(prev.frontier, x));
        assert forall|id: usize| holds(prev.top, id) implies #[trigger] holds(after.top, id) by {
            let y = choose|y: ScoredItem| #[trigger] prev.top.contains(y) && y.vector == id;
            assert(after.top.contains(y));
        }
        assert forall|id: usize| holds(prev.frontier, id) implies #[trigger] holds(
            after.frontier,
            id,
        ) by {
            let y = choose|y: ScoredItem| #[trigger] prev.frontier.contains(y) && y.vector == id;
            assert(after.frontier.contains(y));
        }
        assert(after.top.contains(x) && after.frontier.contains(x));
        assert forall|i: int| 0 <= i < found.len() implies holds(after.top, #[trigger] found[i])
            && holds(after.frontier, found[i]) by {
            if i < rest.len() {
                assert(holds(prev.top, rest[i]));
            }
        }
    }
}

proof fn lemma_step_complete(
    m: SearchModel,
    entry: ScoredItem,
    pass: spec_fn(usize) -> bool,
    b: Beam,
)
    requires
        closed(m.adj),
        m.ef >= 1,
        sound(m, entry, pass, b),
        b.visited.contains(entry.vector),
        b.top.len() < m.ef ==> complete(m, entry, pass, b),
        b.frontier.len() > 0,
        m.step(m.passing_expansion(pass), b).top.len() < m.ef,
    ensures
        complete(m, entry, pass, m.step(m.passing_expansion(pass), b)),
{
    let n = m.adj.len();
    let node = b.frontier[0].vector;
    assert(b.frontier.contains(b.frontier[0]));
    let nbrs = m.adj[node as int];
    let rest = b.frontier.drop_first();
    let base = Beam { frontier: rest, ..b };
    let seen = m.see(base, nbrs);
    let unseen = fresh(nbrs, b.visited);
    let found = unseen.filter(pass);
    let after = m.step(m.passing_expansion(pass), b);
    assert(after == m.offer_admitted(seen, found));
    lemma_fresh(nbrs, b.visited);
    lemma_filter_facts(unseen, pass);
    assert forall|i: int| 0 <= i < found.len() implies #[trigger] found[i] < n by {
        assert(unseen.contains(found[i]));
        let j = choose|j: int| 0 <= j < nbrs.len() && nbrs[j] == found[i];
        assert(m.adj[node as int][j] < n);
    }
    assert forall|id: usize| #[trigger] seen.visited.contains(id) implies id < n by {
        if !b.visited.contains(id) {
            let j = choose|j: int| 0 <= j < nbrs.len() && nbrs[j] == id;
            assert(m.adj[node as int][j] < n);
        }
    }
    lemma_pop_ok(b, n);
    assert(beam_ok(seen, n));
    lemma_offers_fill(m, seen, found);
    lemma_offers_join(m, seen, found, n);
    lemma_offer_admitted_ok(m, seen, found, n);
    assert forall|id: usize| after.visited.contains(id) && !b.visited.contains(id) && pass(
        id,
    ) implies #[trigger] holds(after.top, id) && holds(after.frontier, id) by {
        assert(unseen.contains(id));
        let u = choose|u: int| 0 <= u < unseen.len() && unseen[u] == id;
        unseen.lemma_filter_contains(pass, u);
        let i = choose|i: int| 0 <= i < found.len() && found[i] == id;
        assert(holds(after.top, found[i]));
    }
    assert forall|id: usize| #[trigger] after.visited.contains(id) && pass(id) implies holds(
        after.top,
        id,
    ) by {
        if b.visited.contains(id) {
            assert(holds(seen.top, id));
        }
    }
    assert forall|id: usize, j: int|
        after.visited.contains(id) && (pass(id) || id == entry.vector) && !holds(
            after.frontier,
            id,
        ) && 0 <= j < m.adj[id as int].len() implies after.visited.contains(
        #[trigger] m.adj[id as int][j],
    ) by {
        if id == node {
            assert(nbrs.contains(nbrs[j]));
        } else if b.visited.contains(id) {
            if holds(b.frontier, id) {
                let y = choose|y: ScoredItem| #[trigger] b.frontier.contains(y) && y.vector == id;
                let l = choose|l: int| 0 <= l < b.frontier.len() && b.frontier[l] == y;
                assert(rest[l - 1] == y);
                assert(rest.contains(y));
                assert(holds(seen.frontier, id));
            }
            assert(b.visited.contains(m.adj[id as int][j]));
        } else {
            assert(holds(after.top, id));
        }
    }
}

proof fn lemma_path_seen(
    m: SearchModel,
    entry: ScoredItem,
    pass: spec_fn(usize) -> bool,
    b: Beam,
    path: Seq<usize>,
)
    requires
        is_passing_path(m.adj, pass, path),
        path[0] == entry.vector,
        b.visited.contains(entry.vector),
        b.frontier.len() == 0,
        complete(m, entry, pass, b),
    ensures
        b.visited.contains(path.last()),
    decreases path.len(),
{
    if path.len() > 1 {
        let shorter = path.drop_last();
        assert(is_path(m.adj, shorter)) by {
            assert forall|i: int| 0 <= i < shorter.len() - 1 implies (
            #[trigger] m.adj[shorter[i] as int]).contains(shorter[i + 1]) by {
                assert(m.adj[path[i] as int].contains(path[i + 1]));
            }
        }
        assert(is_passing_path(m.adj, pass, shorter));
        lemma_path_seen(m, entry, pass, b, shorter);
        let from = path[path.len() - 2];
        assert(m.adj[from as int].contains(path[path.len() - 2 + 1]));
        let j = choose|j: int|
            0 <= j < m.adj[from as int].len() && m.adj[from as int][j] == path.last();
        assert(!holds(b.frontier, from));
        assert(b.visited.contains(m.adj[from as int][j]));
    }
}

/// If a search that skips failing nodes returns fewer results than its beam holds, it returns
/// every node that passing nodes alone lead to from the entry.
pub proof fn law_unfilled_skipping_search_found_everything(
    m: SearchModel,
    entry: ScoredItem,
    pass: spec_fn(usize) -> bool,
    id: usize,
)
    requires
        closed(m.adj),
        entry.vector < m.adj.len(),
        m.outcome(m.passing_expansion(pass), start_filtered(entry, pass)).len() < m.ef,
        reachable_passing(m.adj, pass, entry.vector, id),
    ensures
        holds(m.outcome(m.passing_expansion(pass), start_filtered(entry, pass)), id),
{
    let n = m.adj.len();
    let expand = m.passing_expansion(pass);
    let b0 = start_filtered(entry, pass);
    let inv = |b: Beam|
        {
            &&& sound(m, entry, pass, b)
            &&& b.visited.contains(entry.vector)
            &&& b.top.len() < m.ef ==> complete(m, entry, pass, b)
        };
    assert(inv(b0)) by {
        lemma_start_sound(m, entry, pass, pass);
        assert(b0.frontier[0] == entry);
        assert(b0.frontier.contains(entry));
        assert(holds(b0.frontier, entry.vector));
        if pass(entry.vector) {
            assert(b0.top[0] == entry);
            assert(b0.top.contains(entry));
            assert(holds(b0.top, entry.vector));
        }
    }
    assert forall|b: Beam| #[trigger] inv(b) && !m.done(b) implies inv(m.step(expand, b)) && 0
        <= work_left(m.step(expand, b), n) < work_left(b, n) by {
        lemma_skipping_step_sound(m, entry, pass, b);
        lemma_step_sees_more(m, entry, pass, b);
        if m.step(expand, b).top.len() < m.ef {
            lemma_step_complete(m, entry, pass, b);
        }
    }
    let end = lemma_ends(m, expand, inv, b0, 0);
    let b = m.after(expand, b0, end);
    assert(b.frontier.len() == 0);
    let path = choose|path: Seq<usize>| #[trigger]
        is_passing_path(m.adj, pass, path) && path[0] == entry.vector && path.last() == id;
    lemma_path_seen(m, entry, pass, b, path);
}

/// What was seen stays seen.
proof fn lemma_step_sees_more(
    m: SearchModel,
    entry: ScoredItem,
    pass: spec_fn(usize) -> bool,
    b: Beam,
)
    requires
        closed(m.adj),
        sound(m, entry, pass, b),
        b.frontier.len() > 0,
    ensures
        forall|id: usize| #[trigger]
            b.visited.contains(id) ==> m.step(m.passing_expansion(pass), b).visited.contains(id),
{
    let base = Beam { frontier: b.frontier.drop_first(), ..b };
    let nbrs = m.adj[b.frontier[0].vector as int];
    lemma_offer_admitted_visited(m, m.see(base, nbrs), fresh(nbrs, b.visited).filter(pass));
}

proof fn lemma_passing_nodes_finite(n: nat, pass: spec_fn(usize) -> bool)
    ensures
        passing_nodes(n, pass).finite(),
{
    let size: nat = if n <= usize::MAX {
        n
    } else {
        (usize::MAX + 1) as nat
    };
    let all = Seq::new(size, |i: int| i as usize);
    vstd::seq_lib::seq_to_set_is_finite(all);
    assert forall|id: usize| #[trigger] passing_nodes(n, pass).contains(
        id,
    ) implies all.to_set().contains(id) by {
        assert(all[id as int] == id);
    }
    vstd::set_lib::lemma_set_subset_finite(all.to_set(), passing_nodes(n, pass));
}

/// Results as many as there are passing nodes hold every passing node.
proof fn lemma_all_passing_found(
    m: SearchModel,
    entry: ScoredItem,
    pass: spec_fn(usize) -> bool,
    results: Seq<ScoredItem>,
    id: usize,
)
    requires
        results_sound(m, entry, pass, results),
        results.len() >= passing_nodes(m.adj.len(), pass).len(),
        id < m.adj.len(),
        pass(id),
    ensures
        holds(results, id),
{
    let passing = passing_nodes(m.adj.len(), pass);
    let found = ids(results);
    lemma_passing_nodes_finite(m.adj.len(), pass);
    assert forall|i: int, j: int| 0 <= i < found.len() && 0 <= j < found.len() && i
        != j implies found[i] != found[j] by {
        if i < j {
            assert(results[i].vector != results[j].vector);
        } else {
            assert(results[j].vector != results[i].vector);
        }
    }
    found.unique_seq_to_set();
    assert forall|x: usize| #[trigger] found.to_set().contains(x) implies passing.contains(x) by {
        let i = choose|i: int| 0 <= i < found.len() && found[i] == x;
        assert(results[i].vector < m.adj.len());
    }
    if !found.contains(id) {
        assert(found.to_set().insert(id).subset_of(passing));
        vstd::set_lib::lemma_len_subset(found.to_set().insert(id), passing);
    }
    let i = choose|i: int| 0 <= i < found.len() && found[i] == id;
    assert(results.contains(results[i]));
}

/// A search that skips failing nodes and whose beam has room for every passing node returns every
/// node that passing nodes alone lead to from the entry.
pub proof fn law_wide_skipping_search_finds_everything(
    m: SearchModel,
    entry: ScoredItem,
    pass: spec_fn(usize) -> bool,
    id: usize,
)
    requires
        closed(m.adj),
        entry.vector < m.adj.len(),
        m.ef >= passing_nodes(m.adj.len(), pass).len(),
        reachable_passing(m.adj, pass, entry.vector, id),
        id < m.adj.len(),
    ensures
        holds(m.outcome(m.passing_expansion(pass), start_filtered(entry, pass)), id),
{
    let results = m.outcome(m.passing_expansion(pass), start_filtered(entry, pass));
    law_skipping_search_is_sound(m, entry, pass);
    if results.len() < m.ef {
        law_unfilled_skipping_search_found_everything(m, entry, pass, id);
    } else {
        lemma_all_passing_found(m, entry, pass, results, id);
    }
}

/// What `after` has over `b` when more nodes were seen and the passing ones offered: nothing that
/// was there is gone, and every passing node seen since is still to be expanded.
spec fn grows(pass: spec_fn(usize) -> bool, b: Beam, after: Beam) -> bool {
    &&& forall|id: usize| #[trigger] b.visited.contains(id) ==> after.visited.contains(id)
    &&& forall|id: usize| #[trigger] holds(b.top, id) ==> holds(after.top, id)
    &&& forall|id: usize| #[trigger] holds(b.frontier, id) ==> holds(after.frontier, id)
    &&& forall|id: usize| #[trigger]
        after.visited.contains(id) && !b.visited.contains(id) && pass(id) ==> holds(after.top, id)
            && holds(after.frontier, id)
}

proof fn lemma_scan_grows(
    m: SearchModel,
    pass: spec_fn(usize) -> bool,
    b: Beam,
    nbrs: Seq<usize>,
    n: nat,
)
    requires
        beam_ok(b, n),
        forall|i: int| 0 <= i < nbrs.len() ==> #[trigger] nbrs[i] < n,
        b.top.len() <= m.ef,
    ensures
        m.scan(b, nbrs, pass).top.len() <= m.ef,
        b.top.len() <= m.scan(b, nbrs, pass).top.len(),
        m.scan(b, nbrs, pass).top.len() < m.ef ==> grows(pass, b, m.scan(b, nbrs, pass)),
{
    let unseen = fresh(nbrs, b.visited);
    let found = unseen.filter(pass);
    let seen = m.see(b, nbrs);
    let after = m.scan(b, nbrs, pass);
    lemma_fresh(nbrs, b.visited);
    lemma_filter_facts(unseen, pass);
    lemma_scan_ok(m, b, nbrs, pass, n);
    assert forall|i: int| 0 <= i < found.len() implies #[trigger] found[i] < n by {
        assert(unseen.contains(found[i]));
        let j = choose|j: int| 0 <= j < unseen.len() && unseen[j] == found[i];
        assert(unseen[j] < n);
    }
    lemma_offer_all_fills(m, seen, found);
    if after.top.len() < m.ef {
        lemma_offer_all_joins(m, seen, found, n);
        lemma_offer_all_ok(m, seen, found, n);
        assert forall|id: usize| #[trigger]
            after.visited.contains(id) && !b.visited.contains(id) && pass(id) implies holds(
            after.top,
            id,
        ) && holds(after.frontier, id) by {
            assert(unseen.contains(id));
            let u = choose|u: int| 0 <= u < unseen.len() && unseen[u] == id;
            unseen.lemma_filter_contains(pass, u);
            let i = choose|i: int| 0 <= i < found.len() && found[i] == id;
            assert(holds(after.top, found[i]));
        }
    }
}

proof fn lemma_scan_around_grows(
    m: SearchModel,
    pass: spec_fn(usize) -> bool,
    b: Beam,
    mids: Seq<usize>,
)
    requires
        closed(m.adj),
        beam_ok(b, m.adj.len()),
        forall|i: int| 0 <= i < mids.len() ==> #[trigger] mids[i] < m.adj.len(),
        b.top.len() <= m.ef,
    ensures
        m.scan_around(b, mids, pass).top.len() <= m.ef,
        b.top.len() <= m.scan_around(b, mids, pass).top.len(),
        m.scan_around(b, mids, pass).top.len() < m.ef ==> grows(
            pass,
            b,
            m.scan_around(b, mids, pass),
        ),
    decreases mids.len(),
{
    if mids.len() > 0 {
        let rest = mids.drop_last();
        let mid = mids[mids.len() - 1];
        let nbrs = m.adj[mid as int];
        assert(forall|i: int| 0 <= i < rest.len() ==> rest[i] == mids[i]);
        lemma_scan_around_grows(m, pass, b, rest);
        lemma_scan_around_ok(m, b, rest, pass);
        let prev = m.scan_around(b, rest, pass);
        assert forall|i: int| 0 <= i < nbrs.len() implies #[trigger] nbrs[i] < m.adj.len() by {
            assert(m.adj[mid as int][i] < m.adj.len());
        }
        lemma_scan_grows(m, pass, prev, nbrs, m.adj.len());
        let after = m.scan_around(b, mids, pass);
        if after.top.len() < m.ef {
            assert forall|id: usize| #[trigger]
                after.visited.contains(id) && !b.visited.contains(id) && pass(id) implies holds(
                after.top,
                id,
            ) && holds(after.frontier, id) by {
                if prev.visited.contains(id) {
                    assert(holds(prev.top, id) && holds(prev.frontier, id));
                }
            }
        }
    }
}

proof fn lemma_two_hop_step_complete(
    m: SearchModel,
    entry: ScoredItem,
    pass: spec_fn(usize) -> bool,
    b: Beam,
)
    requires
        closed(m.adj),
        m.ef >= 1,
        sound(m, entry, pass, b),
        b.visited.contains(entry.vector),
        b.top.len() < m.ef ==> complete(m, entry, pass, b),
        b.frontier.len() > 0,
        m.step(m.two_hop_expansion(pass), b).top.len() < m.ef,
    ensures
        complete(m, entry, pass, m.step(m.two_hop_expansion(pass), b)),
        m.step(m.two_hop_expansion(pass), b).visited.contains(entry.vector),
{
    let n = m.adj.len();
    let node = b.frontier[0].vector;
    assert(b.frontier.contains(b.frontier[0]));
    let nbrs = m.adj[node as int];
    let rest = b.frontier.drop_first();
    let base = Beam { frontier: rest, ..b };
    let fails = |id: usize| !pass(id);
    let unseen = fresh(nbrs, b.visited);
    let mids = unseen.filter(fails);
    let direct = m.scan(base, nbrs, pass);
    let after = m.step(m.two_hop_expansion(pass), b);
    assert(after == m.scan_around(direct, mids, pass));
    assert forall|i: int| 0 <= i < nbrs.len() implies #[trigger] nbrs[i] < n by {
        assert(m.adj[node as int][i] < n);
    }
    lemma_pop_ok(b, n);
    lemma_scan_ok(m, base, nbrs, pass, n);
    lemma_fresh(nbrs, b.visited);
    lemma_filter_facts(unseen, fails);
    assert forall|i: int| 0 <= i < mids.len() implies #[trigger] mids[i] < n by {
        assert(unseen.contains(mids[i]));
        let j = choose|j: int| 0 <= j < unseen.len() && unseen[j] == mids[i];
        assert(unseen[j] < n);
    }
    lemma_scan_grows(m, pass, base, nbrs, n);
    lemma_scan_around_grows(m, pass, direct, mids);
    assert forall|id: usize| #[trigger] after.visited.contains(id) && pass(id) implies holds(
        after.top,
        id,
    ) by {
        if b.visited.contains(id) {
            assert(holds(base.top, id));
            assert(holds(direct.top, id));
        } else if direct.visited.contains(id) {
            assert(holds(direct.top, id));
        }
    }
    assert forall|id: usize, j: int|
        after.visited.contains(id) && (pass(id) || id == entry.vector) && !holds(
            after.frontier,
            id,
        ) && 0 <= j < m.adj[id as int].len() implies after.visited.contains(
        #[trigger] m.adj[id as int][j],
    ) by {
        if id == node {
            assert(nbrs.contains(nbrs[j]));
            assert(direct.visited.contains(nbrs[j]));
        } else if b.visited.contains(id) {
            if holds(b.frontier, id) {
                let y = choose|y: ScoredItem| #[trigger] b.frontier.contains(y) && y.vector == id;
                let l = choose|l: int| 0 <= l < b.frontier.len() && b.frontier[l] == y;
                assert(rest[l - 1] == y);
                assert(rest.contains(y));
                assert(holds(base.frontier, id));
                assert(holds(direct.frontier, id));
            }
            assert(base.visited.contains(m.adj[id as int][j]));
            assert(direct.visited.contains(m.adj[id as int][j]));
        } else if direct.visited.contains(id) {
            assert(holds(direct.frontier, id));
        }
    }
    assert(base.visited.contains(entry.vector));
    assert(direct.visited.contains(entry.vector));
}

/// If a filtered search with two-hop expansion returns fewer results than its beam holds, it
/// returns every node that passing nodes alone lead to from the entry.
pub proof fn law_unfilled_two_hop_search_found_everything(
    m: SearchModel,
    entry: ScoredItem,
    pass: spec_fn(usize) -> bool,
    id: usize,
)
    requires
        closed(m.adj),
        entry.vector < m.adj.len(),
        m.outcome(m.two_hop_expansion(pass), start_filtered(entry, pass)).len() < m.ef,
        reachable_passing(m.adj, pass, entry.vector, id),
    ensures
        holds(m.outcome(m.two_hop_expansion(pass), start_filtered(entry, pass)), id),
{
    let n = m.adj.len();
    let expand = m.two_hop_expansion(pass);
    let b0 = start_filtered(entry, pass);
    let inv = |b: Beam|
        {
            &&& sound(m, entry, pass, b)
            &&& b.top.len() < m.ef ==> b.visited.contains(entry.vector) && complete(
                m,
                entry,
                pass,
                b,
            )
        };
    assert(inv(b0)) by {
        lemma_start_sound(m, entry, pass, pass);
        assert(b0.frontier[0] == entry);
        assert(b0.frontier.contains(entry));
        assert(holds(b0.frontier, entry.vector));
        if pass(entry.vector) {
            assert(b0.top[0] == entry);
            assert(b0.top.contains(entry));
            assert(holds(b0.top, entry.vector));
        }
    }
    assert forall|b: Beam| #[trigger] inv(b) && !m.done(b) implies inv(m.step(expand, b)) && 0
        <= work_left(m.step(expand, b), n) < work_left(b, n) by {
        lemma_two_hop_step_sound(m, entry, pass, b);
        if m.step(expand, b).top.len() < m.ef {
            lemma_two_hop_top_grows(m, entry, pass, b);
            lemma_two_hop_step_complete(m, entry, pass, b);
        }
    }
    let end = lemma_ends(m, expand, inv, b0, 0);
    let b = m.after(expand, b0, end);
    assert(b.frontier.len() == 0);
    let path = choose|path: Seq<usize>| #[trigger]
        is_passing_path(m.adj, pass, path) && path[0] == entry.vector && path.last() == id;
    lemma_path_seen(m, entry, pass, b, path);
}

/// A beam never gets smaller.
proof fn lemma_two_hop_top_grows(
    m: SearchModel,
    entry: ScoredItem,
    pass: spec_fn(usize) -> bool,
    b: Beam,
)
    requires
        closed(m.adj),
        m.ef >= 1,
        sound(m, entry, pass, b),
        b.frontier.len() > 0,
    ensures
        b.top.len() <= m.step(m.two_hop_expansion(pass), b).top.len(),
{
    let n = m.adj.len();
    let node = b.frontier[0].vector;
    assert(b.frontier.contains(b.frontier[0]));
    let nbrs = m.adj[node as int];
    let base = Beam { frontier: b.frontier.drop_first(), ..b };
    let fails = |id: usize| !pass(id);
    let unseen = fresh(nbrs, b.visited);
    let mids = unseen.filter(fails);
    assert forall|i: int| 0 <= i < nbrs.len() implies #[trigger] nbrs[i] < n by {
        assert(m.adj[node as int][i] < n);
    }
    lemma_pop_ok(b, n);
    lemma_scan_ok(m, base, nbrs, pass, n);
    lemma_fresh(nbrs, b.visited);
    lemma_filter_facts(unseen, fails);
    assert forall|i: int| 0 <= i < mids.len() implies #[trigger] mids[i] < n by {
        assert(unseen.contains(mids[i]));
        let j = choose|j: int| 0 <= j < unseen.len() && unseen[j] == mids[i];
        assert(unseen[j] < n);
    }
    lemma_scan_grows(m, pass, base, nbrs, n);
    lemma_scan_around_grows(m, pass, m.scan(base, nbrs, pass), mids);
}

/// A filtered search with two-hop expansion whose beam has room for every passing node returns
/// every node that passing nodes alone lead to from the entry.
pub proof fn law_wide_two_hop_search_finds_everything(
    m: SearchModel,
    entry: ScoredItem,
    pass: spec_fn(usize) -> bool,
    id: usize,
)
    requires
        closed(m.adj),
        entry.vector < m.adj.len(),
        m.ef >= passing_nodes(m.adj.len(), pass).len(),
        reachable_passing(m.adj, pass, entry.vector, id),
        id < m.adj.len(),
    ensures
        holds(m.outcome(m.two_hop_expansion(pass), start_filtered(entry, pass)), id),
{
    let results = m.outcome(m.two_hop_expansion(pass), start_filtered(entry, pass));
    law_two_hop_search_is_sound(m, entry, pass);
    if results.len() < m.ef {
        law_unfilled_two_hop_search_found_everything(m, entry, pass, id);
    } else {
        lemma_all_passing_found(m, entry, pass, results, id);
    }
}

} // verus!
