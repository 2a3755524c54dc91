//! What every search returns: scored nodes that can be reached from the entry, each once, nearest
//! first, and no more of them than the beam holds.
use crate::beam::{
    beam_ok, closed, fresh, lemma_descend, lemma_fresh, lemma_nearest_of, lemma_offer_admitted_ok,
    lemma_offer_all_ok, lemma_outcome, lemma_scan_around_ok, lemma_scan_ok, lemma_visited_bound,
    max, start, start_filtered, work_left, Beam, SearchModel,
};
use crate::scored::{in_order, lemma_place, lemma_rank_bounds, place, rank, ScoredItem};
use vstd::prelude::*;

verus! {

/// Each node of `path` is a neighbour of the one before it.
pub open spec fn is_path(adj: Seq<Seq<usize>>, path: Seq<usize>) -> bool {
    &&& path.len() > 0
    &&& forall|i: int|
        0 <= i < path.len() - 1 ==> (#[trigger] adj[path[i] as int]).contains(path[i + 1])
}

/// A path leads from `a` to `b`.
pub open spec fn reachable(adj: Seq<Seq<usize>>, a: usize, b: usize) -> bool {
    exists|path: Seq<usize>| #[trigger] is_path(adj, path) && path[0] == a && path.last() == b
}

pub proof fn lemma_reachable_self(adj: Seq<Seq<usize>>, a: usize)
    ensures
        reachable(adj, a, a),
{
    assert(is_path(adj, seq![a]));
}

pub proof fn lemma_reachable_step(adj: Seq<Seq<usize>>, a: usize, b: usize, c: usize)
    requires
        reachable(adj, a, b),
        adj[b as int].contains(c),
    ensures
        reachable(adj, a, c),
{
    let path = choose|path: Seq<usize>| #[trigger]
        is_path(adj, path) && path[0] == a && path.last() == b;
    let longer = path.push(c);
    assert forall|i: int| 0 <= i < longer.len() - 1 implies (
    #[trigger] adj[longer[i] as int]).contains(longer[i + 1]) by {
        if i < path.len() - 1 {
            assert(adj[path[i] as int].contains(path[i + 1]));
        }
    }
    assert(is_path(adj, longer));
}

impl SearchModel {
    /// The beam after one more expansion.
    pub open spec fn step(self, expand: spec_fn(Beam, usize) -> Beam, b: Beam) -> Beam {
        expand(Beam { frontier: b.frontier.drop_first(), ..b }, b.frontier[0].vector)
    }
}

/// `inv` survives every expansion that is due, and every expansion leaves less to do.
pub open spec fn is_invariant(
    m: SearchModel,
    expand: spec_fn(Beam, usize) -> Beam,
    inv: spec_fn(Beam) -> bool,
) -> bool {
    forall|b: Beam| #[trigger]
        inv(b) && !m.done(b) ==> inv(m.step(expand, b)) && 0 <= work_left(
            m.step(expand, b),
            m.adj.len(),
        ) < work_left(b, m.adj.len())
}

/// A search comes to an end, and its invariant holds there.
pub proof fn lemma_ends(
    m: SearchModel,
    expand: spec_fn(Beam, usize) -> Beam,
    inv: spec_fn(Beam) -> bool,
    b0: Beam,
    steps: nat,
) -> (end: nat)
    requires
        is_invariant(m, expand, inv),
        inv(m.after(expand, b0, steps)),
        forall|i: nat| i < steps ==> !m.done(#[trigger] m.after(expand, b0, i)),
    ensures
        m.halts_at(expand, b0, end),
        inv(m.after(expand, b0, end)),
        m.outcome(expand, b0) == m.after(expand, b0, end).top,
    decreases work_left(m.after(expand, b0, steps), m.adj.len()),
{
    let b = m.after(expand, b0, steps);
    if m.done(b) {
        lemma_outcome(m, expand, b0, steps);
        steps
    } else {
        assert(m.after(expand, b0, steps + 1) == m.step(expand, b));
        lemma_ends(m, expand, inv, b0, steps + 1)
    }
}

/// What holds of the best items, all of which are in `seen` and satisfy `good`.
pub open spec fn top_sound(
    m: SearchModel,
    entry: ScoredItem,
    good: spec_fn(usize) -> bool,
    seen: Set<usize>,
    top: Seq<ScoredItem>,
) -> bool {
    &&& in_order(top)
    &&& top.len() <= max(m.ef, 1)
    &&& m.ef >= 1 && good(entry.vector) ==> top.len() >= 1
    &&& forall|i: int|
        0 <= i < top.len() ==> {
            let x = #[trigger] top[i];
            seen.contains(x.vector) && good(x.vector) && (x == entry || x == m.item(x.vector))
        }
    &&& forall|i: int, j: int|
        0 <= i < j < top.len() ==> (#[trigger] top[i]).vector != (#[trigger] top[j]).vector
}

/// What holds of every beam that a search from `entry` goes through.
pub open spec fn sound(
    m: SearchModel,
    entry: ScoredItem,
    good: spec_fn(usize) -> bool,
    b: Beam,
) -> bool {
    &&& beam_ok(b, m.adj.len())
    &&& top_sound(m, entry, good, b.visited, b.top)
    &&& forall|x: ScoredItem| #[trigger] b.frontier.contains(x) ==> b.visited.contains(x.vector)
    &&& forall|id: usize| #[trigger]
        b.visited.contains(id) ==> reachable(m.adj, entry.vector, id)
}

proof fn lemma_offer_sound(
    m: SearchModel,
    entry: ScoredItem,
    good: spec_fn(usize) -> bool,
    seen: Set<usize>,
    b: Beam,
    id: usize,
)
    requires
        top_sound(m, entry, good, seen, b.top),
        !seen.contains(id),
        good(id),
    ensures
        top_sound(m, entry, good, seen.insert(id), m.offer(b, m.item(id)).top),
{
    let x = m.item(id);
    let s = b.top;
    let t = place(s, x);
    lemma_place(s, x);
    let r = rank(s, x) as int;
    lemma_rank_bounds(s, x);
    assert forall|i: int| 0 <= i < t.len() implies {
        let y = #[trigger] t[i];
        seen.insert(id).contains(y.vector) && good(y.vector) && (y == entry || y == m.item(
            y.vector,
        ))
    } by {
        if i < r {
            assert(t[i] == s[i]);
        } else if i > r {
            assert(t[i] == s[i - 1]);
        }
    }
    assert forall|i: int, j: int| 0 <= i < j < t.len() implies (#[trigger] t[i]).vector != (
    #[trigger] t[j]).vector by {
        let a = if i < r { i } else { i - 1 };
        let c = if j < r { j } else { j - 1 };
        if i != r {
            assert(t[i] == s[a]);
        }
        if j != r {
            assert(t[j] == s[c]);
        }
    }
}

proof fn lemma_offer_all_sound(
    m: SearchModel,
    entry: ScoredItem,
    good: spec_fn(usize) -> bool,
    seen: Set<usize>,
    b: Beam,
    found: Seq<usize>,
)
    requires
        top_sound(m, entry, good, seen, b.top),
        found.no_duplicates(),
        forall|i: int|
            0 <= i < found.len() ==> !seen.contains(#[trigger] found[i]) && good(found[i]),
    ensures
        top_sound(m, entry, good, seen.union(found.to_set()), m.offer_all(b, found).top),
        top_sound(m, entry, good, seen.union(found.to_set()), m.offer_admitted(b, found).top),
    decreases found.len(),
{
    if found.len() == 0 {
        assert(seen.union(found.to_set()) =~= seen);
    } else {
        let rest = found.drop_last();
        let id = found.last();
        assert(forall|i: int| 0 <= i < rest.len() ==> rest[i] == found[i]);
        lemma_offer_all_sound(m, entry, good, seen, b, rest);
        let before = seen.union(rest.to_set());
        assert(!rest.contains(id)) by {
            if rest.contains(id) {
                let i = choose|i: int| 0 <= i < rest.len() && rest[i] == id;
                assert(found[i] == found[found.len() - 1]);
            }
        }
        assert(rest.push(id) =~= found);
        rest.lemma_push_to_set_commute(id);
        assert(seen.union(found.to_set()) =~= before.insert(id));
        lemma_offer_sound(m, entry, good, before, m.offer_all(b, rest), id);
        lemma_offer_sound(m, entry, good, before, m.offer_admitted(b, rest), id);
    }
}

/// Offering nodes adds frontier items for those nodes only.
proof fn lemma_offer_all_frontier(m: SearchModel, b: Beam, found: Seq<usize>, n: nat)
    requires
        beam_ok(b, n),
        forall|i: int| 0 <= i < found.len() ==> #[trigger] found[i] < n,
    ensures
        forall|x: ScoredItem| #[trigger]
            m.offer_all(b, found).frontier.contains(x) ==> b.frontier.contains(x)
                || found.contains(x.vector),
        forall|x: ScoredItem| #[trigger]
            m.offer_admitted(b, found).frontier.contains(x) ==> b.frontier.contains(x)
                || found.contains(x.vector),
    decreases found.len(),
{
    if found.len() > 0 {
        let rest = found.drop_last();
        assert(forall|i: int| 0 <= i < rest.len() ==> rest[i] == found[i]);
        lemma_offer_all_frontier(m, b, rest, n);
        lemma_offer_all_ok(m, b, rest, n);
        lemma_offer_admitted_ok(m, b, rest, n);
        let x0 = m.item(found.last());
        lemma_place(m.offer_all(b, rest).frontier, x0);
        lemma_place(m.offer_admitted(b, rest).frontier, x0);
        assert forall|id: usize| rest.contains(id) implies #[trigger] found.contains(id) by {
            let i = choose|i: int| 0 <= i < rest.len() && rest[i] == id;
            assert(found[i] == id);
        }
        assert(found[found.len() - 1] == x0.vector);
        assert(found.contains(x0.vector));
    }
}

pub proof fn lemma_filter_facts(s: Seq<usize>, pass: spec_fn(usize) -> bool)
    requires
        s.no_duplicates(),
    ensures
        s.filter(pass).no_duplicates(),
        forall|i: int|
            0 <= i < s.filter(pass).len() ==> s.contains(#[trigger] s.filter(pass)[i]) && pass(
                s.filter(pass)[i],
            ),
    decreases s.len(),
{
    reveal(Seq::filter);
    if s.len() > 0 {
        let rest = s.drop_last();
        assert(forall|i: int| 0 <= i < rest.len() ==> rest[i] == s[i]);
        lemma_filter_facts(rest, pass);
        let f = rest.filter(pass);
        assert forall|i: int| 0 <= i < f.len() implies s.contains(#[trigger] f[i]) && f[i]
            != s.last() by {
            assert(rest.contains(f[i]));
            let j = choose|j: int| 0 <= j < rest.len() && rest[j] == f[i];
            assert(s[j] == f[i]);
            assert(s[j] != s[s.len() - 1]);
        }
        assert(s.contains(s[s.len() - 1]));
    }
}

/// Offering some of the unseen nodes of `nbrs` keeps the beam sound.
proof fn lemma_scan_sound(
    m: SearchModel,
    entry: ScoredItem,
    good: spec_fn(usize) -> bool,
    b: Beam,
    nbrs: Seq<usize>,
    pass: spec_fn(usize) -> bool,
)
    requires
        sound(m, entry, good, b),
        forall|i: int|
            0 <= i < nbrs.len() ==> #[trigger] nbrs[i] < m.adj.len() && reachable(
                m.adj,
                entry.vector,
                nbrs[i],
            ),
        forall|id: usize| #[trigger] pass(id) ==> good(id),
    ensures
        sound(m, entry, good, m.scan(b, nbrs, pass)),
        sound(
            m,
            entry,
            good,
            m.offer_admitted(m.see(b, nbrs), fresh(nbrs, b.visited).filter(pass)),
        ),
        work_left(
            m.offer_admitted(m.see(b, nbrs), fresh(nbrs, b.visited).filter(pass)),
            m.adj.len(),
        ) <= work_left(b, m.adj.len()),
{
    let n = m.adj.len();
    let f = fresh(nbrs, b.visited);
    let found = f.filter(pass);
    let base = m.see(b, nbrs);
    lemma_fresh(nbrs, b.visited);
    lemma_scan_ok(m, b, nbrs, pass, n);
    lemma_filter_facts(f, pass);
    f.lemma_filter_len(pass);
    assert forall|i: int| 0 <= i < found.len() implies !b.visited.contains(#[trigger] found[i])
        && good(found[i]) && found[i] < n && base.visited.contains(found[i]) by {
        assert(f.contains(found[i]));
        assert(nbrs.contains(found[i]));
    }
    lemma_offer_all_sound(m, entry, good, b.visited, base, found);
    lemma_offer_all_frontier(m, base, found, n);
    lemma_offer_all_ok(m, base, found, n);
    lemma_offer_admitted_ok(m, base, found, n);
    assert forall|id: usize| b.visited.union(found.to_set()).contains(
        id,
    ) implies base.visited.contains(id) by {
        if found.contains(id) {
            let i = choose|i: int| 0 <= i < found.len() && found[i] == id;
            assert(base.visited.contains(found[i]));
        }
    }
    assert forall|id: usize| #[trigger] base.visited.contains(id) implies reachable(
        m.adj,
        entry.vector,
        id,
    ) by {
        if !b.visited.contains(id) {
            assert(nbrs.contains(id));
            let i = choose|i: int| 0 <= i < nbrs.len() && nbrs[i] == id;
            assert(reachable(m.adj, entry.vector, nbrs[i]));
        }
    }
    assert forall|x: ScoredItem| found.contains(x.vector) implies base.visited.contains(
        x.vector,
    ) by {
        let i = choose|i: int| 0 <= i < found.len() && found[i] == x.vector;
        assert(base.visited.contains(found[i]));
    }
}

/// Every node passes.
pub open spec fn everything() -> spec_fn(usize) -> bool {
    |id: usize| true
}

pub proof fn lemma_filter_all(s: Seq<usize>, pass: spec_fn(usize) -> bool)
    requires
        forall|i: int| 0 <= i < s.len() ==> pass(#[trigger] s[i]),
    ensures
        s.filter(pass) == s,
    decreases s.len(),
{
    reveal(Seq::filter);
    if s.len() > 0 {
        assert(forall|i: int| 0 <= i < s.len() - 1 ==> s.drop_last()[i] == s[i]);
        lemma_filter_all(s.drop_last(), pass);
        assert(s.drop_last().push(s.last()) =~= s);
    }
}

/// The plain expansion is a scan that lets every node pass.
pub proof fn lemma_expand_is_scan(m: SearchModel, b: Beam, node: usize)
    ensures
        m.expand(b, node) == m.scan(b, m.adj[node as int], everything()),
{
    lemma_filter_all(fresh(m.adj[node as int], b.visited), everything());
}

/// The neighbours of a frontier item are nodes that can be reached.
proof fn lemma_pop_sound(
    m: SearchModel,
    entry: ScoredItem,
    good: spec_fn(usize) -> bool,
    b: Beam,
)
    requires
        closed(m.adj),
        sound(m, entry, good, b),
        b.frontier.len() > 0,
    ensures
        ({
            let node = b.frontier[0].vector;
            let nbrs = m.adj[node as int];
            let base = Beam { frontier: b.frontier.drop_first(), ..b };
            &&& node < m.adj.len()
            &&& reachable(m.adj, entry.vector, node)
            &&& sound(m, entry, good, base)
            &&& work_left(base, m.adj.len()) == work_left(b, m.adj.len()) - 1
            &&& forall|i: int|
                0 <= i < nbrs.len() ==> #[trigger] nbrs[i] < m.adj.len() && reachable(
                    m.adj,
                    entry.vector,
                    nbrs[i],
                )
        }),
{
    let node = b.frontier[0].vector;
    assert(b.frontier.contains(b.frontier[0]));
    let nbrs = m.adj[node as int];
    let rest = b.frontier.drop_first();
    assert forall|x: ScoredItem| #[trigger] rest.contains(x) implies b.frontier.contains(x) by {
        let i = choose|i: int| 0 <= i < rest.len() && rest[i] == x;
        assert(b.frontier[i + 1] == x);
    }
    assert forall|i: int| 0 <= i < nbrs.len() implies #[trigger] nbrs[i] < m.adj.len()
        && reachable(m.adj, entry.vector, nbrs[i]) by {
        assert(m.adj[node as int][i] < m.adj.len());
        assert(m.adj[node as int].contains(nbrs[i]));
        lemma_reachable_step(m.adj, entry.vector, node, nbrs[i]);
    }
}

pub proof fn lemma_start_sound(
    m: SearchModel,
    entry: ScoredItem,
    good: spec_fn(usize) -> bool,
    pass: spec_fn(usize) -> bool,
)
    requires
        entry.vector < m.adj.len(),
        pass(entry.vector) == good(entry.vector),
    ensures
        sound(m, entry, good, start_filtered(entry, pass)),
{
    lemma_reachable_self(m.adj, entry.vector);
    let b = start_filtered(entry, pass);
    assert(b.frontier[0] == entry);
}

/// What a search from `entry` returns: nodes that satisfy `good` and can be reached from the
/// entry, each once and with its score, nearest first, and no more than the beam holds.
pub open spec fn results_sound(
    m: SearchModel,
    entry: ScoredItem,
    good: spec_fn(usize) -> bool,
    results: Seq<ScoredItem>,
) -> bool {
    &&& in_order(results)
    &&& results.len() <= max(m.ef, 1)
    &&& m.ef >= 1 && good(entry.vector) ==> results.len() >= 1
    &&& forall|i: int|
        0 <= i < results.len() ==> {
            let x = #[trigger] results[i];
            &&& x.vector < m.adj.len()
            &&& good(x.vector)
            &&& x == entry || x == m.item(x.vector)
            &&& reachable(m.adj, entry.vector, x.vector)
        }
    &&& forall|i: int, j: int|
        0 <= i < j < results.len() ==> (#[trigger] results[i]).vector != (
        #[trigger] results[j]).vector
}

proof fn lemma_sound_results(
    m: SearchModel,
    entry: ScoredItem,
    good: spec_fn(usize) -> bool,
    b: Beam,
)
    requires
        sound(m, entry, good, b),
    ensures
        results_sound(m, entry, good, b.top),
{
    assert forall|i: int| 0 <= i < b.top.len() implies (#[trigger] b.top[i]).vector < m.adj.len()
        && reachable(m.adj, entry.vector, b.top[i].vector) by {
        assert(b.visited.contains(b.top[i].vector));
    }
}

/// A beam search comes to an end, and its beam is sound there.
pub proof fn lemma_search_ends(m: SearchModel, entry: ScoredItem) -> (end: nat)
    requires
        closed(m.adj),
        entry.vector < m.adj.len(),
    ensures
        m.halts_at(m.expansion(), start(entry), end),
        sound(m, entry, everything(), m.after(m.expansion(), start(entry), end)),
        m.outcome(m.expansion(), start(entry)) == m.after(m.expansion(), start(entry), end).top,
{
    let good = everything();
    let inv = |b: Beam| sound(m, entry, good, b);
    lemma_start_sound(m, entry, good, good);
    assert(start_filtered(entry, good) == start(entry));
    assert forall|b: Beam| #[trigger] inv(b) && !m.done(b) implies inv(m.step(m.expansion(), b))
        && 0 <= work_left(m.step(m.expansion(), b), m.adj.len()) < work_left(b, m.adj.len()) by {
        lemma_step_sound(m, entry, b);
    }
    lemma_ends(m, m.expansion(), inv, start(entry), 0)
}

/// An expansion keeps the beam sound and leaves less to do.
pub proof fn lemma_step_sound(m: SearchModel, entry: ScoredItem, b: Beam)
    requires
        closed(m.adj),
        sound(m, entry, everything(), b),
        b.frontier.len() > 0,
    ensures
        sound(m, entry, everything(), m.step(m.expansion(), b)),
        0 <= work_left(m.step(m.expansion(), b), m.adj.len()) < work_left(b, m.adj.len()),
{
    let good = everything();
    lemma_pop_sound(m, entry, good, b);
    let base = Beam { frontier: b.frontier.drop_first(), ..b };
    let node = b.frontier[0].vector;
    lemma_expand_is_scan(m, base, node);
    lemma_scan_sound(m, entry, good, base, m.adj[node as int], good);
    lemma_scan_ok(m, base, m.adj[node as int], good, m.adj.len());
    lemma_visited_bound(m.step(m.expansion(), b).visited, m.adj.len());
}

/// A beam search returns nodes that can be reached from the entry, each once and with its score,
/// nearest first: at least one if the beam has room, and no more than the beam holds.
pub proof fn law_search_is_sound(m: SearchModel, entry: ScoredItem)
    requires
        closed(m.adj),
        entry.vector < m.adj.len(),
    ensures
        results_sound(m, entry, everything(), m.outcome(m.expansion(), start(entry))),
{
    let end = lemma_search_ends(m, entry);
    lemma_sound_results(m, entry, everything(), m.after(m.expansion(), start(entry), end));
}

proof fn lemma_scan_around_sound(
    m: SearchModel,
    entry: ScoredItem,
    pass: spec_fn(usize) -> bool,
    b: Beam,
    mids: Seq<usize>,
)
    requires
        closed(m.adj),
        sound(m, entry, pass, b),
        forall|i: int|
            0 <= i < mids.len() ==> #[trigger] mids[i] < m.adj.len() && reachable(
                m.adj,
                entry.vector,
                mids[i],
            ),
    ensures
        sound(m, entry, pass, m.scan_around(b, mids, pass)),
    decreases mids.len(),
{
    if mids.len() > 0 {
        assert(forall|i: int| 0 <= i < mids.len() - 1 ==> mids.drop_last()[i] == mids[i]);
        lemma_scan_around_sound(m, entry, pass, b, mids.drop_last());
        let mid = mids[mids.len() - 1];
        let nbrs = m.adj[mid as int];
        assert forall|i: int| 0 <= i < nbrs.len() implies #[trigger] nbrs[i] < m.adj.len()
            && reachable(m.adj, entry.vector, nbrs[i]) by {
            assert(m.adj[mid as int][i] < m.adj.len());
            assert(m.adj[mid as int].contains(nbrs[i]));
            lemma_reachable_step(m.adj, entry.vector, mid, nbrs[i]);
        }
        lemma_scan_sound(m, entry, pass, m.scan_around(b, mids.drop_last(), pass), nbrs, pass);
    }
}

/// A two-hop expansion keeps the beam sound and leaves less to do.
pub proof fn lemma_two_hop_step_sound(
    m: SearchModel,
    entry: ScoredItem,
    pass: spec_fn(usize) -> bool,
    b: Beam,
)
    requires
        closed(m.adj),
        sound(m, entry, pass, b),
        b.frontier.len() > 0,
    ensures
        sound(m, entry, pass, m.step(m.two_hop_expansion(pass), b)),
        0 <= work_left(m.step(m.two_hop_expansion(pass), b), m.adj.len()) < work_left(
            b,
            m.adj.len(),
        ),
{
    let n = m.adj.len();
    lemma_pop_sound(m, entry, pass, b);
    let base = Beam { frontier: b.frontier.drop_first(), ..b };
    let node = b.frontier[0].vector;
    let nbrs = m.adj[node as int];
    let f = fresh(nbrs, base.visited);
    let fails = |id: usize| !pass(id);
    let mids = f.filter(fails);
    lemma_scan_sound(m, entry, pass, base, nbrs, pass);
    lemma_scan_ok(m, base, nbrs, pass, n);
    lemma_fresh(nbrs, base.visited);
    lemma_filter_facts(f, fails);
    assert forall|i: int| 0 <= i < mids.len() implies #[trigger] mids[i] < n && reachable(
        m.adj,
        entry.vector,
        mids[i],
    ) by {
        assert(f.contains(mids[i]));
        assert(nbrs.contains(mids[i]));
        let j = choose|j: int| 0 <= j < nbrs.len() && nbrs[j] == mids[i];
        assert(nbrs[j] < n);
    }
    lemma_scan_around_sound(m, entry, pass, m.scan(base, nbrs, pass), mids);
    lemma_scan_around_ok(m, m.scan(base, nbrs, pass), mids, pass);
    lemma_visited_bound(m.step(m.two_hop_expansion(pass), b).visited, n);
}

/// A filtered search with two-hop expansion returns only nodes that pass; they can be reached
/// from the entry and come once each, with their scores, nearest first, and no more than the beam
/// holds.
pub proof fn law_two_hop_search_is_sound(
    m: SearchModel,
    entry: ScoredItem,
    pass: spec_fn(usize) -> bool,
)
    requires
        closed(m.adj),
        entry.vector < m.adj.len(),
    ensures
        results_sound(
            m,
            entry,
            pass,
            m.outcome(m.two_hop_expansion(pass), start_filtered(entry, pass)),
        ),
{
    let inv = |b: Beam| sound(m, entry, pass, b);
    let expand = m.two_hop_expansion(pass);
    let n = m.adj.len();
    lemma_start_sound(m, entry, pass, pass);
    assert forall|b: Beam| #[trigger] inv(b) && !m.done(b) implies inv(m.step(expand, b)) && 0
        <= work_left(m.step(expand, b), n) < work_left(b, n) by {
        lemma_two_hop_step_sound(m, entry, pass, b);
    }
    let end = lemma_ends(m, expand, inv, start_filtered(entry, pass), 0);
    lemma_sound_results(m, entry, pass, m.after(expand, start_filtered(entry, pass), end));
}

/// An expansion that skips the nodes that fail keeps the beam sound and leaves less to do.
pub proof fn lemma_skipping_step_sound(
    m: SearchModel,
    entry: ScoredItem,
    pass: spec_fn(usize) -> bool,
    b: Beam,
)
    requires
        closed(m.adj),
        sound(m, entry, pass, b),
        b.frontier.len() > 0,
    ensures
        sound(m, entry, pass, m.step(m.passing_expansion(pass), b)),
        0 <= work_left(m.step(m.passing_expansion(pass), b), m.adj.len()) < work_left(
            b,
            m.adj.len(),
        ),
{
    lemma_pop_sound(m, entry, pass, b);
    let base = Beam { frontier: b.frontier.drop_first(), ..b };
    let node = b.frontier[0].vector;
    lemma_scan_sound(m, entry, pass, base, m.adj[node as int], pass);
    lemma_visited_bound(m.step(m.passing_expansion(pass), b).visited, m.adj.len());
}

/// A filtered search that skips the nodes that fail returns only nodes that pass; they can be
/// reached from the entry and come once each, with their scores, nearest first, and no more than
/// the beam holds.
pub proof fn law_skipping_search_is_sound(
    m: SearchModel,
    entry: ScoredItem,
    pass: spec_fn(usize) -> bool,
)
    requires
        closed(m.adj),
        entry.vector < m.adj.len(),
    ensures
        results_sound(
            m,
            entry,
            pass,
            m.outcome(m.passing_expansion(pass), start_filtered(entry, pass)),
        ),
{
    let inv = |b: Beam| sound(m, entry, pass, b);
    let expand = m.passing_expansion(pass);
    let n = m.adj.len();
    lemma_start_sound(m, entry, pass, pass);
    assert forall|b: Beam| #[trigger] inv(b) && !m.done(b) implies inv(m.step(expand, b)) && 0
        <= work_left(m.step(expand, b), n) < work_left(b, n) by {
        lemma_skipping_step_sound(m, entry, pass, b);
    }
    let end = lemma_ends(m, expand, inv, start_filtered(entry, pass), 0);
    lemma_sound_results(m, entry, pass, m.after(expand, start_filtered(entry, pass), end));
}

pub proof fn lemma_walk_sound(m: SearchModel, entry: ScoredItem, hops: nat)
    requires
        closed(m.adj),
        entry.vector < m.adj.len(),
    ensures
        m.walk(entry, hops).vector < m.adj.len(),
        m.walk(entry, hops).distance <= entry.distance,
        m.walk(entry, hops) == entry || m.walk(entry, hops) == m.item(m.walk(entry, hops).vector),
        reachable(m.adj, entry.vector, m.walk(entry, hops).vector),
    decreases hops,
{
    if hops == 0 {
        lemma_reachable_self(m.adj, entry.vector);
    } else {
        lemma_walk_sound(m, entry, (hops - 1) as nat);
        let prev = m.walk(entry, (hops - 1) as nat);
        let nbrs = m.adj[prev.vector as int];
        let x = m.walk(entry, hops);
        lemma_nearest_of(m, prev, nbrs);
        if x != prev {
            let i = choose|i: int| 0 <= i < nbrs.len() && nbrs[i] == x.vector;
            assert(m.adj[prev.vector as int][i] < m.adj.len());
            lemma_reachable_step(m.adj, entry.vector, prev.vector, x.vector);
        }
    }
}

pub proof fn lemma_walk_settles(m: SearchModel, entry: ScoredItem, hops: nat) -> (end: nat)
    ensures
        m.settled(m.walk(entry, end)),
    decreases m.walk(entry, hops).distance - i64::MIN,
{
    let x = m.walk(entry, hops);
    if m.settled(x) {
        hops
    } else {
        lemma_nearest_of(m, x, m.adj[x.vector as int]);
        assert(m.walk(entry, hops + 1) == m.nearest_of(x, m.adj[x.vector as int]));
        lemma_walk_settles(m, entry, hops + 1)
    }
}

/// A greedy walk ends at a node that can be reached from the entry and is no farther than it, and
/// none of whose neighbours is nearer.
pub proof fn law_greedy_walk_ends_at_local_minimum(m: SearchModel, entry: ScoredItem)
    requires
        closed(m.adj),
        entry.vector < m.adj.len(),
    ensures
        ({
            let x = m.descend(entry);
            &&& x.vector < m.adj.len()
            &&& x.distance <= entry.distance
            &&& x == entry || x == m.item(x.vector)
            &&& reachable(m.adj, entry.vector, x.vector)
            &&& forall|j: int|
                0 <= j < m.adj[x.vector as int].len() ==> x.distance <= (m.score)(
                    #[trigger] m.adj[x.vector as int][j],
                )
        }),
{
    let end = lemma_walk_settles(m, entry, 0);
    lemma_descend(m, entry, end);
    lemma_walk_sound(m, entry, end);
    let x = m.descend(entry);
    lemma_nearest_of(m, x, m.adj[x.vector as int]);
}

} // verus!
