//! A filtered search goes by what the predicate says of the nodes it has seen, and of no others.
use crate::beam::{closed, fresh, lemma_outcome, start_filtered, work_left, Beam, SearchModel};
use crate::graph::lemma_offer_all_visited;
use crate::scored::ScoredItem;
use crate::soundness::{
    lemma_ends, lemma_skipping_step_sound, lemma_start_sound, lemma_two_hop_step_sound, sound,
};
use vstd::prelude::*;

verus! {

/// The predicates say the same of every node in `seen`.
pub open spec fn agree_on(
    seen: Set<usize>,
    p: spec_fn(usize) -> bool,
    q: spec_fn(usize) -> bool,
) -> bool {
    forall|id: usize| #[trigger] seen.contains(id) ==> p(id) == q(id)
}

proof fn lemma_filter_same(s: Seq<usize>, p: spec_fn(usize) -> bool, q: spec_fn(usize) -> bool)
    requires
        forall|i: int| 0 <= i < s.len() ==> p(#[trigger] s[i]) == q(s[i]),
    ensures
        s.filter(p) == s.filter(q),
    decreases s.len(),
{
    reveal(Seq::filter);
    if s.len() > 0 {
        assert(forall|i: int| 0 <= i < s.len() - 1 ==> s.drop_last()[i] == s[i]);
        lemma_filter_same(s.drop_last(), p, q);
        assert(p(s[s.len() - 1]) == q(s[s.len() - 1]));
    }
}

/// Unseen neighbours are neighbours.
proof fn lemma_fresh_inside(nbrs: Seq<usize>, visited: Set<usize>)
    ensures
        forall|i: int|
            0 <= i < fresh(nbrs, visited).len() ==> nbrs.contains(
                #[trigger] fresh(nbrs, visited)[i],
            ),
    decreases nbrs.len(),
{
    if nbrs.len() > 0 {
        let rest = nbrs.drop_last();
        lemma_fresh_inside(rest, visited);
        let f = fresh(rest, visited);
        assert forall|i: int| 0 <= i < f.len() implies nbrs.contains(#[trigger] f[i]) by {
            assert(rest.contains(f[i]));
            let j = choose|j: int| 0 <= j < rest.len() && rest[j] == f[i];
            assert(nbrs[j] == f[i]);
        }
        assert(nbrs.contains(nbrs[nbrs.len() - 1]));
    }
}

proof fn lemma_unseen_same(
    nbrs: Seq<usize>,
    visited: Set<usize>,
    seen: Set<usize>,
    p: spec_fn(usize) -> bool,
    q: spec_fn(usize) -> bool,
)
    requires
        agree_on(seen, p, q),
        forall|id: usize| nbrs.contains(id) ==> #[trigger] seen.contains(id),
    ensures
        fresh(nbrs, visited).filter(p) == fresh(nbrs, visited).filter(q),
        fresh(nbrs, visited).filter(|id: usize| !p(id)) == fresh(nbrs, visited).filter(
            |id: usize| !q(id),
        ),
{
    let f = fresh(nbrs, visited);
    lemma_fresh_inside(nbrs, visited);
    assert forall|i: int| 0 <= i < f.len() implies p(#[trigger] f[i]) == q(f[i]) by {
        assert(seen.contains(f[i]));
    }
    lemma_filter_same(f, p, q);
    lemma_filter_same(f, |id: usize| !p(id), |id: usize| !q(id));
}

/// What a scan has seen.
proof fn lemma_scan_visited(
    m: SearchModel,
    b: Beam,
    nbrs: Seq<usize>,
    pass: spec_fn(usize) -> bool,
)
    ensures
        m.scan(b, nbrs, pass).visited == b.visited.union(nbrs.to_set()),
{
    lemma_offer_all_visited(m, m.see(b, nbrs), fresh(nbrs, b.visited).filter(pass));
}

proof fn lemma_scan_around_visited(
    m: SearchModel,
    b: Beam,
    mids: Seq<usize>,
    pass: spec_fn(usize) -> bool,
)
    ensures
        b.visited.subset_of(m.scan_around(b, mids, pass).visited),
    decreases mids.len(),
{
    if mids.len() > 0 {
        lemma_scan_around_visited(m, b, mids.drop_last(), pass);
        lemma_scan_visited(
            m,
            m.scan_around(b, mids.drop_last(), pass),
            m.adj[mids.last() as int],
            pass,
        );
    }
}

proof fn lemma_scan_around_same(
    m: SearchModel,
    b: Beam,
    mids: Seq<usize>,
    seen: Set<usize>,
    p: spec_fn(usize) -> bool,
    q: spec_fn(usize) -> bool,
)
    requires
        agree_on(seen, p, q),
        m.scan_around(b, mids, p).visited.subset_of(seen),
    ensures
        m.scan_around(b, mids, p) == m.scan_around(b, mids, q),
    decreases mids.len(),
{
    if mids.len() > 0 {
        let before = m.scan_around(b, mids.drop_last(), p);
        let nbrs = m.adj[mids.last() as int];
        lemma_scan_visited(m, before, nbrs, p);
        lemma_scan_around_same(m, b, mids.drop_last(), seen, p, q);
        assert forall|id: usize| nbrs.contains(id) implies #[trigger] seen.contains(id) by {
            assert(nbrs.to_set().contains(id));
        }
        lemma_unseen_same(nbrs, before.visited, seen, p, q);
    }
}

proof fn lemma_two_hop_step_same(
    m: SearchModel,
    b: Beam,
    node: usize,
    seen: Set<usize>,
    p: spec_fn(usize) -> bool,
    q: spec_fn(usize) -> bool,
)
    requires
        agree_on(seen, p, q),
        m.expand_two_hop(b, node, p).visited.subset_of(seen),
    ensures
        m.expand_two_hop(b, node, p) == m.expand_two_hop(b, node, q),
        b.visited.subset_of(m.expand_two_hop(b, node, p).visited),
{
    let nbrs = m.adj[node as int];
    let direct = m.scan(b, nbrs, p);
    let mids = fresh(nbrs, b.visited).filter(|id: usize| !p(id));
    lemma_scan_visited(m, b, nbrs, p);
    lemma_scan_around_visited(m, direct, mids, p);
    assert forall|id: usize| nbrs.contains(id) implies #[trigger] seen.contains(id) by {
        assert(nbrs.to_set().contains(id));
        assert(direct.visited.contains(id));
    }
    lemma_unseen_same(nbrs, b.visited, seen, p, q);
    lemma_scan_around_same(m, direct, mids, seen, p, q);
}

proof fn lemma_skipping_step_same(
    m: SearchModel,
    b: Beam,
    node: usize,
    seen: Set<usize>,
    p: spec_fn(usize) -> bool,
    q: spec_fn(usize) -> bool,
)
    requires
        agree_on(seen, p, q),
        m.expand_passing(b, node, p).visited.subset_of(seen),
    ensures
        m.expand_passing(b, node, p) == m.expand_passing(b, node, q),
        b.visited.subset_of(m.expand_passing(b, node, p).visited),
{
    let nbrs = m.adj[node as int];
    lemma_offer_admitted_visited(m, m.see(b, nbrs), fresh(nbrs, b.visited).filter(p));
    assert forall|id: usize| nbrs.contains(id) implies #[trigger] seen.contains(id) by {
        assert(nbrs.to_set().contains(id));
    }
    lemma_unseen_same(nbrs, b.visited, seen, p, q);
}

pub proof fn lemma_offer_admitted_visited(m: SearchModel, b: Beam, found: Seq<usize>)
    ensures
        m.offer_admitted(b, found).visited == b.visited,
    decreases found.len(),
{
    if found.len() > 0 {
        lemma_offer_admitted_visited(m, b, found.drop_last());
    }
}

/// Predicates that agree on what the two-hop search has seen so far have led it the same way, and
/// the entry was seen.
pub proof fn lemma_two_hop_same(
    m: SearchModel,
    entry: ScoredItem,
    p: spec_fn(usize) -> bool,
    q: spec_fn(usize) -> bool,
    seen: Set<usize>,
    steps: nat,
)
    requires
        agree_on(seen, p, q),
        m.after(m.two_hop_expansion(p), start_filtered(entry, p), steps).visited.subset_of(seen),
    ensures
        start_filtered(entry, p) == start_filtered(entry, q),
        forall|i: nat|
            i <= steps ==> #[trigger] m.after(m.two_hop_expansion(p), start_filtered(entry, p), i)
                == m.after(m.two_hop_expansion(q), start_filtered(entry, q), i),
    decreases steps,
{
    let b0 = start_filtered(entry, p);
    if steps == 0 {
        assert(b0.visited.contains(entry.vector));
        assert(seen.contains(entry.vector));
    } else {
        let before = (steps - 1) as nat;
        let prev = m.after(m.two_hop_expansion(p), b0, before);
        let base = Beam { frontier: prev.frontier.drop_first(), ..prev };
        let node = prev.frontier[0].vector;
        lemma_two_hop_step_same(m, base, node, seen, p, q);
        lemma_two_hop_same(m, entry, p, q, seen, before);
        assert forall|i: nat| i <= steps implies #[trigger] m.after(m.two_hop_expansion(p), b0, i)
            == m.after(m.two_hop_expansion(q), start_filtered(entry, q), i) by {
            if i == steps {
                assert(prev == m.after(m.two_hop_expansion(q), start_filtered(entry, q), before));
            }
        }
    }
}

/// Predicates that agree on what the search that skips nodes has seen so far have led it the same
/// way, and the entry was seen.
pub proof fn lemma_skipping_same(
    m: SearchModel,
    entry: ScoredItem,
    p: spec_fn(usize) -> bool,
    q: spec_fn(usize) -> bool,
    seen: Set<usize>,
    steps: nat,
)
    requires
        agree_on(seen, p, q),
        m.after(m.passing_expansion(p), start_filtered(entry, p), steps).visited.subset_of(seen),
    ensures
        start_filtered(entry, p) == start_filtered(entry, q),
        forall|i: nat|
            i <= steps ==> #[trigger] m.after(m.passing_expansion(p), start_filtered(entry, p), i)
                == m.after(m.passing_expansion(q), start_filtered(entry, q), i),
    decreases steps,
{
    let b0 = start_filtered(entry, p);
    if steps == 0 {
        assert(b0.visited.contains(entry.vector));
        assert(seen.contains(entry.vector));
    } else {
        let before = (steps - 1) as nat;
        let prev = m.after(m.passing_expansion(p), b0, before);
        let base = Beam { frontier: prev.frontier.drop_first(), ..prev };
        let node = prev.frontier[0].vector;
        lemma_skipping_step_same(m, base, node, seen, p, q);
        lemma_skipping_same(m, entry, p, q, seen, before);
        assert forall|i: nat| i <= steps implies #[trigger] m.after(m.passing_expansion(p), b0, i)
            == m.after(m.passing_expansion(q), start_filtered(entry, q), i) by {
            if i == steps {
                assert(prev == m.after(m.passing_expansion(q), start_filtered(entry, q), before));
            }
        }
    }
}

/// Predicates that agree on what a finished two-hop search has seen have the same outcome.
pub proof fn lemma_two_hop_outcome(
    m: SearchModel,
    entry: ScoredItem,
    p: spec_fn(usize) -> bool,
    q: spec_fn(usize) -> bool,
    steps: nat,
)
    requires
        m.halts_at(m.two_hop_expansion(p), start_filtered(entry, p), steps),
        agree_on(
            m.after(m.two_hop_expansion(p), start_filtered(entry, p), steps).visited,
            p,
            q,
        ),
    ensures
        m.outcome(m.two_hop_expansion(q), start_filtered(entry, q)) == m.outcome(
            m.two_hop_expansion(p),
            start_filtered(entry, p),
        ),
{
    let end = m.after(m.two_hop_expansion(p), start_filtered(entry, p), steps);
    lemma_two_hop_same(m, entry, p, q, end.visited, steps);
    assert forall|i: nat| i < steps implies !m.done(
        #[trigger] m.after(m.two_hop_expansion(q), start_filtered(entry, q), i),
    ) by {
        assert(!m.done(m.after(m.two_hop_expansion(p), start_filtered(entry, p), i)));
    }
    lemma_outcome(m, m.two_hop_expansion(p), start_filtered(entry, p), steps);
    lemma_outcome(m, m.two_hop_expansion(q), start_filtered(entry, q), steps);
}

/// Predicates that agree on what a finished search that skips nodes has seen have the same
/// outcome.
pub proof fn lemma_skipping_outcome(
    m: SearchModel,
    entry: ScoredItem,
    p: spec_fn(usize) -> bool,
    q: spec_fn(usize) -> bool,
    steps: nat,
)
    requires
        m.halts_at(m.passing_expansion(p), start_filtered(entry, p), steps),
        agree_on(
            m.after(m.passing_expansion(p), start_filtered(entry, p), steps).visited,
            p,
            q,
        ),
    ensures
        m.outcome(m.passing_expansion(q), start_filtered(entry, q)) == m.outcome(
            m.passing_expansion(p),
            start_filtered(entry, p),
        ),
{
    let end = m.after(m.passing_expansion(p), start_filtered(entry, p), steps);
    lemma_skipping_same(m, entry, p, q, end.visited, steps);
    assert forall|i: nat| i < steps implies !m.done(
        #[trigger] m.after(m.passing_expansion(q), start_filtered(entry, q), i),
    ) by {
        assert(!m.done(m.after(m.passing_expansion(p), start_filtered(entry, p), i)));
    }
    lemma_outcome(m, m.passing_expansion(p), start_filtered(entry, p), steps);
    lemma_outcome(m, m.passing_expansion(q), start_filtered(entry, q), steps);
}

/// Predicates that say the same of all nodes of the graph make the two-hop search return the
/// same.
pub proof fn law_two_hop_search_goes_by_nodes(
    m: SearchModel,
    entry: ScoredItem,
    p: spec_fn(usize) -> bool,
    q: spec_fn(usize) -> bool,
)
    requires
        closed(m.adj),
        entry.vector < m.adj.len(),
        forall|id: usize| id < m.adj.len() ==> #[trigger] p(id) == q(id),
    ensures
        m.outcome(m.two_hop_expansion(p), start_filtered(entry, p)) == m.outcome(
            m.two_hop_expansion(q),
            start_filtered(entry, q),
        ),
{
    let expand = m.two_hop_expansion(p);
    let inv = |b: Beam| sound(m, entry, p, b);
    lemma_start_sound(m, entry, p, p);
    assert forall|b: Beam| #[trigger] inv(b) && !m.done(b) implies inv(m.step(expand, b)) && 0
        <= work_left(m.step(expand, b), m.adj.len()) < work_left(
        b,
        m.adj.len(),
    ) by {
        lemma_two_hop_step_sound(m, entry, p, b);
    }
    let end = lemma_ends(m, expand, inv, start_filtered(entry, p), 0);
    lemma_two_hop_outcome(m, entry, p, q, end);
}

/// Predicates that say the same of all nodes of the graph make the search that skips nodes return
/// the same.
pub proof fn law_skipping_search_goes_by_nodes(
    m: SearchModel,
    entry: ScoredItem,
    p: spec_fn(usize) -> bool,
    q: spec_fn(usize) -> bool,
)
    requires
        closed(m.adj),
        entry.vector < m.adj.len(),
        forall|id: usize| id < m.adj.len() ==> #[trigger] p(id) == q(id),
    ensures
        m.outcome(m.passing_expansion(p), start_filtered(entry, p)) == m.outcome(
            m.passing_expansion(q),
            start_filtered(entry, q),
        ),
{
    let expand = m.passing_expansion(p);
    let inv = |b: Beam| sound(m, entry, p, b);
    lemma_start_sound(m, entry, p, p);
    assert forall|b: Beam| #[trigger] inv(b) && !m.done(b) implies inv(m.step(expand, b)) && 0
        <= work_left(m.step(expand, b), m.adj.len()) < work_left(
        b,
        m.adj.len(),
    ) by {
        lemma_skipping_step_sound(m, entry, p, b);
    }
    let end = lemma_ends(m, expand, inv, start_filtered(entry, p), 0);
    lemma_skipping_outcome(m, entry, p, q, end);
}

} // verus!
