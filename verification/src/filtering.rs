//! How filtered searches relate to the unfiltered one.
use crate::beam::{closed, fresh, lemma_outcome, start, start_filtered, Beam, SearchModel};
use crate::locality::{law_skipping_search_goes_by_nodes, law_two_hop_search_goes_by_nodes};
use crate::scored::{lemma_rank_bounds, ScoredItem};
use crate::soundness::{everything, lemma_filter_all, lemma_search_ends};
use vstd::prelude::*;

verus! {

proof fn lemma_filter_none(s: Seq<usize>, pass: spec_fn(usize) -> bool)
    requires
        forall|i: int| 0 <= i < s.len() ==> !pass(#[trigger] s[i]),
    ensures
        s.filter(pass) == Seq::<usize>::empty(),
    decreases s.len(),
{
    reveal(Seq::filter);
    if s.len() > 0 {
        assert(forall|i: int| 0 <= i < s.len() - 1 ==> s.drop_last()[i] == s[i]);
        lemma_filter_none(s.drop_last(), pass);
    }
}

/// With a predicate that accepts everything, the filtered search with two-hop expansion returns
/// what the unfiltered search returns.
pub proof fn law_two_hop_search_without_filter(
    m: SearchModel,
    entry: ScoredItem,
    pass: spec_fn(usize) -> bool,
)
    requires
        closed(m.adj),
        entry.vector < m.adj.len(),
        forall|id: usize| id < m.adj.len() ==> #[trigger] pass(id),
    ensures
        m.outcome(m.two_hop_expansion(pass), start_filtered(entry, pass)) == m.outcome(
            m.expansion(),
            start(entry),
        ),
{
    let all = everything();
    assert forall|b: Beam, node: usize|
        #![trigger m.expand_two_hop(b, node, all)]
        m.expand_two_hop(b, node, all) == m.expand(b, node) by {
        let nbrs = m.adj[node as int];
        let found = fresh(nbrs, b.visited);
        lemma_filter_all(found, all);
        lemma_filter_none(found, |id: usize| !all(id));
    }
    assert(m.two_hop_expansion(all) =~= m.expansion());
    assert(start_filtered(entry, all) == start(entry));
    law_two_hop_search_goes_by_nodes(m, entry, pass, all);
}

/// Offering nodes keeps a beam within its size.
pub proof fn lemma_offer_all_room(m: SearchModel, b: Beam, found: Seq<usize>)
    requires
        b.top.len() <= m.ef,
    ensures
        m.offer_all(b, found).top.len() <= m.ef,
        m.offer_admitted(b, found) == m.offer_all(b, found),
    decreases found.len(),
{
    if found.len() > 0 {
        lemma_offer_all_room(m, b, found.drop_last());
        let prev = m.offer_all(b, found.drop_last());
        let x = m.item(found.last());
        lemma_rank_bounds(prev.top, x);
        if !m.admits(prev.top, x) {
            assert(m.offer(prev, x) == prev);
        }
    }
}

proof fn lemma_skipping_steps(
    m: SearchModel,
    entry: ScoredItem,
    pass: spec_fn(usize) -> bool,
    steps: nat,
)
    requires
        m.ef >= 1,
        forall|id: usize| #[trigger] pass(id),
    ensures
        m.after(m.passing_expansion(pass), start(entry), steps) == m.after(
            m.expansion(),
            start(entry),
            steps,
        ),
        m.after(m.expansion(), start(entry), steps).top.len() <= m.ef,
    decreases steps,
{
    if steps > 0 {
        lemma_skipping_steps(m, entry, pass, (steps - 1) as nat);
        let prev = m.after(m.expansion(), start(entry), (steps - 1) as nat);
        let base = Beam { frontier: prev.frontier.drop_first(), ..prev };
        let nbrs = m.adj[prev.frontier[0].vector as int];
        let found = fresh(nbrs, base.visited);
        lemma_filter_all(found, pass);
        lemma_offer_all_room(m, m.see(base, nbrs), found);
    }
}

/// With a predicate that accepts everything, the filtered search that skips nodes returns what
/// the unfiltered search returns.
pub proof fn law_skipping_search_without_filter(
    m: SearchModel,
    entry: ScoredItem,
    pass: spec_fn(usize) -> bool,
)
    requires
        closed(m.adj),
        entry.vector < m.adj.len(),
        m.ef >= 1,
        forall|id: usize| id < m.adj.len() ==> #[trigger] pass(id),
    ensures
        m.outcome(m.passing_expansion(pass), start_filtered(entry, pass)) == m.outcome(
            m.expansion(),
            start(entry),
        ),
{
    let all = everything();
    let skipping = m.passing_expansion(all);
    let plain = m.expansion();
    let b0 = start(entry);
    assert(start_filtered(entry, all) == b0);
    assert forall|steps: nat| #[trigger]
        m.after(skipping, b0, steps) == m.after(plain, b0, steps) by {
        lemma_skipping_steps(m, entry, all, steps);
    }
    let end = lemma_search_ends(m, entry);
    assert forall|i: nat| i < end implies !m.done(#[trigger] m.after(skipping, b0, i)) by {
        assert(!m.done(m.after(plain, b0, i)));
    }
    lemma_outcome(m, skipping, b0, end);
    law_skipping_search_goes_by_nodes(m, entry, pass, all);
}

/// If nothing passes, the filtered search with two-hop expansion returns nothing.
pub proof fn law_two_hop_search_of_nothing(
    m: SearchModel,
    entry: ScoredItem,
    pass: spec_fn(usize) -> bool,
)
    requires
        closed(m.adj),
        entry.vector < m.adj.len(),
        forall|id: usize| id < m.adj.len() ==> !#[trigger] pass(id),
    ensures
        m.outcome(m.two_hop_expansion(pass), start_filtered(entry, pass)).len() == 0,
{
    let none = |id: usize| false;
    let expand = m.two_hop_expansion(none);
    let b0 = start_filtered(entry, none);
    let chosen = choose|steps: nat| m.halts_at(expand, b0, steps);
    lemma_two_hop_empty(m, entry, none, chosen);
    law_two_hop_search_goes_by_nodes(m, entry, pass, none);
}

proof fn lemma_scan_nothing(
    m: SearchModel,
    b: Beam,
    nbrs: Seq<usize>,
    pass: spec_fn(usize) -> bool,
)
    requires
        forall|id: usize| !#[trigger] pass(id),
    ensures
        m.scan(b, nbrs, pass).top == b.top,
{
    lemma_filter_none(fresh(nbrs, b.visited), pass);
}

proof fn lemma_scan_around_nothing(
    m: SearchModel,
    b: Beam,
    mids: Seq<usize>,
    pass: spec_fn(usize) -> bool,
)
    requires
        forall|id: usize| !#[trigger] pass(id),
    ensures
        m.scan_around(b, mids, pass).top == b.top,
    decreases mids.len(),
{
    if mids.len() > 0 {
        lemma_scan_around_nothing(m, b, mids.drop_last(), pass);
        lemma_scan_nothing(
            m,
            m.scan_around(b, mids.drop_last(), pass),
            m.adj[mids.last() as int],
            pass,
        );
    }
}

proof fn lemma_two_hop_empty(
    m: SearchModel,
    entry: ScoredItem,
    pass: spec_fn(usize) -> bool,
    steps: nat,
)
    requires
        forall|id: usize| !#[trigger] pass(id),
    ensures
        m.after(m.two_hop_expansion(pass), start_filtered(entry, pass), steps).top.len() == 0,
    decreases steps,
{
    if steps > 0 {
        lemma_two_hop_empty(m, entry, pass, (steps - 1) as nat);
        let prev = m.after(
            m.two_hop_expansion(pass),
            start_filtered(entry, pass),
            (steps - 1) as nat,
        );
        let base = Beam { frontier: prev.frontier.drop_first(), ..prev };
        let nbrs = m.adj[prev.frontier[0].vector as int];
        lemma_scan_nothing(m, base, nbrs, pass);
        lemma_scan_around_nothing(
            m,
            m.scan(base, nbrs, pass),
            fresh(nbrs, base.visited).filter(|id: usize| !pass(id)),
            pass,
        );
    }
}

/// If nothing passes, the filtered search that skips nodes returns nothing.
pub proof fn law_skipping_search_of_nothing(
    m: SearchModel,
    entry: ScoredItem,
    pass: spec_fn(usize) -> bool,
)
    requires
        closed(m.adj),
        entry.vector < m.adj.len(),
        forall|id: usize| id < m.adj.len() ==> !#[trigger] pass(id),
    ensures
        m.outcome(m.passing_expansion(pass), start_filtered(entry, pass)).len() == 0,
{
    let none = |id: usize| false;
    let expand = m.passing_expansion(none);
    let b0 = start_filtered(entry, none);
    let chosen = choose|steps: nat| m.halts_at(expand, b0, steps);
    lemma_skipping_empty(m, entry, none, chosen);
    law_skipping_search_goes_by_nodes(m, entry, pass, none);
}

proof fn lemma_skipping_empty(
    m: SearchModel,
    entry: ScoredItem,
    pass: spec_fn(usize) -> bool,
    steps: nat,
)
    requires
        forall|id: usize| !#[trigger] pass(id),
    ensures
        m.after(m.passing_expansion(pass), start_filtered(entry, pass), steps).top.len() == 0,
    decreases steps,
{
    if steps > 0 {
        lemma_skipping_empty(m, entry, pass, (steps - 1) as nat);
        let prev = m.after(
            m.passing_expansion(pass),
            start_filtered(entry, pass),
            (steps - 1) as nat,
        );
        let nbrs = m.adj[prev.frontier[0].vector as int];
        lemma_filter_none(fresh(nbrs, prev.visited), pass);
    }
}

} // verus!
