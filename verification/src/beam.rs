//! The mathematical model of a best-first ("beam") search over a graph.
use crate::scored::{in_order, lemma_place, place, ScoredItem};
use vstd::prelude::*;

verus! {

/// What a search is run on: the adjacency lists, the score of every node, the relaxation test
/// and the two sizes that bound the beam.
pub struct SearchModel {
    pub adj: Seq<Seq<usize>>,
    pub score: spec_fn(usize) -> i64,
    pub within: spec_fn(i64, i64) -> bool,
    pub ef: nat,
    pub k: nat,
}

/// The state between two steps of a search.
#[verifier::ext_equal]
pub struct Beam {
    /// The best items found, nearest first.
    pub top: Seq<ScoredItem>,
    /// The items still to be expanded, nearest first.
    pub frontier: Seq<ScoredItem>,
    /// The nodes that were seen.
    pub visited: Set<usize>,
}

/// Every listed neighbour is a node of the graph.
pub open spec fn closed(adj: Seq<Seq<usize>>) -> bool {
    forall|u: int, j: int|
        0 <= u < adj.len() && 0 <= j < adj[u].len() ==> #[trigger] adj[u][j] < adj.len()
}

/// The nodes of `nbrs` that are not in `visited`, each at its first occurrence.
pub open spec fn fresh(nbrs: Seq<usize>, visited: Set<usize>) -> Seq<usize>
    decreases nbrs.len(),
{
    if nbrs.len() == 0 {
        Seq::empty()
    } else {
        let rest = fresh(nbrs.drop_last(), visited);
        if visited.contains(nbrs.last()) || nbrs.drop_last().contains(nbrs.last()) {
            rest
        } else {
            rest.push(nbrs.last())
        }
    }
}

pub open spec fn max(a: nat, b: nat) -> nat {
    if a >= b {
        a
    } else {
        b
    }
}

impl SearchModel {
    pub open spec fn item(self, id: usize) -> ScoredItem {
        ScoredItem { distance: (self.score)(id), vector: id }
    }

    /// A found item joins the beam while there is room, or if it stands up to the worst item.
    pub open spec fn admits(self, top: Seq<ScoredItem>, x: ScoredItem) -> bool {
        top.len() < self.ef || (top.len() > 0 && (self.within)(x.distance, top.last().distance))
    }

    /// `top` after `x` was offered: it joins if it may, and the worst item leaves if the beam
    /// is over-full.
    pub open spec fn offer_top(self, top: Seq<ScoredItem>, x: ScoredItem) -> Seq<ScoredItem> {
        let grown = if self.admits(top, x) {
            place(top, x)
        } else {
            top
        };
        if grown.len() > self.ef {
            grown.drop_last()
        } else {
            grown
        }
    }

    pub open spec fn offer(self, b: Beam, x: ScoredItem) -> Beam {
        Beam {
            top: self.offer_top(b.top, x),
            frontier: if self.admits(b.top, x) {
                place(b.frontier, x)
            } else {
                b.frontier
            },
            visited: b.visited,
        }
    }

    /// The nodes of `found` are offered one after the other.
    pub open spec fn offer_all(self, b: Beam, found: Seq<usize>) -> Beam
        decreases found.len(),
    {
        if found.len() == 0 {
            b
        } else {
            self.offer(self.offer_all(b, found.drop_last()), self.item(found.last()))
        }
    }

    /// The search is over: nothing is left to expand, or the beam is full and the nearest item
    /// left does not stand up to the worst one found. A full beam without any item has no room
    /// at all, and nothing stands up to it.
    pub open spec fn done(self, b: Beam) -> bool {
        b.frontier.len() == 0 || (b.top.len() >= max(self.ef, self.k) && (b.top.len() == 0 || !(
        self.within)(b.frontier[0].distance, b.top.last().distance)))
    }

    /// All nodes of `nbrs` count as seen.
    pub open spec fn see(self, b: Beam, nbrs: Seq<usize>) -> Beam {
        Beam { visited: b.visited.union(nbrs.to_set()), ..b }
    }

    /// The expansion of `node`: its unseen neighbours are offered.
    pub open spec fn expand(self, b: Beam, node: usize) -> Beam {
        let nbrs = self.adj[node as int];
        self.offer_all(self.see(b, nbrs), fresh(nbrs, b.visited))
    }

    pub open spec fn expansion(self) -> spec_fn(Beam, usize) -> Beam {
        |b: Beam, node: usize| self.expand(b, node)
    }

    /// The nodes of `nbrs` count as seen, and the unseen ones that pass are offered.
    pub open spec fn scan(self, b: Beam, nbrs: Seq<usize>, pass: spec_fn(usize) -> bool) -> Beam {
        self.offer_all(self.see(b, nbrs), fresh(nbrs, b.visited).filter(pass))
    }

    /// The neighbours of each node of `mids` are scanned, one node after the other.
    pub open spec fn scan_around(
        self,
        b: Beam,
        mids: Seq<usize>,
        pass: spec_fn(usize) -> bool,
    ) -> Beam
        decreases mids.len(),
    {
        if mids.len() == 0 {
            b
        } else {
            self.scan(
                self.scan_around(b, mids.drop_last(), pass),
                self.adj[mids.last() as int],
                pass,
            )
        }
    }

    /// The two-hop expansion of `node`: its unseen neighbours that pass are offered, and the
    /// search reaches through those that do not to their own neighbours.
    pub open spec fn expand_two_hop(
        self,
        b: Beam,
        node: usize,
        pass: spec_fn(usize) -> bool,
    ) -> Beam {
        let nbrs = self.adj[node as int];
        self.scan_around(
            self.scan(b, nbrs, pass),
            fresh(nbrs, b.visited).filter(|id: usize| !pass(id)),
            pass,
        )
    }

    pub open spec fn two_hop_expansion(self, pass: spec_fn(usize) -> bool) -> spec_fn(
        Beam,
        usize,
    ) -> Beam {
        |b: Beam, node: usize| self.expand_two_hop(b, node, pass)
    }

    /// The nodes of `found` are offered one after the other; a node that may not join leaves
    /// the beam as it is.
    pub open spec fn offer_admitted(self, b: Beam, found: Seq<usize>) -> Beam
        decreases found.len(),
    {
        if found.len() == 0 {
            b
        } else {
            let prev = self.offer_admitted(b, found.drop_last());
            if self.admits(prev.top, self.item(found.last())) {
                self.offer(prev, self.item(found.last()))
            } else {
                prev
            }
        }
    }

    /// The expansion of `node` that skips the neighbours that do not pass.
    pub open spec fn expand_passing(
        self,
        b: Beam,
        node: usize,
        pass: spec_fn(usize) -> bool,
    ) -> Beam {
        let nbrs = self.adj[node as int];
        self.offer_admitted(self.see(b, nbrs), fresh(nbrs, b.visited).filter(pass))
    }

    pub open spec fn passing_expansion(self, pass: spec_fn(usize) -> bool) -> spec_fn(
        Beam,
        usize,
    ) -> Beam {
        |b: Beam, node: usize| self.expand_passing(b, node, pass)
    }

    /// The nearest of `best` and the nodes of `nbrs`; a later one wins only if strictly nearer.
    pub open spec fn nearest_of(self, best: ScoredItem, nbrs: Seq<usize>) -> ScoredItem
        decreases nbrs.len(),
    {
        if nbrs.len() == 0 {
            best
        } else {
            let prev = self.nearest_of(best, nbrs.drop_last());
            if (self.score)(nbrs.last()) < prev.distance {
                self.item(nbrs.last())
            } else {
                prev
            }
        }
    }

    /// Where a greedy walk stands after `hops` moves, each to the nearest neighbour.
    pub open spec fn walk(self, entry: ScoredItem, hops: nat) -> ScoredItem
        decreases hops,
    {
        if hops == 0 {
            entry
        } else {
            let prev = self.walk(entry, (hops - 1) as nat);
            self.nearest_of(prev, self.adj[prev.vector as int])
        }
    }

    /// No move leads nearer any more.
    pub open spec fn settled(self, x: ScoredItem) -> bool {
        self.nearest_of(x, self.adj[x.vector as int]) == x
    }

    /// Where a greedy walk from `entry` ends.
    pub open spec fn descend(self, entry: ScoredItem) -> ScoredItem {
        self.walk(entry, choose|hops: nat| self.settled(#[trigger] self.walk(entry, hops)))
    }

    /// The beam after `steps` expansions; the nearest item of the frontier is expanded first.
    pub open spec fn after(self, expand: spec_fn(Beam, usize) -> Beam, b: Beam, steps: nat) -> Beam
        decreases steps,
    {
        if steps == 0 {
            b
        } else {
            let prev = self.after(expand, b, (steps - 1) as nat);
            expand(
                Beam { frontier: prev.frontier.drop_first(), ..prev },
                prev.frontier[0].vector,
            )
        }
    }

    /// The search is over after `steps` expansions and not before.
    pub open spec fn halts_at(
        self,
        expand: spec_fn(Beam, usize) -> Beam,
        b: Beam,
        steps: nat,
    ) -> bool {
        &&& self.done(self.after(expand, b, steps))
        &&& forall|i: nat| i < steps ==> !self.done(#[trigger] self.after(expand, b, i))
    }

    /// The best items that a search from `b` ends with.
    pub open spec fn outcome(self, expand: spec_fn(Beam, usize) -> Beam, b: Beam) -> Seq<
        ScoredItem,
    > {
        self.after(expand, b, choose|steps: nat| self.halts_at(expand, b, steps)).top
    }
}

/// The beam that a search starts from: `entry` is the only item.
pub open spec fn start(entry: ScoredItem) -> Beam {
    Beam { top: seq![entry], frontier: seq![entry], visited: set![entry.vector] }
}

/// The beam that a filtered search starts from: `entry` is expanded in any case, but it is a
/// result only if it passes.
pub open spec fn start_filtered(entry: ScoredItem, pass: spec_fn(usize) -> bool) -> Beam {
    Beam {
        top: if pass(entry.vector) {
            seq![entry]
        } else {
            Seq::empty()
        },
        frontier: seq![entry],
        visited: set![entry.vector],
    }
}

/// The number of expansions of a search is determined.
pub proof fn lemma_outcome(
    m: SearchModel,
    expand: spec_fn(Beam, usize) -> Beam,
    b: Beam,
    steps: nat,
)
    requires
        m.halts_at(expand, b, steps),
    ensures
        m.outcome(expand, b) == m.after(expand, b, steps).top,
{
    let chosen = choose|s: nat| m.halts_at(expand, b, s);
    assert(m.halts_at(expand, b, chosen));
    if chosen < steps {
        assert(!m.done(m.after(expand, b, chosen)));
    }
    if steps < chosen {
        assert(!m.done(m.after(expand, b, steps)));
    }
}

/// A greedy walk never leaves a settled item.
pub proof fn lemma_walk_settled(m: SearchModel, entry: ScoredItem, hops: nat, more: nat)
    requires
        m.settled(m.walk(entry, hops)),
        hops <= more,
    ensures
        m.walk(entry, more) == m.walk(entry, hops),
    decreases more - hops,
{
    if hops < more {
        lemma_walk_settled(m, entry, hops, (more - 1) as nat);
    }
}

pub proof fn lemma_descend(m: SearchModel, entry: ScoredItem, hops: nat)
    requires
        m.settled(m.walk(entry, hops)),
    ensures
        m.descend(entry) == m.walk(entry, hops),
{
    let chosen = choose|h: nat| m.settled(#[trigger] m.walk(entry, h));
    if chosen < hops {
        lemma_walk_settled(m, entry, chosen, hops);
    } else {
        lemma_walk_settled(m, entry, hops, chosen);
    }
}

/// The nearest of several items is one of them, and none of them is nearer.
pub proof fn lemma_nearest_of(m: SearchModel, best: ScoredItem, nbrs: Seq<usize>)
    ensures
        ({
            let x = m.nearest_of(best, nbrs);
            &&& x.distance <= best.distance
            &&& x.distance == best.distance ==> x == best
            &&& x == best || (nbrs.contains(x.vector) && x == m.item(x.vector))
            &&& forall|i: int| 0 <= i < nbrs.len() ==> x.distance <= (m.score)(#[trigger] nbrs[i])
        }),
    decreases nbrs.len(),
{
    if nbrs.len() > 0 {
        let rest = nbrs.drop_last();
        lemma_nearest_of(m, best, rest);
        let x = m.nearest_of(best, nbrs);
        assert forall|i: int| 0 <= i < nbrs.len() implies x.distance <= (m.score)(
            #[trigger] nbrs[i],
        ) by {
            if i < rest.len() {
                assert(rest[i] == nbrs[i]);
            }
        }
        let prev = m.nearest_of(best, rest);
        if x != best && x == prev {
            let i = choose|i: int| 0 <= i < rest.len() && rest[i] == x.vector;
            assert(nbrs[i] == x.vector);
        } else if x != best {
            assert(nbrs[nbrs.len() - 1] == x.vector);
        }
    }
}

/// What holds of every beam that a search over `n` nodes goes through.
pub open spec fn beam_ok(b: Beam, n: nat) -> bool {
    &&& in_order(b.top)
    &&& in_order(b.frontier)
    &&& b.visited.finite()
    &&& forall|id: usize| #[trigger] b.visited.contains(id) ==> id < n
    &&& forall|x: ScoredItem| #[trigger] b.frontier.contains(x) ==> x.vector < n
}

pub proof fn lemma_visited_bound(visited: Set<usize>, n: nat)
    requires
        visited.finite(),
        forall|id: usize| #[trigger] visited.contains(id) ==> id < n,
    ensures
        visited.len() <= n,
{
    let as_int = visited.map(|id: usize| id as int);
    let range = vstd::set_lib::set_int_range(0, n as int);
    vstd::set_lib::lemma_int_range(0, n as int);
    assert(vstd::relations::injective_on(|id: usize| id as int, visited)) by {
    }
    vstd::set_lib::lemma_map_size(visited, as_int, |id: usize| id as int);
    assert(as_int.subset_of(range));
    vstd::set_lib::lemma_len_subset(as_int, range);
}

/// Offering nodes keeps the beam in order and adds at most one frontier item per node.
pub proof fn lemma_offer_all_ok(m: SearchModel, b: Beam, found: Seq<usize>, n: nat)
    requires
        beam_ok(b, n),
        forall|i: int| 0 <= i < found.len() ==> #[trigger] found[i] < n,
    ensures
        beam_ok(m.offer_all(b, found), n),
        m.offer_all(b, found).frontier.len() <= b.frontier.len() + found.len(),
        m.offer_all(b, found).visited == b.visited,
    decreases found.len(),
{
    if found.len() > 0 {
        assert(forall|i: int| 0 <= i < found.len() - 1 ==> found.drop_last()[i] == found[i]);
        lemma_offer_all_ok(m, b, found.drop_last(), n);
        lemma_offer_ok(m, m.offer_all(b, found.drop_last()), m.item(found.last()), n);
    }
}

pub proof fn lemma_offer_ok(m: SearchModel, b: Beam, x: ScoredItem, n: nat)
    requires
        beam_ok(b, n),
        x.vector < n,
    ensures
        beam_ok(m.offer(b, x), n),
        m.offer(b, x).frontier.len() <= b.frontier.len() + 1,
        m.offer(b, x).visited == b.visited,
{
    lemma_place(b.top, x);
    lemma_place(b.frontier, x);
}

/// How much work a search over `n` nodes can still do: every step makes it less.
pub open spec fn work_left(b: Beam, n: nat) -> int {
    b.frontier.len() + n - b.visited.len()
}

/// A scan keeps the beam in order and adds no work.
pub proof fn lemma_scan_ok(
    m: SearchModel,
    b: Beam,
    nbrs: Seq<usize>,
    pass: spec_fn(usize) -> bool,
    n: nat,
)
    requires
        beam_ok(b, n),
        forall|i: int| 0 <= i < nbrs.len() ==> #[trigger] nbrs[i] < n,
    ensures
        beam_ok(m.see(b, nbrs), n),
        beam_ok(m.scan(b, nbrs, pass), n),
        work_left(m.scan(b, nbrs, pass), n) <= work_left(b, n),
        m.scan(b, nbrs, pass).visited == b.visited.union(nbrs.to_set()),
        forall|i: int|
            0 <= i < fresh(nbrs, b.visited).len() ==> #[trigger] fresh(nbrs, b.visited)[i] < n,
{
    let f = fresh(nbrs, b.visited);
    lemma_fresh(nbrs, b.visited);
    assert forall|i: int| 0 <= i < f.len() implies #[trigger] f[i] < n by {
        assert(f.contains(f[i]));
    }
    f.lemma_filter_len(pass);
    assert forall|i: int| 0 <= i < f.filter(pass).len() implies #[trigger] f.filter(pass)[i]
        < n by {
        assert(f.filter(pass).contains(f.filter(pass)[i]));
        f.lemma_filter_contains_rev(pass, f.filter(pass)[i]);
    }
    lemma_offer_all_ok(m, m.see(b, nbrs), f.filter(pass), n);
}

pub proof fn lemma_scan_around_ok(
    m: SearchModel,
    b: Beam,
    mids: Seq<usize>,
    pass: spec_fn(usize) -> bool,
)
    requires
        closed(m.adj),
        beam_ok(b, m.adj.len()),
        forall|i: int| 0 <= i < mids.len() ==> #[trigger] mids[i] < m.adj.len(),
    ensures
        beam_ok(m.scan_around(b, mids, pass), m.adj.len()),
        work_left(m.scan_around(b, mids, pass), m.adj.len()) <= work_left(b, m.adj.len()),
    decreases mids.len(),
{
    if mids.len() > 0 {
        assert(forall|i: int| 0 <= i < mids.len() - 1 ==> mids.drop_last()[i] == mids[i]);
        lemma_scan_around_ok(m, b, mids.drop_last(), pass);
        lemma_scan_ok(
            m,
            m.scan_around(b, mids.drop_last(), pass),
            m.adj[mids.last() as int],
            pass,
            m.adj.len(),
        );
    }
}

pub proof fn lemma_offer_admitted_ok(m: SearchModel, b: Beam, found: Seq<usize>, n: nat)
    requires
        beam_ok(b, n),
        forall|i: int| 0 <= i < found.len() ==> #[trigger] found[i] < n,
    ensures
        beam_ok(m.offer_admitted(b, found), n),
        m.offer_admitted(b, found).frontier.len() <= b.frontier.len() + found.len(),
        m.offer_admitted(b, found).visited == b.visited,
    decreases found.len(),
{
    if found.len() > 0 {
        assert(forall|i: int| 0 <= i < found.len() - 1 ==> found.drop_last()[i] == found[i]);
        lemma_offer_admitted_ok(m, b, found.drop_last(), n);
        lemma_offer_ok(m, m.offer_admitted(b, found.drop_last()), m.item(found.last()), n);
    }
}

pub proof fn lemma_filter_push(s: Seq<usize>, x: usize, pass: spec_fn(usize) -> bool)
    ensures
        s.push(x).filter(pass) == (if pass(x) {
            s.filter(pass).push(x)
        } else {
            s.filter(pass)
        }),
{
    reveal(Seq::filter);
    assert(s.push(x).drop_last() =~= s);
}

/// The unseen neighbours are distinct, and seeing them all adds just as many nodes.
pub proof fn lemma_fresh(nbrs: Seq<usize>, visited: Set<usize>)
    requires
        visited.finite(),
    ensures
        visited.union(nbrs.to_set()).finite(),
        visited.union(nbrs.to_set()).len() == visited.len() + fresh(nbrs, visited).len(),
        fresh(nbrs, visited).no_duplicates(),
        forall|id: usize|
            #[trigger] fresh(nbrs, visited).contains(id) <==> nbrs.contains(id)
                && !visited.contains(id),
    decreases nbrs.len(),
{
    if nbrs.len() == 0 {
        assert(visited.union(nbrs.to_set()) =~= visited);
    } else {
        let rest = nbrs.drop_last();
        let x = nbrs.last();
        lemma_fresh(rest, visited);
        let f = fresh(rest, visited);
        assert(nbrs =~= rest.push(x));
        assert(forall|id: usize| nbrs.contains(id) <==> rest.contains(id) || id == x) by {
            assert forall|id: usize| rest.contains(id) || id == x implies nbrs.contains(id) by {
                if rest.contains(id) {
                    let i = choose|i: int| 0 <= i < rest.len() && rest[i] == id;
                    assert(nbrs[i] == id);
                } else {
                    assert(nbrs[nbrs.len() - 1] == id);
                }
            }
            assert forall|id: usize| nbrs.contains(id) implies rest.contains(id) || id == x by {
                let i = choose|i: int| 0 <= i < nbrs.len() && nbrs[i] == id;
                if i < rest.len() {
                    assert(rest[i] == id);
                }
            }
        }
        assert(visited.union(nbrs.to_set()) =~= visited.union(rest.to_set()).insert(x));
        if !(visited.contains(x) || rest.contains(x)) {
            assert(!visited.union(rest.to_set()).contains(x));
            assert forall|id: usize| #[trigger] f.push(x).contains(id) <==> f.contains(id) || id
                == x by {
                if f.contains(id) {
                    let i = choose|i: int| 0 <= i < f.len() && f[i] == id;
                    assert(f.push(x)[i] == id);
                }
                if id == x {
                    assert(f.push(x)[f.len() as int] == x);
                }
            }
            assert(!f.contains(x));
        } else {
            assert(visited.union(rest.to_set()).contains(x));
        }
    }
}

} // verus!
