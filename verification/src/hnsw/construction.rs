//! How the levels of an index come about, node by node.
use crate::beam::{closed, start};
use crate::graph::growable::{fronted, pushed, relink};
use crate::graph::insertion::{arranged, insertion_plan, lemma_shrunk, relisted};
use crate::graph::GraphModel;
use crate::hnsw::acorn::lemma_arranged;
use crate::hnsw::hierarchy::{descent, hierarchy_ok, level_ok, nested_at};
use crate::permutation::is_permutation;
use crate::scored::ScoredItem;
use crate::soundness::{law_greedy_walk_ends_at_local_minimum, law_search_is_sound};
use vstd::prelude::*;

verus! {

/// What the construction of an index goes by.
pub struct Construction {
    /// The vectors in the order in which they are inserted.
    pub ids: Seq<usize>,
    /// The number of levels above the ground level.
    pub max_level: nat,
    /// The number of neighbours per vector on an upper level; twice as many on the ground level.
    pub m: usize,
    /// The size of the candidate list.
    pub ef: usize,
    /// The distance from a vector that is inserted to another one.
    pub from: spec_fn(usize, usize) -> i64,
    /// The distance between two vectors that are compared as neighbours.
    pub between: spec_fn(usize, usize) -> i64,
    /// The test without relaxation.
    pub within: spec_fn(i64, i64) -> bool,
}

/// The links of a new node on one level: its forward neighbours and the new lists of those.
pub type Links = (Seq<usize>, Seq<(usize, Seq<usize>)>);

impl Construction {
    pub open spec fn distances(self, inserted: usize) -> spec_fn(usize) -> i64 {
        |id: usize| (self.from)(inserted, id)
    }

    pub open spec fn node_distance(self, g: GraphModel) -> spec_fn(usize, usize) -> i64 {
        |a: usize, b: usize| (self.between)(g.external(a), g.external(b))
    }

    /// The candidates for the vector `inserted` that a search of `g` from `entry` finds.
    pub open spec fn candidates(self, g: GraphModel, inserted: usize, entry: ScoredItem) -> Seq<
        ScoredItem,
    > {
        let s = g.search_by(self.distances(inserted), self.within, self.ef, 0);
        s.outcome(s.expansion(), start(entry))
    }

    /// The item that every search starts from: the first node of the highest level.
    pub open spec fn first_entry(self, inserted: usize) -> ScoredItem {
        ScoredItem { distance: (self.from)(inserted, self.ids[0]), vector: 0 }
    }

    /// The item that the search for `inserted` starts from at level index `c`. The levels above
    /// `level` are walked greedily; from there on, the nearest candidate of one level is the
    /// entry of the next. A vector that is only on the ground level goes without both.
    pub open spec fn upper_entry(
        self,
        levels: Seq<GraphModel>,
        inserted: usize,
        level: nat,
        c: nat,
    ) -> ScoredItem
        decreases c,
    {
        if level == 0 {
            self.first_entry(inserted)
        } else if c + level <= self.max_level || c == 0 {
            descent(levels, self.distances(inserted), self.within, self.first_entry(inserted), c)
        } else {
            let above = (c - 1) as nat;
            self.candidates(
                levels[above as int],
                inserted,
                self.upper_entry(levels, inserted, level, above),
            )[0]
        }
    }

    /// The item that the search for `inserted` starts from on the ground level.
    pub open spec fn bottom_entry(
        self,
        levels: Seq<GraphModel>,
        inserted: usize,
        level: nat,
    ) -> ScoredItem {
        let x = self.upper_entry(levels, inserted, level, self.max_level);
        let id = if self.max_level > 0 {
            levels[self.max_level - 1].external(x.vector)
        } else {
            self.ids[0]
        };
        ScoredItem { distance: (self.from)(inserted, id), vector: id }
    }

    /// The candidates at level index `c` for the vector at position `p`, which is on all levels
    /// up to `level`.
    pub open spec fn found(
        self,
        levels: Seq<GraphModel>,
        p: usize,
        level: nat,
        c: nat,
    ) -> Seq<ScoredItem> {
        let inserted = self.ids[p as int];
        self.candidates(
            levels[c as int],
            inserted,
            if c < self.max_level {
                self.upper_entry(levels, inserted, level, c)
            } else {
                self.bottom_entry(levels, inserted, level)
            },
        )
    }

    /// The local id at level index `c` of the vector at position `p`.
    pub open spec fn local_id(self, p: usize, c: nat) -> usize {
        if c < self.max_level {
            p
        } else {
            self.ids[p as int]
        }
    }

    /// The degree bound at level index `c`.
    pub open spec fn degree(self, c: nat) -> nat {
        if c < self.max_level {
            self.m as nat
        } else {
            2 * self.m as nat
        }
    }

    /// The links at level index `c` of the vector at position `p`.
    pub open spec fn links(self, levels: Seq<GraphModel>, p: usize, level: nat, c: nat) -> Links {
        let g = levels[c as int];
        let plan = insertion_plan(
            g,
            self.found(levels, p, level, c),
            self.node_distance(g),
            self.degree(c),
            self.local_id(p, c),
        );
        (plan.0, plan.1)
    }

    /// The levels after the vector at position `p` was linked in, with the links that were chosen
    /// when the levels were `base`.
    pub open spec fn insert(
        self,
        levels: Seq<GraphModel>,
        base: Seq<GraphModel>,
        p: usize,
        level: nat,
    ) -> Seq<GraphModel> {
        Seq::new(
            self.max_level + 1,
            |c: int|
                if c + level < self.max_level {
                    levels[c]
                } else {
                    let links = self.links(base, p, level, c as nat);
                    pushed(
                        levels[c],
                        if c < self.max_level {
                            Some(self.ids[p as int])
                        } else {
                            None
                        },
                        links.0,
                        self.local_id(p, c as nat),
                        links.1,
                    )
                },
        )
    }

    /// The levels after `count` vectors from position `p` on were linked in, all with links that
    /// were chosen when the levels were `base`.
    pub open spec fn insert_batch(
        self,
        base: Seq<GraphModel>,
        p: usize,
        count: nat,
        level: nat,
    ) -> Seq<GraphModel>
        decreases count,
    {
        if count == 0 {
            base
        } else {
            let before = (count - 1) as nat;
            self.insert(
                self.insert_batch(base, p, before, level),
                base,
                (p + before) as usize,
                level,
            )
        }
    }

    /// The levels after the vectors at the positions `p..end` were linked in, batch by batch. The
    /// batches grow from `size` up to `cap`.
    pub open spec fn insert_run(
        self,
        levels: Seq<GraphModel>,
        p: usize,
        end: usize,
        size: nat,
        cap: nat,
        level: nat,
    ) -> Seq<GraphModel>
        decreases end - p,
    {
        if p >= end || size == 0 {
            levels
        } else {
            let count: nat = if size <= end - p {
                size
            } else {
                (end - p) as nat
            };
            self.insert_run(
                self.insert_batch(levels, p, count, level),
                (p + count) as usize,
                end,
                grown(size, cap),
                cap,
                level,
            )
        }
    }

    /// The levels after the vectors at the positions `p..end` were linked in, one after the other.
    pub open spec fn insert_each(
        self,
        levels: Seq<GraphModel>,
        p: usize,
        end: usize,
        level: nat,
    ) -> Seq<GraphModel>
        decreases end - p,
    {
        if p >= end {
            levels
        } else {
            self.insert_each(
                self.insert(levels, levels, p, level),
                (p + 1) as usize,
                end,
                level,
            )
        }
    }

    /// What holds of one level while the index is built.
    pub open spec fn level_sound(self, g: GraphModel, c: int) -> bool {
        &&& g.valid()
        &&& closed(g.adj)
        &&& 0 < g.adj.len() <= self.ids.len()
        &&& g.max_degree == self.degree(c as nat)
        &&& if c < self.max_level {
            g.ids == Some(self.ids.take(g.adj.len() as int))
        } else {
            g.ids is None && g.adj.len() == self.ids.len()
        }
    }

    /// No level has more nodes than the one below.
    pub open spec fn sizes_grow(self, levels: Seq<GraphModel>, c: int) -> bool {
        levels[c].adj.len() <= levels[c + 1].adj.len()
    }

    /// What holds of the levels while the index is built.
    pub open spec fn levels_sound(self, levels: Seq<GraphModel>) -> bool {
        &&& levels.len() == self.max_level + 1
        &&& forall|c: int| 0 <= c <= self.max_level ==> self.level_sound(#[trigger] levels[c], c)
        &&& forall|c: int| 0 <= c < self.max_level ==> #[trigger] self.sizes_grow(levels, c)
    }

    /// The parameters are in range.
    pub open spec fn sound(self) -> bool {
        &&& is_permutation(self.ids)
        &&& 0 < self.ids.len() < u32::MAX
        &&& 2 * self.m <= usize::MAX
        &&& self.ids.len() > 1 ==> self.m >= 1 && self.ef >= 1
    }
}

/// The next batch size.
pub open spec fn grown(size: nat, cap: nat) -> nat {
    if size < cap {
        if 2 * size <= cap {
            2 * size
        } else {
            cap
        }
    } else {
        size
    }
}

/// Batches of one vector are the vectors one after the other.
pub proof fn lemma_batches_of_one(
    cons: Construction,
    levels: Seq<GraphModel>,
    p: usize,
    end: usize,
    cap: nat,
    level: nat,
)
    requires
        cap <= 1,
    ensures
        cons.insert_run(levels, p, end, 1, cap, level) == cons.insert_each(levels, p, end, level),
    decreases end - p,
{
    if p < end {
        reveal_with_fuel(Construction::insert_batch, 2);
        assert(cons.insert_batch(levels, p, 1, level) == cons.insert(levels, levels, p, level));
        lemma_batches_of_one(
            cons,
            cons.insert(levels, levels, p, level),
            (p + 1) as usize,
            end,
            cap,
            level,
        );
    }
}

pub proof fn lemma_sizes(cons: Construction, levels: Seq<GraphModel>, a: int, b: int)
    requires
        cons.levels_sound(levels),
        0 <= a <= b <= cons.max_level,
    ensures
        levels[a].adj.len() <= levels[b].adj.len(),
    decreases b - a,
{
    if a < b {
        assert(cons.sizes_grow(levels, b - 1));
        lemma_sizes(cons, levels, a, b - 1);
    }
}

/// Every node has a vector.
pub proof fn lemma_level_ids(cons: Construction, levels: Seq<GraphModel>, c: int)
    requires
        cons.sound(),
        cons.levels_sound(levels),
        0 <= c <= cons.max_level,
    ensures
        levels[c].ids_below(cons.ids.len()),
{
    let g = levels[c];
    assert(cons.level_sound(g, c));
    assert forall|id: usize| id < g.adj.len() implies #[trigger] g.has_external(id) && g.external(
        id,
    ) < cons.ids.len() by {
        if c < cons.max_level {
            assert(g.external(id) == cons.ids[id as int]);
            assert(cons.ids[id as int] < cons.ids.len());
        }
    }
}

/// A search for candidates finds at least one, and only nodes.
pub proof fn lemma_candidates(cons: Construction, g: GraphModel, inserted: usize, entry: ScoredItem)
    requires
        closed(g.adj),
        cons.ef >= 1,
        entry.vector < g.adj.len(),
    ensures
        cons.candidates(g, inserted, entry).len() >= 1,
        forall|i: int|
            0 <= i < cons.candidates(g, inserted, entry).len() ==> (
            #[trigger] cons.candidates(g, inserted, entry)[i]).vector < g.adj.len(),
{
    law_search_is_sound(g.search_by(cons.distances(inserted), cons.within, cons.ef, 0), entry);
}

proof fn lemma_descent(
    cons: Construction,
    levels: Seq<GraphModel>,
    distance: spec_fn(usize) -> i64,
    entry: ScoredItem,
    c: nat,
)
    requires
        cons.levels_sound(levels),
        c <= cons.max_level,
        entry.vector == 0,
    ensures
        c > 0 ==> descent(levels, distance, cons.within, entry, c).vector < levels[c - 1].adj.len(),
        descent(levels, distance, cons.within, entry, c).vector < levels[c as int].adj.len(),
    decreases c,
{
    assert(cons.level_sound(levels[c as int], c as int));
    if c > 0 {
        let above = (c - 1) as nat;
        lemma_descent(cons, levels, distance, entry, above);
        assert(cons.level_sound(levels[above as int], above as int));
        assert(cons.sizes_grow(levels, above as int));
        law_greedy_walk_ends_at_local_minimum(
            levels[above as int].search_by(distance, cons.within, 0, 0),
            descent(levels, distance, cons.within, entry, above),
        );
    }
}

/// The item that a search starts from is a node of its level, and of the one above.
pub proof fn lemma_upper_entry(
    cons: Construction,
    levels: Seq<GraphModel>,
    inserted: usize,
    level: nat,
    c: nat,
)
    requires
        cons.levels_sound(levels),
        cons.ef >= 1,
        c <= cons.max_level,
    ensures
        c > 0 ==> cons.upper_entry(levels, inserted, level, c).vector < levels[c - 1].adj.len(),
        cons.upper_entry(levels, inserted, level, c).vector < levels[c as int].adj.len(),
    decreases c,
{
    assert(cons.level_sound(levels[c as int], c as int));
    if c > 0 {
        assert(cons.level_sound(levels[c - 1], c - 1));
        assert(cons.sizes_grow(levels, c - 1));
    }
    if level > 0 {
        if c + level <= cons.max_level || c == 0 {
            lemma_descent(
                cons,
                levels,
                cons.distances(inserted),
                cons.first_entry(inserted),
                c,
            );
        } else {
            let above = (c - 1) as nat;
            lemma_upper_entry(cons, levels, inserted, level, above);
            lemma_candidates(
                cons,
                levels[above as int],
                inserted,
                cons.upper_entry(levels, inserted, level, above),
            );
            let found = cons.candidates(
                levels[above as int],
                inserted,
                cons.upper_entry(levels, inserted, level, above),
            );
            assert(found[0].vector < levels[above as int].adj.len());
        }
    }
}

pub proof fn lemma_bottom_entry(
    cons: Construction,
    levels: Seq<GraphModel>,
    inserted: usize,
    level: nat,
)
    requires
        cons.sound(),
        cons.levels_sound(levels),
        cons.ef >= 1,
    ensures
        cons.bottom_entry(levels, inserted, level).vector < cons.ids.len(),
{
    if cons.max_level > 0 {
        lemma_upper_entry(cons, levels, inserted, level, cons.max_level);
        lemma_level_ids(cons, levels, cons.max_level - 1);
        let x = cons.upper_entry(levels, inserted, level, cons.max_level);
        assert(levels[cons.max_level - 1].has_external(x.vector));
    } else {
        assert(cons.ids[0] < cons.ids.len());
    }
}

/// The candidates at a level are nodes of it, and there is at least one.
pub proof fn lemma_found(
    cons: Construction,
    levels: Seq<GraphModel>,
    p: usize,
    level: nat,
    c: nat,
)
    requires
        cons.sound(),
        cons.levels_sound(levels),
        cons.ef >= 1,
        c <= cons.max_level,
    ensures
        cons.found(levels, p, level, c).len() >= 1,
        forall|i: int|
            0 <= i < cons.found(levels, p, level, c).len() ==> (
            #[trigger] cons.found(levels, p, level, c)[i]).vector < levels[c as int].adj.len(),
{
    let inserted = cons.ids[p as int];
    assert(cons.level_sound(levels[c as int], c as int));
    if c < cons.max_level {
        lemma_upper_entry(cons, levels, inserted, level, c);
        lemma_candidates(
            cons,
            levels[c as int],
            inserted,
            cons.upper_entry(levels, inserted, level, c),
        );
    } else {
        lemma_bottom_entry(cons, levels, inserted, level);
        lemma_candidates(
            cons,
            levels[c as int],
            inserted,
            cons.bottom_entry(levels, inserted, level),
        );
    }
}

/// All ids of `list` are below `n`.
pub open spec fn below(list: Seq<usize>, n: nat) -> bool {
    forall|i: int| 0 <= i < list.len() ==> #[trigger] list[i] < n
}

/// The links of a new node keep the degree bound and lead to nodes of the level.
pub open spec fn links_sound(links: Links, n: nat, degree: nat) -> bool {
    &&& links.0.len() <= degree
    &&& below(links.0, n)
    &&& forall|i: int|
        0 <= i < links.1.len() ==> {
            &&& (#[trigger] links.1[i]).0 < n
            &&& links.1[i].1.len() <= degree
            &&& below(links.1[i].1, n)
        }
}

/// The new list of a neighbour keeps the degree bound and leads to nodes of the level.
proof fn lemma_relisted(
    g: GraphModel,
    distance: spec_fn(usize, usize) -> i64,
    node: usize,
    inserted: usize,
)
    requires
        closed(g.adj),
        node < g.adj.len(),
        inserted < g.adj.len(),
        g.max_degree >= 1,
    ensures
        relisted(g, distance, node, inserted).len() <= g.max_degree,
        below(relisted(g, distance, node, inserted), g.adj.len()),
{
    let all = g.adj[node as int].push(inserted);
    let score = |id: usize| distance(node, id);
    let items = arranged(all, score);
    lemma_arranged(all, score);
    lemma_shrunk(items, distance, g.max_degree as nat);
    let list = relisted(g, distance, node, inserted);
    assert forall|i: int| 0 <= i < list.len() implies #[trigger] list[i] < g.adj.len() by {
        let j = choose|j: int| 0 <= j < items.len() && list[i] == (#[trigger] items[j]).vector;
        assert(items.contains(items[j]));
        assert(all.contains(items[j].vector));
        let l = choose|l: int| 0 <= l < all.len() && all[l] == items[j].vector;
        if l < g.adj[node as int].len() {
            assert(g.adj[node as int][l] < g.adj.len());
        }
    }
}

pub proof fn lemma_links(
    cons: Construction,
    levels: Seq<GraphModel>,
    p: usize,
    level: nat,
    c: nat,
)
    requires
        cons.sound(),
        cons.levels_sound(levels),
        cons.m >= 1,
        cons.ef >= 1,
        c <= cons.max_level,
        cons.local_id(p, c) < levels[c as int].adj.len(),
    ensures
        links_sound(cons.links(levels, p, level, c), levels[c as int].adj.len(), cons.degree(c)),
{
    let g = levels[c as int];
    let n = g.adj.len();
    let distance = cons.node_distance(g);
    let found = cons.found(levels, p, level, c);
    let links = cons.links(levels, p, level, c);
    assert(cons.level_sound(g, c as int));
    lemma_found(cons, levels, p, level, c);
    lemma_shrunk(found, distance, cons.degree(c));
    assert forall|i: int| 0 <= i < links.0.len() implies #[trigger] links.0[i] < n by {
        let j = choose|j: int| 0 <= j < found.len() && links.0[i] == (#[trigger] found[j]).vector;
        assert(found[j].vector < n);
    }
    assert forall|i: int| 0 <= i < links.1.len() implies {
        &&& (#[trigger] links.1[i]).0 < n
        &&& links.1[i].1.len() <= cons.degree(c)
        &&& below(links.1[i].1, n)
    } by {
        assert(links.0[i] < n);
        lemma_relisted(g, distance, links.0[i], cons.local_id(p, c));
    }
}

/// Replacing lists by sound ones keeps a graph sound.
proof fn lemma_relink_sound(
    adj: Seq<Seq<usize>>,
    links: Seq<(usize, Seq<usize>)>,
    degree: nat,
)
    requires
        closed(adj),
        forall|u: int| 0 <= u < adj.len() ==> (#[trigger] adj[u]).len() <= degree,
        forall|i: int|
            0 <= i < links.len() ==> {
                &&& (#[trigger] links[i]).0 < adj.len()
                &&& links[i].1.len() <= degree
                &&& below(links[i].1, adj.len())
            },
    ensures
        relink(adj, links).len() == adj.len(),
        closed(relink(adj, links)),
        forall|u: int| 0 <= u < adj.len() ==> (#[trigger] relink(adj, links)[u]).len() <= degree,
    decreases links.len(),
{
    if links.len() > 0 {
        let rest = links.drop_last();
        assert(forall|i: int| 0 <= i < rest.len() ==> rest[i] == links[i]);
        lemma_relink_sound(adj, rest, degree);
        let last = links[links.len() - 1];
        let before = relink(adj, rest);
        let after = relink(adj, links);
        assert(after == before.update(last.0 as int, last.1));
        assert forall|u: int, j: int| 0 <= u < after.len() && 0 <= j < after[u].len() implies
            #[trigger] after[u][j] < after.len() by {
            if u != last.0 {
                assert(before[u][j] < before.len());
            }
        }
        assert forall|u: int| 0 <= u < adj.len() implies (#[trigger] after[u]).len() <= degree by {
            assert(before[u].len() <= degree);
        }
    }
}

/// Linking a vector in keeps the levels sound.
pub proof fn lemma_insert(
    cons: Construction,
    levels: Seq<GraphModel>,
    base: Seq<GraphModel>,
    p: usize,
    level: nat,
)
    requires
        cons.sound(),
        cons.m >= 1,
        cons.ef >= 1,
        cons.levels_sound(levels),
        cons.levels_sound(base),
        same_sizes(levels, base),
        level <= cons.max_level,
        p < base[cons.max_level - level].adj.len(),
    ensures
        cons.levels_sound(cons.insert(levels, base, p, level)),
        same_sizes(cons.insert(levels, base, p, level), base),
{
    let after = cons.insert(levels, base, p, level);
    let top = cons.max_level - level;
    assert(cons.level_sound(base[top], top));
    assert forall|c: int| 0 <= c <= cons.max_level implies cons.level_sound(
        #[trigger] after[c],
        c,
    ) && after[c].adj.len() == levels[c].adj.len() by {
        assert(cons.level_sound(levels[c], c));
        assert(cons.level_sound(base[c], c));
        if c >= top {
            lemma_sizes(cons, base, top, c);
            let g = levels[c];
            assert(g.adj.len() == base[c].adj.len());
            let local = cons.local_id(p, c as nat);
            assert(cons.ids[p as int] < cons.ids.len());
            lemma_links(cons, base, p, level, c as nat);
            let links = cons.links(base, p, level, c as nat);
            let forward = fronted(g.adj, local, links.0);
            assert forall|u: int, j: int|
                0 <= u < forward.len() && 0 <= j < forward[u].len() implies #[trigger] forward[u][j]
                < forward.len() by {
                if u != local || j >= links.0.len() {
                    assert(forward[u][j] == g.adj[u][j]);
                    assert(g.adj[u][j] < g.adj.len());
                } else {
                    assert(links.0[j] < g.adj.len());
                }
            }
            assert forall|u: int| 0 <= u < forward.len() implies (#[trigger] forward[u]).len()
                <= cons.degree(c as nat) by {
                assert(g.adj[u].len() <= g.max_degree);
            }
            lemma_relink_sound(forward, links.1, cons.degree(c as nat));
            if c < cons.max_level {
                let names = cons.ids.take(g.adj.len() as int);
                assert(names.update(p as int, cons.ids[p as int]) =~= names);
            }
        }
    }
    assert forall|c: int| 0 <= c < cons.max_level implies #[trigger] cons.sizes_grow(after, c) by {
        assert(cons.sizes_grow(levels, c));
        assert(after[c].adj.len() == levels[c].adj.len());
        assert(after[c + 1].adj.len() == levels[c + 1].adj.len());
    }
}

/// The levels have the same numbers of nodes.
pub open spec fn same_sizes(a: Seq<GraphModel>, b: Seq<GraphModel>) -> bool {
    &&& a.len() == b.len()
    &&& forall|c: int| 0 <= c < a.len() ==> (#[trigger] a[c]).adj.len() == b[c].adj.len()
}

/// Sound levels make up a hierarchy.
pub proof fn lemma_sound_hierarchy(cons: Construction, levels: Seq<GraphModel>)
    requires
        cons.sound(),
        cons.levels_sound(levels),
    ensures
        hierarchy_ok(levels, cons.ids.len()),
{
    let n = cons.ids.len();
    let last = levels.len() - 1;
    assert forall|c: int| 0 <= c < levels.len() implies level_ok(
        #[trigger] levels[c],
        n,
        c == last,
    ) by {
        let g = levels[c];
        assert(cons.level_sound(g, c));
        lemma_level_ids(cons, levels, c);
        if c < last {
            assert forall|a: usize, b: usize|
                a < g.adj.len() && b < g.adj.len() && #[trigger] g.external(a)
                    == #[trigger] g.external(b) implies a == b by {
                if a < b {
                    assert(cons.ids[a as int] != cons.ids[b as int]);
                } else if b < a {
                    assert(cons.ids[b as int] != cons.ids[a as int]);
                }
            }
        }
    }
    assert forall|c: int| 0 <= c < last implies #[trigger] nested_at(levels, c) by {
        assert(cons.sizes_grow(levels, c));
        assert(cons.level_sound(levels[c], c));
        assert(cons.level_sound(levels[c + 1], c + 1));
        if c + 1 < last {
            assert forall|id: usize| id < levels[c].adj.len() implies #[trigger] levels[c].external(
                id,
            ) == levels[c + 1].external(id) by {
                assert(levels[c].external(id) == cons.ids[id as int]);
            }
        }
    }
}

} // verus!
