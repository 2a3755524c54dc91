//! Scored items and the two ordered collections that drive a graph search.
use vstd::prelude::*;

verus! {

/// A node together with its distance from the query.
///
/// Distances are order-preserving integers: the smaller one is the nearer one, whatever the
/// metric that produced it.
#[derive(Clone, Copy, Debug, PartialEq, Eq, Structural)]
pub struct ScoredItem {
    pub distance: i64,
    pub vector: usize,
}

/// `a` comes strictly before `b`: nearer, or equally near with the smaller node.
pub open spec fn before(a: ScoredItem, b: ScoredItem) -> bool {
    a.distance < b.distance || (a.distance == b.distance && a.vector < b.vector)
}

/// The items stand in non-descending order.
pub open spec fn in_order(s: Seq<ScoredItem>) -> bool {
    forall|i: int, j: int| 0 <= i < j < s.len() ==> !before(#[trigger] s[j], #[trigger] s[i])
}

/// The number of leading items of `s` that come strictly before `x`.
pub open spec fn rank(s: Seq<ScoredItem>, x: ScoredItem) -> nat
    decreases s.len(),
{
    if s.len() == 0 || !before(s[0], x) {
        0
    } else {
        1 + rank(s.drop_first(), x)
    }
}

/// `s` with `x` put in its place.
pub open spec fn place(s: Seq<ScoredItem>, x: ScoredItem) -> Seq<ScoredItem> {
    s.insert(rank(s, x) as int, x)
}

/// The node ids of `s`, in order.
pub open spec fn ids(s: Seq<ScoredItem>) -> Seq<usize> {
    s.map_values(|x: ScoredItem| x.vector)
}

pub proof fn lemma_rank_bounds(s: Seq<ScoredItem>, x: ScoredItem)
    ensures
        rank(s, x) <= s.len(),
        forall|i: int| 0 <= i < rank(s, x) ==> before(#[trigger] s[i], x),
        rank(s, x) < s.len() ==> !before(s[rank(s, x) as int], x),
    decreases s.len(),
{
    if s.len() > 0 && before(s[0], x) {
        lemma_rank_bounds(s.drop_first(), x);
        assert forall|i: int| 0 <= i < rank(s, x) implies before(#[trigger] s[i], x) by {
            if i > 0 {
                assert(s.drop_first()[i - 1] == s[i]);
            }
        }
    }
}

/// In an ordered sequence the rank is the one position that splits the items before `x` from
/// the rest.
pub proof fn lemma_rank_unique(s: Seq<ScoredItem>, x: ScoredItem, p: int)
    requires
        in_order(s),
        0 <= p <= s.len(),
        p > 0 ==> before(s[p - 1], x),
        p < s.len() ==> !before(s[p], x),
    ensures
        p == rank(s, x),
{
    lemma_rank_bounds(s, x);
    let r = rank(s, x) as int;
    if r < p {
        assert(!before(s[p - 1], s[r]) || r == p - 1);
    }
}

pub proof fn lemma_place(s: Seq<ScoredItem>, x: ScoredItem)
    requires
        in_order(s),
    ensures
        in_order(place(s, x)),
        place(s, x).len() == s.len() + 1,
        forall|y: ScoredItem| #[trigger] place(s, x).contains(y) <==> s.contains(y) || y == x,
{
    lemma_rank_bounds(s, x);
    let r = rank(s, x) as int;
    let t = place(s, x);
    assert forall|y: ScoredItem| #[trigger] t.contains(y) <==> s.contains(y) || y == x by {
        if s.contains(y) {
            let i = choose|i: int| 0 <= i < s.len() && s[i] == y;
            if i < r {
                assert(t[i] == y);
            } else {
                assert(t[i + 1] == y);
            }
        }
        if y == x {
            assert(t[r] == y);
        }
        if t.contains(y) && y != x {
            let i = choose|i: int| 0 <= i < t.len() && t[i] == y;
            if i < r {
                assert(s[i] == y);
            } else {
                assert(s[i - 1] == y);
            }
        }
    }
    assert forall|i: int, j: int| 0 <= i < j < t.len() implies !before(
        #[trigger] t[j],
        #[trigger] t[i],
    ) by {
        if i < r && j == r {
            assert(before(s[i], x));
        } else if i == r && j > r {
            assert(!before(s[r], x));
            assert(j == r + 1 || !before(s[j - 1], s[r]));
        } else {
            let a = if i < r { i } else { i - 1 };
            let b = if j < r { j } else { j - 1 };
            assert(t[i] == s[a] && t[j] == s[b]);
        }
    }
}

/// Whether `a` comes strictly before `b`.
pub fn is_before(a: &ScoredItem, b: &ScoredItem) -> (result: bool)
    ensures
        result == before(*a, *b),
{
    a.distance < b.distance || (a.distance == b.distance && a.vector < b.vector)
}

/// The best items found so far, nearest first; the worst one is at hand for eviction.
pub struct TopList {
    items: Vec<ScoredItem>,
}

impl View for TopList {
    type V = Seq<ScoredItem>;

    closed spec fn view(&self) -> Seq<ScoredItem> {
        self.items@
    }
}

impl TopList {
    pub fn new() -> (list: TopList)
        ensures
            list@ == Seq::<ScoredItem>::empty(),
    {
        TopList { items: Vec::new() }
    }

    pub fn len(&self) -> (n: usize)
        ensures
            n == self@.len(),
    {
        self.items.len()
    }

    /// The worst item, if any.
    pub fn peek(&self) -> (worst: Option<ScoredItem>)
        ensures
            worst == (if self@.len() == 0 {
                None
            } else {
                Some(self@.last())
            }),
    {
        if self.items.len() == 0 {
            None
        } else {
            Some(self.items[self.items.len() - 1])
        }
    }

    /// The item at position `i`, counted from the nearest.
    pub fn item(&self, i: usize) -> (x: ScoredItem)
        requires
            i < self@.len(),
        ensures
            x == self@[i as int],
    {
        self.items[i]
    }

    pub fn push(&mut self, x: ScoredItem)
        requires
            in_order(old(self)@),
        ensures
            final(self)@ == place(old(self)@, x),
            in_order(final(self)@),
    {
        let mut lo: usize = 0;
        let mut hi: usize = self.items.len();
        while lo < hi
            invariant
                0 <= lo <= hi <= self.items@.len(),
                in_order(self.items@),
                self.items@ == old(self).items@,
                lo > 0 ==> before(self.items@[lo - 1], x),
                hi < self.items@.len() ==> !before(self.items@[hi as int], x),
            decreases hi - lo,
        {
            let mid: usize = lo + (hi - lo) / 2;
            if is_before(&self.items[mid], &x) {
                lo = mid + 1;
            } else {
                hi = mid;
            }
        }
        proof {
            lemma_rank_unique(self.items@, x, lo as int);
            lemma_place(self.items@, x);
        }
        self.items.insert(lo, x);
    }

    /// Drops the worst item.
    pub fn pop(&mut self)
        requires
            old(self)@.len() > 0,
        ensures
            final(self)@ == old(self)@.drop_last(),
    {
        let _ = self.items.pop();
        assert(self@ =~= old(self)@.drop_last());
    }

    /// The items, nearest first.
    pub fn into_sorted_vec(self) -> (items: Vec<ScoredItem>)
        ensures
            items@ == self@,
    {
        self.items
    }
}

/// The items still to be visited; the nearest one leaves first.
pub struct Frontier {
    /// Farthest first, so that the nearest item is the last of the vector.
    items: Vec<ScoredItem>,
}

impl View for Frontier {
    type V = Seq<ScoredItem>;

    /// The items, nearest first.
    closed spec fn view(&self) -> Seq<ScoredItem> {
        self.items@.reverse()
    }
}

impl Frontier {
    pub fn new() -> (frontier: Frontier)
        ensures
            frontier@ == Seq::<ScoredItem>::empty(),
    {
        let frontier = Frontier { items: Vec::new() };
        assert(frontier@ =~= Seq::<ScoredItem>::empty());
        frontier
    }

    pub fn push(&mut self, x: ScoredItem)
        requires
            in_order(old(self)@),
        ensures
            final(self)@ == place(old(self)@, x),
            in_order(final(self)@),
    {
        let mut lo: usize = 0;
        let mut hi: usize = self.items.len();
        let ghost s = self@;
        while lo < hi
            invariant
                0 <= lo <= hi <= self.items@.len(),
                s == self@,
                s.len() == self.items@.len(),
                self.items@ == old(self).items@,
                in_order(s),
                lo > 0 ==> !before(self.items@[lo - 1], x),
                hi < self.items@.len() ==> before(self.items@[hi as int], x),
            decreases hi - lo,
        {
            let mid: usize = lo + (hi - lo) / 2;
            if is_before(&self.items[mid], &x) {
                hi = mid;
            } else {
                lo = mid + 1;
            }
        }
        proof {
            let p = s.len() - lo;
            assert(p > 0 ==> s[p - 1] == self.items@[lo as int]);
            assert(p < s.len() ==> s[p] == self.items@[lo - 1]);
            lemma_rank_unique(s, x, p);
            lemma_place(s, x);
        }
        self.items.insert(lo, x);
        assert(self@ =~= place(s, x));
    }

    /// Takes the nearest item out.
    pub fn pop(&mut self) -> (nearest: Option<ScoredItem>)
        ensures
            old(self)@.len() == 0 ==> nearest is None && final(self)@ == old(self)@,
            old(self)@.len() > 0 ==> nearest == Some(old(self)@[0]) && final(self)@
                == old(self)@.drop_first(),
    {
        let nearest = self.items.pop();
        assert(old(self)@.len() > 0 ==> self@ =~= old(self)@.drop_first());
        nearest
    }
}

} // verus!
