//! Adjacency lists of bounded length in one flat vector of slots.
use crate::graph::slots::{slot_value, Slot};
use crate::graph::{lemma_take_push, n_links};
use vstd::prelude::*;

verus! {

/// What slot `j` of node `u` holds, with `width` slots per node.
pub open spec fn cell(slots: Seq<Slot>, width: nat, u: int, j: int) -> Option<u32> {
    slot_value(slots[u * width + j])
}

/// What slot `j` has to hold for the list `list`: the items come first, empty slots follow.
pub open spec fn cell_of(list: Seq<usize>, j: int) -> Option<u32> {
    if j < list.len() {
        Some(list[j] as u32)
    } else {
        None
    }
}

/// `old` with its first items replaced by `new`.
pub open spec fn overlay(old: Seq<usize>, new: Seq<usize>) -> Seq<usize> {
    if new.len() < old.len() {
        new + old.skip(new.len() as int)
    } else {
        new
    }
}

/// The ids that a slot can hold.
pub open spec fn storable(list: Seq<usize>) -> bool {
    forall|j: int| 0 <= j < list.len() ==> #[trigger] list[j] < u32::MAX
}

/// A table of `n` adjacency lists with room for `width` neighbours each.
pub struct SlotTable {
    slots: Vec<Slot>,
    width: usize,
    n: usize,
    n_links: usize,
    lists: Ghost<Seq<Seq<usize>>>,
}

proof fn lemma_index(u: int, j: int, n: int, width: int)
    by (nonlinear_arith)
    requires
        0 <= u < n,
        0 <= j < width,
    ensures
        0 <= u * width + j < n * width,
        u * width + width <= n * width,
{
}

proof fn lemma_distinct(u: int, j: int, v: int, l: int, width: int)
    by (nonlinear_arith)
    requires
        0 <= j < width,
        0 <= l < width,
        u * width + j == v * width + l,
    ensures
        u == v,
        j == l,
{
}

pub proof fn lemma_n_links_update(adj: Seq<Seq<usize>>, u: int, list: Seq<usize>)
    requires
        0 <= u < adj.len(),
    ensures
        n_links(adj.update(u, list)) == n_links(adj) - adj[u].len() + list.len(),
        adj[u].len() <= n_links(adj),
    decreases adj.len(),
{
    let last = adj.len() - 1;
    if u == last {
        assert(adj.update(u, list).drop_last() =~= adj.drop_last());
    } else {
        assert(adj.update(u, list).drop_last() =~= adj.drop_last().update(u, list));
        lemma_n_links_update(adj.drop_last(), u, list);
    }
}

pub proof fn lemma_n_links_bound(adj: Seq<Seq<usize>>, width: nat)
    requires
        forall|u: int| 0 <= u < adj.len() ==> (#[trigger] adj[u]).len() <= width,
    ensures
        n_links(adj) <= adj.len() * width,
    decreases adj.len(),
{
    if adj.len() > 0 {
        let rest = adj.drop_last();
        assert forall|u: int| 0 <= u < rest.len() implies (#[trigger] rest[u]).len() <= width by {
            assert(rest[u] == adj[u]);
        }
        lemma_n_links_bound(rest, width);
        assert(adj.len() * width == rest.len() * width + width) by (nonlinear_arith)
            requires
                rest.len() == adj.len() - 1,
        ;
    }
}

pub proof fn lemma_n_links_empty(adj: Seq<Seq<usize>>)
    requires
        forall|u: int| 0 <= u < adj.len() ==> (#[trigger] adj[u]).len() == 0,
    ensures
        n_links(adj) == 0,
    decreases adj.len(),
{
    if adj.len() > 0 {
        let rest = adj.drop_last();
        assert forall|u: int| 0 <= u < rest.len() implies (#[trigger] rest[u]).len() == 0 by {
            assert(rest[u] == adj[u]);
        }
        lemma_n_links_empty(rest);
    }
}

impl SlotTable {
    pub closed spec fn wf(&self) -> bool {
        let lists = self.lists@;
        &&& self.slots@.len() == self.n * self.width
        &&& lists.len() == self.n
        &&& self.n_links == n_links(lists)
        &&& forall|u: int|
            0 <= u < lists.len() ==> (#[trigger] lists[u]).len() <= self.width && storable(lists[u])
        &&& forall|u: int, j: int|
            0 <= u < self.n && 0 <= j < self.width ==> #[trigger] cell(
                self.slots@,
                self.width as nat,
                u,
                j,
            ) == cell_of(lists[u], j)
    }

    /// The adjacency lists.
    pub closed spec fn lists(&self) -> Seq<Seq<usize>> {
        self.lists@
    }

    /// The room for neighbours of each node.
    pub closed spec fn spec_width(&self) -> usize {
        self.width
    }

    pub(crate) proof fn lemma_lists(&self)
        requires
            self.wf(),
        ensures
            forall|u: int|
                0 <= u < self.lists().len() ==> (#[trigger] self.lists()[u]).len()
                    <= self.spec_width() && storable(self.lists()[u]),
            self.lists().len() * self.spec_width() <= usize::MAX,
    {
        assert(self.slots.len() == self.slots@.len());
    }

    /// `n` empty lists with room for `width` neighbours each.
    pub(crate) fn new(n: usize, width: usize) -> (table: SlotTable)
        requires
            n * width <= usize::MAX,
        ensures
            table.wf(),
            table.lists() == Seq::new(n as nat, |u: int| Seq::<usize>::empty()),
            table.spec_width() == width,
    {
        let total: usize = n * width;
        let mut slots: Vec<Slot> = Vec::new();
        let mut i: usize = 0;
        while i < total
            invariant
                i <= total,
                slots@.len() == i,
                forall|j: int| 0 <= j < i ==> slot_value(#[trigger] slots@[j]) == None::<u32>,
            decreases total - i,
        {
            slots.push(Slot::none());
            i += 1;
        }
        let ghost lists = Seq::new(n as nat, |u: int| Seq::<usize>::empty());
        proof {
            lemma_n_links_empty(lists);
            assert forall|u: int, j: int| 0 <= u < n && 0 <= j < width implies #[trigger] cell(
                slots@,
                width as nat,
                u,
                j,
            ) == cell_of(lists[u], j) by {
                lemma_index(u, j, n as int, width as int);
            }
        }
        SlotTable { slots, width, n, n_links: 0, lists: Ghost(lists) }
    }

    /// The number of lists.
    pub(crate) fn len(&self) -> (n: usize)
        requires
            self.wf(),
        ensures
            n == self.lists().len(),
    {
        self.n
    }

    pub(crate) fn width(&self) -> (width: usize)
        ensures
            width == self.spec_width(),
    {
        self.width
    }

    /// The number of links in all lists together.
    pub(crate) fn link_count(&self) -> (n: usize)
        requires
            self.wf(),
        ensures
            n == n_links(self.lists()),
    {
        self.n_links
    }

    /// The bytes that the slots take.
    pub(crate) fn slot_bytes(&self) -> (bytes: usize)
        requires
            self.wf(),
            4 * (self.lists().len() * self.spec_width()) <= usize::MAX,
        ensures
            bytes == 4 * (self.lists().len() * self.spec_width()),
    {
        self.slots.len() * Slot::size_bytes()
    }

    /// The list of node `u`.
    pub(crate) fn read(&self, u: usize) -> (list: Vec<usize>)
        requires
            self.wf(),
            u < self.lists().len(),
        ensures
            list@ == self.lists()[u as int],
    {
        let ghost l = self.lists@[u as int];
        let mut list: Vec<usize> = Vec::new();
        let mut j: usize = 0;
        proof {
            assert(self.slots.len() == self.slots@.len());
            assert(u * self.width + self.width <= self.n * self.width) by (nonlinear_arith)
                requires
                    u < self.n,
            ;
        }
        let from: usize = u * self.width;
        while j < self.width
            invariant
                self.wf(),
                u < self.n,
                from == u * self.width,
                from + self.width <= self.slots@.len(),
                self.slots@.len() <= usize::MAX,
                l == self.lists@[u as int],
                j <= l.len(),
                j <= self.width,
                list@ == l.take(j as int),
            decreases self.width - j,
        {
            assert(cell(self.slots@, self.width as nat, u as int, j as int) == cell_of(
                l,
                j as int,
            ));
            match self.slots[from + j].get() {
                Some(id) => {
                    proof {
                        lemma_take_push(l, j as int);
                        assert(storable(l));
                    }
                    list.push(id as usize);
                },
                None => {
                    assert(l.take(j as int) =~= l);
                    return list;
                },
            }
            j += 1;
        }
        assert(l.take(j as int) =~= l);
        list
    }

    /// Writes `content` to slot `j` of node `u`.
    fn write_slot(&mut self, u: usize, j: usize, content: Slot)
        requires
            old(self).slots@.len() == old(self).n * old(self).width,
            u < old(self).n,
            j < old(self).width,
        ensures
            final(self).width == old(self).width,
            final(self).n == old(self).n,
            final(self).n_links == old(self).n_links,
            final(self).lists@ == old(self).lists@,
            final(self).slots@.len() == old(self).slots@.len(),
            forall|v: int, l: int|
                0 <= v < old(self).n && 0 <= l < old(self).width ==> #[trigger] cell(
                    final(self).slots@,
                    old(self).width as nat,
                    v,
                    l,
                ) == if v == u && l == j {
                    slot_value(content)
                } else {
                    cell(old(self).slots@, old(self).width as nat, v, l)
                },
    {
        proof {
            assert(self.slots.len() == self.slots@.len());
            lemma_index(u as int, j as int, self.n as int, self.width as int);
            assert(u * self.width >= 0) by (nonlinear_arith)
                requires
                    u >= 0,
                    self.width >= 0,
            ;
        }
        let at: usize = u * self.width + j;
        self.slots.set(at, content);
        proof {
            let w = self.width as int;
            assert forall|v: int, l: int| 0 <= v < self.n && 0 <= l < w implies #[trigger] cell(
                self.slots@,
                w as nat,
                v,
                l,
            ) == if v == u && l == j {
                slot_value(content)
            } else {
                cell(old(self).slots@, w as nat, v, l)
            } by {
                lemma_index(v, l, self.n as int, w);
                if v * w + l == at {
                    lemma_distinct(v, l, u as int, j as int, w);
                }
            }
        }
    }

    /// Writes the items of `list` to the first slots of node `u`.
    fn write_items(&mut self, u: usize, list: &[usize])
        requires
            old(self).slots@.len() == old(self).n * old(self).width,
            u < old(self).n,
            list@.len() <= old(self).width,
            storable(list@),
        ensures
            final(self).width == old(self).width,
            final(self).n == old(self).n,
            final(self).n_links == old(self).n_links,
            final(self).lists@ == old(self).lists@,
            final(self).slots@.len() == old(self).slots@.len(),
            forall|v: int, l: int|
                0 <= v < old(self).n && 0 <= l < old(self).width ==> #[trigger] cell(
                    final(self).slots@,
                    old(self).width as nat,
                    v,
                    l,
                ) == if v == u && l < list@.len() {
                    Some(list@[l] as u32)
                } else {
                    cell(old(self).slots@, old(self).width as nat, v, l)
                },
    {
        let mut j: usize = 0;
        while j < list.len()
            invariant
                j <= list@.len(),
                u < self.n,
                storable(list@),
                list@.len() <= self.width,
                self.width == old(self).width,
                self.n == old(self).n,
                self.n_links == old(self).n_links,
                self.lists@ == old(self).lists@,
                self.slots@.len() == old(self).slots@.len(),
                self.slots@.len() == self.n * self.width,
                forall|v: int, l: int|
                    0 <= v < old(self).n && 0 <= l < old(self).width ==> #[trigger] cell(
                        self.slots@,
                        old(self).width as nat,
                        v,
                        l,
                    ) == if v == u && l < j {
                        Some(list@[l] as u32)
                    } else {
                        cell(old(self).slots@, old(self).width as nat, v, l)
                    },
            decreases list@.len() - j,
        {
            let id = list[j];
            assert(id < u32::MAX);
            self.write_slot(u, j, Slot::some(id as u32));
            j += 1;
        }
    }

    /// Writes `list` over the front of the list of node `u`.
    pub(crate) fn write_front(&mut self, u: usize, list: &[usize])
        requires
            old(self).wf(),
            u < old(self).lists().len(),
            list@.len() <= old(self).spec_width(),
            storable(list@),
        ensures
            final(self).wf(),
            final(self).spec_width() == old(self).spec_width(),
            final(self).lists() == old(self).lists().update(
                u as int,
                overlay(old(self).lists()[u as int], list@),
            ),
    {
        let had: usize = self.read(u).len();
        let ghost before = self.lists@[u as int];
        let ghost after = overlay(before, list@);
        let ghost lists = self.lists@.update(u as int, after);
        self.write_items(u, list);
        proof {
            lemma_n_links_update(old(self).lists@, u as int, after);
            assert(self.slots.len() == self.slots@.len());
            lemma_n_links_bound(lists, self.width as nat);
        }
        if list.len() > had {
            self.n_links = self.n_links - had + list.len();
        }
        self.lists = Ghost(lists);
        assert(storable(after));
    }

    /// Makes `list` the list of node `u`.
    pub(crate) fn write_list(&mut self, u: usize, list: &[usize])
        requires
            old(self).wf(),
            u < old(self).lists().len(),
            list@.len() <= old(self).spec_width(),
            storable(list@),
        ensures
            final(self).wf(),
            final(self).spec_width() == old(self).spec_width(),
            final(self).lists() == old(self).lists().update(u as int, list@),
    {
        let had: usize = self.read(u).len();
        let ghost lists = self.lists@.update(u as int, list@);
        self.write_items(u, list);
        let mut j: usize = list.len();
        while j < self.width
            invariant
                list@.len() <= j <= self.width,
                u < self.n,
                self.width == old(self).width,
                self.n == old(self).n,
                self.n_links == old(self).n_links,
                self.lists@ == old(self).lists@,
                self.slots@.len() == self.n * self.width,
                forall|v: int, l: int|
                    0 <= v < self.n && 0 <= l < self.width ==> #[trigger] cell(
                        self.slots@,
                        self.width as nat,
                        v,
                        l,
                    ) == if v == u && l < j {
                        cell_of(list@, l)
                    } else {
                        cell(old(self).slots@, self.width as nat, v, l)
                    },
            decreases self.width - j,
        {
            self.write_slot(u, j, Slot::none());
            j += 1;
        }
        proof {
            lemma_n_links_update(old(self).lists@, u as int, list@);
            assert(self.slots.len() == self.slots@.len());
            lemma_n_links_bound(lists, self.width as nat);
        }
        self.n_links = self.n_links - had + list.len();
        self.lists = Ghost(lists);
    }
}

} // verus!
