//! The order in which a reordering of the ground level leaves the nodes of an upper level.
use crate::beam::lemma_filter_push;
use crate::graph::{lemma_take_push, GraphModel, GraphTrait};
use crate::parallel::{lemma_pair_order, pair_le, sort_pairs};
use crate::permutation::{is_permutation, last_position, lemma_last_position};
use crate::soundness::lemma_filter_facts;
use std::collections::HashMap;
use vstd::prelude::*;

verus! {

broadcast use vstd::std_specs::hash::group_hash_axioms;

/// The dataset ids of the nodes of `level`, by local id.
pub open spec fn globals(level: GraphModel) -> Seq<usize> {
    Seq::new(level.adj.len(), |id: int| level.external(id as usize))
}

/// The local ids on `level` of the vectors `previous`.
pub open spec fn placed_first(level: GraphModel, previous: Seq<usize>) -> Seq<usize> {
    previous.map_values(|global: usize| last_position(globals(level), global))
}

/// The local ids on `level` that are not in `placed`, in ascending order.
pub open spec fn left_over(level: GraphModel, placed: Seq<usize>) -> Seq<usize> {
    Seq::new(level.adj.len(), |id: int| id as usize).filter(|id: usize| !placed.contains(id))
}

/// The local ids of `rest`, each behind the new id of its vector.
pub open spec fn keyed(
    level: GraphModel,
    permutation: Seq<usize>,
    rest: Seq<usize>,
) -> Seq<(usize, usize)> {
    rest.map_values(|id: usize| (permutation[level.external(id) as int], id))
}

/// The old local ids of `level` in their new order: first those of the vectors `previous`, in
/// that order, then the others by the new ids of their vectors.
pub open spec fn new_order(
    level: GraphModel,
    permutation: Seq<usize>,
    previous: Seq<usize>,
) -> Seq<usize> {
    let placed = placed_first(level, previous);
    placed + keyed(level, permutation, left_over(level, placed)).sort_by(pair_le()).map_values(
        |pair: (usize, usize)| pair.1,
    )
}

/// The old local ids of `level` in the order in which their vectors come in the new ordering of
/// the ground level.
///
/// `previous_old_globals_in_new_order` is the same list for the level above, by dataset ids. The
/// levels are nested, so all of it is on `level` too: it comes first, so that the level above
/// stays a prefix.
pub fn upper_level_order_preserving_hnsw_prefixes<G: GraphTrait>(
    level: &G,
    permutation: &[usize],
    previous_old_globals_in_new_order: &[usize],
) -> (order: Vec<usize>)
    requires
        level.wf(),
        level.model().ids_below(permutation@.len()),
        forall|i: int|
            0 <= i < previous_old_globals_in_new_order@.len() ==> globals(level.model()).contains(
                #[trigger] previous_old_globals_in_new_order@[i],
            ),
    ensures
        order@ == new_order(level.model(), permutation@, previous_old_globals_in_new_order@),
{
    let ghost g = level.model();
    let ghost names = globals(g);
    let ghost previous = previous_old_globals_in_new_order@;
    let n: usize = level.n_nodes();
    let mut local_by_global: HashMap<usize, usize> = HashMap::new();
    let mut used: Vec<bool> = Vec::new();
    let mut i: usize = 0;
    while i < n
        invariant
            level.wf(),
            g == level.model(),
            names == globals(g),
            n == g.adj.len(),
            i <= n,
            g.ids_below(permutation@.len()),
            used@.len() == i,
            forall|x: int| 0 <= x < i ==> #[trigger] used@[x] == false,
            forall|global: usize| #[trigger]
                local_by_global@.contains_key(global) <==> names.take(i as int).contains(global),
            forall|global: usize| #[trigger]
                local_by_global@.contains_key(global) ==> local_by_global@[global]
                    == last_position(names.take(i as int), global),
        decreases n - i,
    {
        proof {
            lemma_take_push(names, i as int);
            lemma_push_contains(names.take(i as int), names[i as int]);
            assert(g.has_external(i));
        }
        local_by_global.insert(level.get_external_id(i), i);
        used.push(false);
        i += 1;
    }
    assert(names.take(n as int) =~= names);
    let ghost placed = placed_first(g, previous);
    let mut order: Vec<usize> = Vec::new();
    i = 0;
    while i < previous_old_globals_in_new_order.len()
        invariant
            names == globals(g),
            n == g.adj.len(),
            previous == previous_old_globals_in_new_order@,
            placed == placed_first(g, previous),
            forall|l: int| 0 <= l < previous.len() ==> names.contains(#[trigger] previous[l]),
            forall|global: usize| #[trigger]
                local_by_global@.contains_key(global) <==> names.contains(global),
            forall|global: usize| #[trigger]
                local_by_global@.contains_key(global) ==> local_by_global@[global]
                    == last_position(names, global),
            i <= previous.len(),
            used@.len() == n,
            order@ == placed.take(i as int),
            forall|x: int|
                0 <= x < n ==> #[trigger] used@[x] == order@.contains(x as usize),
        decreases previous.len() - i,
    {
        let global: usize = previous_old_globals_in_new_order[i];
        proof {
            assert(names.contains(previous[i as int]));
            let at = choose|at: int| 0 <= at < names.len() && names[at] == global;
            lemma_last_position(names, at);
            assert(local_by_global@.contains_key(global));
            lemma_take_push(placed, i as int);
        }
        let local: usize = *local_by_global.get(&global).unwrap();
        proof {
            lemma_push_contains(order@, local);
        }
        order.push(local);
        used.set(local, true);
        i += 1;
    }
    assert(placed.take(i as int) =~= placed);
    let ghost everyone = Seq::new(n as nat, |id: int| id as usize);
    let ghost unplaced = |id: usize| !placed.contains(id);
    let mut pairs: Vec<(usize, usize)> = Vec::new();
    i = 0;
    proof {
        reveal(Seq::filter);
        assert(keyed(g, permutation@, everyone.take(0).filter(unplaced)) =~= Seq::empty());
    }
    while i < n
        invariant
            level.wf(),
            g == level.model(),
            n == g.adj.len(),
            g.ids_below(permutation@.len()),
            everyone == Seq::new(n as nat, |id: int| id as usize),
            unplaced == (|id: usize| !placed.contains(id)),
            used@.len() == n,
            forall|x: int| 0 <= x < n ==> #[trigger] used@[x] == placed.contains(x as usize),
            i <= n,
            pairs@ == keyed(g, permutation@, everyone.take(i as int).filter(unplaced)),
        decreases n - i,
    {
        proof {
            lemma_take_push(everyone, i as int);
            lemma_filter_push(everyone.take(i as int), i, unplaced);
            assert(g.has_external(i));
        }
        if !used[i] {
            pairs.push((permutation[level.get_external_id(i)], i));
        }
        i += 1;
        assert(pairs@ =~= keyed(g, permutation@, everyone.take(i as int).filter(unplaced)));
    }
    let ghost unsorted = pairs@;
    proof {
        assert(everyone.take(n as int) =~= everyone);
        assert(unsorted == keyed(g, permutation@, left_over(g, placed)));
    }
    sort_pairs(&mut pairs);
    let ghost sorted = pairs@;
    proof {
        lemma_pair_order();
        unsorted.lemma_sort_by_ensures(pair_le());
        vstd::seq_lib::lemma_sorted_unique(sorted, unsorted.sort_by(pair_le()), pair_le());
    }
    let ghost tail = sorted.map_values(|pair: (usize, usize)| pair.1);
    i = 0;
    assert(placed + tail.take(0) =~= placed);
    while i < pairs.len()
        invariant
            sorted == pairs@,
            tail == sorted.map_values(|pair: (usize, usize)| pair.1),
            i <= sorted.len(),
            order@ == placed + tail.take(i as int),
        decreases sorted.len() - i,
    {
        order.push(pairs[i].1);
        i += 1;
        assert(order@ =~= placed + tail.take(i as int));
    }
    assert(tail.take(i as int) =~= tail);
    order
}

pub proof fn lemma_push_contains<T>(s: Seq<T>, x: T)
    ensures
        forall|y: T| #[trigger] s.push(x).contains(y) <==> s.contains(y) || y == x,
{
    assert forall|y: T| #[trigger] s.push(x).contains(y) <==> s.contains(y) || y == x by {
        if s.contains(y) {
            let i = choose|i: int| 0 <= i < s.len() && s[i] == y;
            assert(s.push(x)[i] == y);
        }
        if y == x {
            assert(s.push(x)[s.len() as int] == x);
        }
    }
}

/// The new order is a permutation of the local ids that starts with the vectors `previous`.
pub proof fn lemma_new_order(level: GraphModel, permutation: Seq<usize>, previous: Seq<usize>)
    requires
        level.adj.len() <= usize::MAX,
        globals(level).no_duplicates(),
        previous.no_duplicates(),
        forall|i: int|
            0 <= i < previous.len() ==> globals(level).contains(#[trigger] previous[i]),
    ensures
        is_permutation(new_order(level, permutation, previous)),
        new_order(level, permutation, previous).len() == level.adj.len(),
        previous.len() <= level.adj.len(),
        forall|i: int|
            0 <= i < previous.len() ==> level.external(
                #[trigger] new_order(level, permutation, previous)[i],
            ) == previous[i],
{
    let names = globals(level);
    let n = level.adj.len();
    let placed = placed_first(level, previous);
    let everyone = Seq::new(n, |id: int| id as usize);
    let unplaced = |id: usize| !placed.contains(id);
    let rest = left_over(level, placed);
    let pairs = keyed(level, permutation, rest);
    let sorted = pairs.sort_by(pair_le());
    let tail = sorted.map_values(|pair: (usize, usize)| pair.1);
    let order = new_order(level, permutation, previous);
    assert(order == placed + tail);

    assert forall|i: int| 0 <= i < placed.len() implies #[trigger] placed[i] < n && level.external(
        placed[i],
    ) == previous[i] by {
        assert(names.contains(previous[i]));
        let at = choose|at: int| 0 <= at < names.len() && names[at] == previous[i];
        lemma_last_position(names, at);
    }
    lemma_filter_facts(everyone, unplaced);
    assert forall|i: int, j: int| 0 <= i < pairs.len() && 0 <= j < pairs.len() && i
        != j implies pairs[i] != pairs[j] by {
        assert(rest[i] != rest[j]);
    }
    lemma_pair_order();
    pairs.lemma_sort_by_ensures(pair_le());
    pairs.lemma_multiset_has_no_duplicates();
    sorted.lemma_multiset_has_no_duplicates_conv();
    pairs.to_multiset_ensures();
    sorted.to_multiset_ensures();
    assert forall|i: int| 0 <= i < sorted.len() implies {
        let pair = #[trigger] sorted[i];
        &&& pair.0 == permutation[level.external(pair.1) as int]
        &&& pair.1 < n
        &&& !placed.contains(pair.1)
    } by {
        assert(sorted.contains(sorted[i]));
        assert(pairs.contains(sorted[i]));
        let j = choose|j: int| 0 <= j < pairs.len() && pairs[j] == sorted[i];
        assert(everyone.contains(rest[j]));
    }
    assert forall|i: int, j: int| 0 <= i < j < order.len() implies #[trigger] order[i]
        != #[trigger] order[j] by {
        if j < placed.len() {
            assert(previous[i] != previous[j]);
        } else if i < placed.len() {
            assert(placed.contains(placed[i]));
            assert(order[j] == sorted[j - placed.len()].1);
        } else {
            assert(sorted[i - placed.len()] != sorted[j - placed.len()]);
        }
    }
    assert forall|i: int| 0 <= i < order.len() implies #[trigger] order[i] < n by {
        if i >= placed.len() {
            assert(order[i] == sorted[i - placed.len()].1);
        }
    }
    assert(order.to_set() =~= everyone.to_set()) by {
        assert forall|id: usize| everyone.contains(id) implies order.contains(id) by {
            if placed.contains(id) {
                let i = choose|i: int| 0 <= i < placed.len() && placed[i] == id;
                assert(order[i] == id);
            } else {
                let at = choose|at: int| 0 <= at < everyone.len() && everyone[at] == id;
                everyone.lemma_filter_contains(unplaced, at);
                let r = choose|r: int| 0 <= r < rest.len() && rest[r] == id;
                assert(pairs.contains(pairs[r]));
                assert(pairs.to_multiset().count(pairs[r]) > 0);
                assert(sorted.to_multiset().count(pairs[r]) > 0);
                assert(sorted.contains(pairs[r]));
                let i = choose|i: int| 0 <= i < sorted.len() && sorted[i] == pairs[r];
                assert(order[placed.len() + i] == id);
            }
        }
        assert forall|id: usize| order.contains(id) implies everyone.contains(id) by {
            let i = choose|i: int| 0 <= i < order.len() && order[i] == id;
            assert(everyone[order[i] as int] == id);
        }
    }
    assert(order.no_duplicates());
    order.unique_seq_to_set();
    everyone.unique_seq_to_set();
}

/// In the new order of an upper level, the vectors of the level above come first and keep their
/// order, and the others follow by their new ids.
pub proof fn law_upper_level_follows_the_new_ids(
    level: GraphModel,
    permutation: Seq<usize>,
    previous: Seq<usize>,
)
    requires
        level.adj.len() <= usize::MAX,
        globals(level).no_duplicates(),
        previous.no_duplicates(),
        forall|i: int|
            0 <= i < previous.len() ==> globals(level).contains(#[trigger] previous[i]),
    ensures
        ({
            let order = new_order(level, permutation, previous);
            &&& is_permutation(order)
            &&& order.len() == level.adj.len()
            &&& forall|i: int|
                0 <= i < previous.len() ==> level.external(#[trigger] order[i]) == previous[i]
            &&& forall|i: int, j: int|
                previous.len() <= i < j < order.len() ==> permutation[level.external(
                    #[trigger] order[i],
                ) as int] <= permutation[level.external(#[trigger] order[j]) as int]
        }),
{
    lemma_new_order(level, permutation, previous);
    let placed = placed_first(level, previous);
    let pairs = keyed(level, permutation, left_over(level, placed));
    let sorted = pairs.sort_by(pair_le());
    let order = new_order(level, permutation, previous);
    lemma_pair_order();
    pairs.lemma_sort_by_ensures(pair_le());
    pairs.to_multiset_ensures();
    sorted.to_multiset_ensures();
    assert forall|i: int| 0 <= i < sorted.len() implies (#[trigger] sorted[i]).0
        == permutation[level.external(sorted[i].1) as int] by {
        assert(sorted.contains(sorted[i]));
        assert(sorted.to_multiset().count(sorted[i]) > 0);
        assert(pairs.contains(sorted[i]));
        let j = choose|j: int| 0 <= j < pairs.len() && pairs[j] == sorted[i];
    }
    assert forall|i: int, j: int|
        previous.len() <= i < j < order.len() implies permutation[level.external(
        #[trigger] order[i],
    ) as int] <= permutation[level.external(#[trigger] order[j]) as int] by {
        let a = i - placed.len();
        let b = j - placed.len();
        assert(order[i] == sorted[a].1 && order[j] == sorted[b].1);
        assert(pair_le()(sorted[a], sorted[b]));
    }
}

} // verus!
