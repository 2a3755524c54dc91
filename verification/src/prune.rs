//! The components of a sparse vector that are kept when it is pruned.
use crate::beam::lemma_filter_push;
use crate::float_order::{order_key, total_key};
use crate::graph::{first, lemma_take_push};
use crate::parallel::{lemma_pair_order, pair_le, sort_pairs};
use crate::reorder::lemma_push_contains;
use crate::soundness::lemma_filter_facts;
use vstd::prelude::*;

verus! {

/// The largest number has the smallest rank.
pub open spec fn rank(bits: u32) -> int {
    0x7fff_ffff - total_key(bits)
}

/// The positions of `values`, each behind its rank.
pub open spec fn ranked(values: Seq<u32>) -> Seq<(usize, usize)> {
    Seq::new(values.len(), |i: int| (rank(values[i]) as usize, i as usize))
}

/// The positions of `values` by descending value; the earlier one comes first among equals.
pub open spec fn descending(values: Seq<u32>) -> Seq<usize> {
    ranked(values).sort_by(pair_le()).map_values(|pair: (usize, usize)| pair.1)
}

/// The positions below `n` that are among the first `count` of `order`, in ascending order.
pub open spec fn among_first(order: Seq<usize>, count: nat, n: nat) -> Seq<usize> {
    Seq::new(n, |i: int| i as usize).filter(|i: usize| first(order, count).contains(i))
}

/// The positions of `values` by descending value. The values are given by the bits of
/// floating-point numbers.
pub fn descending_positions(values: &[u32]) -> (order: Vec<usize>)
    ensures
        order@ == descending(values@),
{
    let n: usize = values.len();
    let mut pairs: Vec<(usize, usize)> = Vec::new();
    let mut i: usize = 0;
    while i < n
        invariant
            n == values@.len(),
            i <= n,
            pairs@ == ranked(values@).take(i as int),
        decreases n - i,
    {
        let place: i64 = 0x7fff_ffff - order_key(values[i]);
        pairs.push((place as usize, i));
        i += 1;
        assert(pairs@ =~= ranked(values@).take(i as int));
    }
    let ghost unsorted = pairs@;
    assert(unsorted =~= ranked(values@));
    sort_pairs(&mut pairs);
    let ghost sorted = pairs@;
    proof {
        lemma_pair_order();
        unsorted.lemma_sort_by_ensures(pair_le());
        vstd::seq_lib::lemma_sorted_unique(sorted, unsorted.sort_by(pair_le()), pair_le());
    }
    let mut order: Vec<usize> = Vec::new();
    i = 0;
    while i < pairs.len()
        invariant
            sorted == pairs@,
            sorted == ranked(values@).sort_by(pair_le()),
            i <= sorted.len(),
            order@ == descending(values@).take(i as int),
        decreases sorted.len() - i,
    {
        order.push(pairs[i].1);
        i += 1;
        assert(order@ =~= descending(values@).take(i as int));
    }
    assert(order@ =~= descending(values@));
    order
}

/// The positions below `n` that are among the first `count` of `order`, in ascending order.
pub fn kept_positions(order: &[usize], count: usize, n: usize) -> (kept: Vec<usize>)
    requires
        forall|i: int| 0 <= i < order@.len() ==> #[trigger] order@[i] < n,
    ensures
        kept@ == among_first(order@, count as nat, n as nat),
{
    let mut marked: Vec<bool> = Vec::new();
    let mut i: usize = 0;
    while i < n
        invariant
            i <= n,
            marked@.len() == i,
            forall|x: int| 0 <= x < i ==> #[trigger] marked@[x] == false,
        decreases n - i,
    {
        marked.push(false);
        i += 1;
    }
    i = 0;
    while i < order.len() && i < count
        invariant
            i <= order@.len(),
            i <= count,
            marked@.len() == n,
            forall|l: int| 0 <= l < order@.len() ==> #[trigger] order@[l] < n,
            forall|x: int|
                0 <= x < n ==> #[trigger] marked@[x] == order@.take(i as int).contains(x as usize),
        decreases order@.len() - i,
    {
        let at: usize = order[i];
        proof {
            lemma_take_push(order@, i as int);
            lemma_push_contains(order@.take(i as int), at);
        }
        marked.set(at, true);
        i += 1;
    }
    let ghost head = first(order@, count as nat);
    assert(order@.take(i as int) =~= head);
    let ghost wanted = |i: usize| first(order@, count as nat).contains(i);
    let ghost everyone = Seq::new(n as nat, |i: int| i as usize);
    let mut kept: Vec<usize> = Vec::new();
    i = 0;
    proof {
        reveal(Seq::filter);
        assert(everyone.take(0).filter(wanted) =~= Seq::empty());
    }
    while i < n
        invariant
            everyone == Seq::new(n as nat, |i: int| i as usize),
            wanted == (|i: usize| first(order@, count as nat).contains(i)),
            head == first(order@, count as nat),
            marked@.len() == n,
            forall|x: int| 0 <= x < n ==> #[trigger] marked@[x] == head.contains(x as usize),
            i <= n,
            kept@ == everyone.take(i as int).filter(wanted),
        decreases n - i,
    {
        proof {
            lemma_take_push(everyone, i as int);
            lemma_filter_push(everyone.take(i as int), i, wanted);
        }
        if marked[i] {
            kept.push(i);
        }
        i += 1;
    }
    assert(everyone.take(n as int) =~= everyone);
    kept
}

/// The positions that stay when a query is pruned to its `h` largest values.
pub open spec fn top_positions(values: Seq<u32>, h: nat) -> Seq<usize> {
    among_first(descending(values), h, values.len())
}

/// The components of a query with the `h` largest values and those values, still by component;
/// the whole query if it has no more than `h`. The values are given by the bits of floating-point
/// numbers.
pub fn prune_query_top_h(components: &[u16], values: &[u32], h: usize) -> (pruned: (
    Vec<u16>,
    Vec<u32>,
))
    requires
        components@.len() == values@.len(),
    ensures
        h >= components@.len() ==> pruned.0@ == components@ && pruned.1@ == values@,
        h < components@.len() ==> {
            let kept = top_positions(values@, h as nat);
            &&& pruned.0@ == kept.map_values(|i: usize| components@[i as int])
            &&& pruned.1@ == kept.map_values(|i: usize| values@[i as int])
            &&& keeps_largest(values@, h as nat, kept)
        },
{
    proof {
        assert(values.len() == values@.len());
        if h < values@.len() {
            law_pruning_keeps_the_largest(values@, h as nat);
        }
    }
    let n: usize = components.len();
    let mut comps: Vec<u16> = Vec::new();
    let mut vals: Vec<u32> = Vec::new();
    let mut i: usize = 0;
    if h >= n {
        while i < n
            invariant
                n == components@.len(),
                n == values@.len(),
                i <= n,
                comps@ == components@.take(i as int),
                vals@ == values@.take(i as int),
            decreases n - i,
        {
            comps.push(components[i]);
            vals.push(values[i]);
            i += 1;
            assert(comps@ =~= components@.take(i as int));
            assert(vals@ =~= values@.take(i as int));
        }
        assert(comps@ =~= components@);
        assert(vals@ =~= values@);
        return (comps, vals);
    }
    let order = descending_positions(values);
    proof {
        lemma_descending(values@);
    }
    let kept = kept_positions(order.as_slice(), h, n);
    proof {
        lemma_among_first(order@, h as nat, n as nat);
    }
    let ghost all_comps = kept@.map_values(|i: usize| components@[i as int]);
    let ghost all_vals = kept@.map_values(|i: usize| values@[i as int]);
    while i < kept.len()
        invariant
            n == components@.len(),
            n == values@.len(),
            forall|l: int| 0 <= l < kept@.len() ==> #[trigger] kept@[l] < n,
            all_comps == kept@.map_values(|i: usize| components@[i as int]),
            all_vals == kept@.map_values(|i: usize| values@[i as int]),
            i <= kept@.len(),
            comps@ == all_comps.take(i as int),
            vals@ == all_vals.take(i as int),
        decreases kept@.len() - i,
    {
        assert(kept@[i as int] < n);
        comps.push(components[kept[i]]);
        vals.push(values[kept[i]]);
        i += 1;
        assert(comps@ =~= all_comps.take(i as int));
        assert(vals@ =~= all_vals.take(i as int));
    }
    assert(comps@ =~= all_comps);
    assert(vals@ =~= all_vals);
    (comps, vals)
}

/// The positions by descending value are all positions.
pub proof fn lemma_descending(values: Seq<u32>)
    requires
        values.len() <= usize::MAX,
    ensures
        descending(values).len() == values.len(),
        forall|i: int|
            0 <= i < values.len() ==> #[trigger] descending(values)[i] < values.len(),
        forall|i: int, j: int|
            0 <= i < j < values.len() ==> rank(
                values[#[trigger] descending(values)[i] as int],
            ) <= rank(values[#[trigger] descending(values)[j] as int]),
        forall|x: usize| x < values.len() ==> #[trigger] descending(values).contains(x),
        descending(values).no_duplicates(),
{
    let pairs = ranked(values);
    let sorted = pairs.sort_by(pair_le());
    let order = descending(values);
    lemma_pair_order();
    pairs.lemma_sort_by_ensures(pair_le());
    pairs.to_multiset_ensures();
    sorted.to_multiset_ensures();
    assert forall|i: int| 0 <= i < sorted.len() implies {
        let pair = #[trigger] sorted[i];
        pair.1 < values.len() && pair.0 == rank(values[pair.1 as int])
    } by {
        assert(sorted.contains(sorted[i]));
        assert(pairs.contains(sorted[i]));
    }
    assert forall|i: int, j: int| 0 <= i < j < values.len() implies rank(
        values[#[trigger] order[i] as int],
    ) <= rank(values[#[trigger] order[j] as int]) by {
        assert(pair_le()(sorted[i], sorted[j]));
    }
    assert(pairs.no_duplicates());
    pairs.lemma_multiset_has_no_duplicates();
    sorted.lemma_multiset_has_no_duplicates_conv();
    assert forall|i: int, j: int| 0 <= i < order.len() && 0 <= j < order.len() && i
        != j implies order[i] != order[j] by {
        assert(sorted[i] != sorted[j]);
    }
    assert forall|x: usize| x < values.len() implies #[trigger] order.contains(x) by {
        assert(pairs.contains(pairs[x as int]));
        assert(pairs.to_multiset().count(pairs[x as int]) > 0);
        assert(sorted.to_multiset().count(pairs[x as int]) > 0);
        assert(sorted.contains(pairs[x as int]));
        let i = choose|i: int| 0 <= i < sorted.len() && sorted[i] == pairs[x as int];
        assert(order[i] == x);
    }
}

pub proof fn lemma_among_first(order: Seq<usize>, count: nat, n: nat)
    requires
        n <= usize::MAX,
    ensures
        forall|i: int|
            0 <= i < among_first(order, count, n).len() ==> #[trigger] among_first(
                order,
                count,
                n,
            )[i] < n,
        forall|x: usize| #[trigger]
            among_first(order, count, n).contains(x) <==> x < n && first(order, count).contains(x),
        among_first(order, count, n).no_duplicates(),
{
    let everyone = Seq::new(n, |i: int| i as usize);
    let wanted = |i: usize| first(order, count).contains(i);
    let kept = among_first(order, count, n);
    lemma_filter_facts(everyone, wanted);
    assert forall|i: int| 0 <= i < kept.len() implies #[trigger] kept[i] < n by {
        assert(everyone.contains(kept[i]));
    }
    assert forall|x: usize| #[trigger] kept.contains(x) <==> x < n && first(
        order,
        count,
    ).contains(x) by {
        if x < n && first(order, count).contains(x) {
            assert(everyone[x as int] == x);
            everyone.lemma_filter_contains(wanted, x as int);
        }
        if kept.contains(x) {
            let i = choose|i: int| 0 <= i < kept.len() && kept[i] == x;
            assert(everyone.contains(kept[i]));
        }
    }
}

/// A query that is pruned to its `h` largest values keeps `h` of them, if it has as many.
pub proof fn law_h_values_stay(values: Seq<u32>, h: nat)
    requires
        values.len() <= usize::MAX,
        h <= values.len(),
    ensures
        top_positions(values, h).len() == h,
{
    let order = descending(values);
    let kept = top_positions(values, h);
    let head = first(order, h);
    lemma_descending(values);
    lemma_among_first(order, h, values.len());
    assert(kept.to_set() =~= head.to_set()) by {
        assert forall|x: usize| head.contains(x) implies kept.contains(x) by {
            let i = choose|i: int| 0 <= i < head.len() && head[i] == x;
            assert(order[i] < values.len());
        }
    }
    assert(head.no_duplicates());
    kept.unique_seq_to_set();
    head.unique_seq_to_set();
}

/// No value that is dropped from a query is larger than one that stays.
pub proof fn law_largest_values_stay(values: Seq<u32>, h: nat, stays: usize, dropped: usize)
    requires
        values.len() <= usize::MAX,
        top_positions(values, h).contains(stays),
        dropped < values.len(),
        !top_positions(values, h).contains(dropped),
    ensures
        total_key(values[dropped as int]) <= total_key(values[stays as int]),
{
    let order = descending(values);
    lemma_descending(values);
    lemma_among_first(order, h, values.len());
    let head = first(order, h);
    assert(head.contains(stays));
    let i = choose|i: int| 0 <= i < head.len() && head[i] == stays;
    assert(order.contains(dropped));
    let j = choose|j: int| 0 <= j < order.len() && order[j] == dropped;
    if j < head.len() {
        assert(head[j] == dropped);
        assert(head.contains(dropped));
    }
    assert(rank(values[order[i] as int]) <= rank(values[order[j] as int]));
}

/// The positions `kept`, in ascending order, are those of the `h` largest values; of equal values the
/// earlier ones count as larger.
pub open spec fn keeps_largest(values: Seq<u32>, h: nat, kept: Seq<usize>) -> bool {
    &&& kept.len() == h
    &&& forall|i: int| 0 <= i < kept.len() ==> #[trigger] kept[i] < values.len()
    &&& forall|i: int, j: int| 0 <= i < j < kept.len() ==> #[trigger] kept[i] < #[trigger] kept[j]
    &&& forall|i: int, dropped: usize|
        0 <= i < kept.len() && dropped < values.len() && !#[trigger] kept.contains(dropped)
            ==> total_key(values[dropped as int]) < total_key(values[#[trigger] kept[i] as int]) || (
        total_key(values[dropped as int]) == total_key(values[kept[i] as int]) && kept[i]
            < dropped)
}

/// Positions by descending value hold every position once; of equal values the earlier comes first.
pub proof fn law_descending_positions(values: Seq<u32>)
    requires
        values.len() <= usize::MAX,
    ensures
        descending(values).len() == values.len(),
        descending(values).no_duplicates(),
        forall|x: usize| x < values.len() ==> #[trigger] descending(values).contains(x),
        forall|i: int, j: int|
            0 <= i < j < values.len() ==> {
                let a = #[trigger] descending(values)[i];
                let b = #[trigger] descending(values)[j];
                total_key(values[a as int]) > total_key(values[b as int]) || (total_key(
                    values[a as int],
                ) == total_key(values[b as int]) && a < b)
            },
{
    lemma_descending(values);
    let pairs = ranked(values);
    let sorted = pairs.sort_by(pair_le());
    let order = descending(values);
    lemma_pair_order();
    pairs.lemma_sort_by_ensures(pair_le());
    pairs.to_multiset_ensures();
    sorted.to_multiset_ensures();
    assert forall|i: int| 0 <= i < sorted.len() implies {
        let pair = #[trigger] sorted[i];
        pair.1 < values.len() && pair.0 == rank(values[pair.1 as int])
    } by {
        assert(sorted.contains(sorted[i]));
        assert(pairs.contains(sorted[i]));
    }
    assert forall|i: int, j: int| 0 <= i < j < values.len() implies {
        let a = #[trigger] order[i];
        let b = #[trigger] order[j];
        total_key(values[a as int]) > total_key(values[b as int]) || (total_key(values[a as int])
            == total_key(values[b as int]) && a < b)
    } by {
        assert(pair_le()(sorted[i], sorted[j]));
        assert(order[i] != order[j]);
    }
}

proof fn lemma_filter_ascends(s: Seq<usize>, pass: spec_fn(usize) -> bool)
    requires
        forall|i: int, j: int| 0 <= i < j < s.len() ==> #[trigger] s[i] < #[trigger] s[j],
    ensures
        forall|i: int, j: int|
            0 <= i < j < s.filter(pass).len() ==> #[trigger] s.filter(pass)[i] < #[trigger] s.filter(
                pass,
            )[j],
        forall|i: int| 0 <= i < s.filter(pass).len() ==> s.contains(#[trigger] s.filter(pass)[i]),
    decreases s.len(),
{
    reveal(Seq::filter);
    if s.len() > 0 {
        let rest = s.drop_last();
        assert(forall|i: int| 0 <= i < rest.len() ==> rest[i] == s[i]);
        lemma_filter_ascends(rest, pass);
        let f = rest.filter(pass);
        assert forall|i: int| 0 <= i < f.len() implies s.contains(#[trigger] f[i]) && f[i]
            < s.last() by {
            assert(rest.contains(f[i]));
            let l = choose|l: int| 0 <= l < rest.len() && rest[l] == f[i];
            assert(s[l] < s[s.len() - 1]);
        }
        assert(s.contains(s[s.len() - 1]));
    }
}

/// A query that is pruned keeps the `h` largest values, still in the order of their components.
pub proof fn law_pruning_keeps_the_largest(values: Seq<u32>, h: nat)
    requires
        values.len() <= usize::MAX,
        h <= values.len(),
    ensures
        keeps_largest(values, h, top_positions(values, h)),
{
    let order = descending(values);
    let kept = top_positions(values, h);
    let head = first(order, h);
    let everyone = Seq::new(values.len(), |i: int| i as usize);
    law_h_values_stay(values, h);
    law_descending_positions(values);
    lemma_among_first(order, h, values.len());
    lemma_filter_ascends(everyone, |i: usize| first(order, h).contains(i));
    assert forall|i: int, dropped: usize|
        0 <= i < kept.len() && dropped < values.len() && !#[trigger] kept.contains(
            dropped,
        ) implies total_key(values[dropped as int]) < total_key(values[#[trigger] kept[i] as int])
        || (total_key(values[dropped as int]) == total_key(values[kept[i] as int]) && kept[i]
        < dropped) by {
        assert(kept.contains(kept[i]));
        let a = choose|a: int| 0 <= a < head.len() && head[a] == kept[i];
        assert(order.contains(dropped));
        let b = choose|b: int| 0 <= b < order.len() && order[b] == dropped;
        if b < head.len() {
            assert(head[b] == dropped);
            assert(head.contains(dropped));
        }
        assert(order[a] == kept[i]);
    }
}

} // verus!
