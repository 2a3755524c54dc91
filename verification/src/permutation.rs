//! Permutations of node ids, and the reordering of graphs.
pub use crate::egb::compute_egb_permutation;
pub use crate::reorder::upper_level_order_preserving_hnsw_prefixes;

use crate::graph::lemma_take_push;
use crate::text::{append_decimal, decimal};
use vstd::prelude::*;
use vstd::string::*;

verus! {

/// `p` holds each of the numbers below its length once.
pub open spec fn is_permutation(p: Seq<usize>) -> bool {
    &&& forall|i: int| 0 <= i < p.len() ==> #[trigger] p[i] < p.len()
    &&& forall|i: int, j: int| 0 <= i < j < p.len() ==> #[trigger] p[i] != #[trigger] p[j]
}

/// The last position at which `p` holds `x`; 0 if it holds it nowhere.
pub open spec fn last_position(p: Seq<usize>, x: usize) -> usize
    decreases p.len(),
{
    if p.len() == 0 {
        0
    } else if p.last() == x {
        (p.len() - 1) as usize
    } else {
        last_position(p.drop_last(), x)
    }
}

/// The sequence that holds at `x` the last position of `x` in `p`: the inverse, if `p` is a
/// permutation.
pub open spec fn inverted(p: Seq<usize>) -> Seq<usize> {
    Seq::new(p.len(), |x: int| last_position(p, x as usize))
}

pub proof fn lemma_last_position(p: Seq<usize>, i: int)
    requires
        0 <= i < p.len() <= usize::MAX,
    ensures
        i <= last_position(p, p[i]) < p.len(),
        p[last_position(p, p[i]) as int] == p[i],
    decreases p.len(),
{
    if p.last() != p[i] {
        assert(p.drop_last()[i] == p[i]);
        lemma_last_position(p.drop_last(), i);
        assert(p.drop_last()[last_position(p, p[i]) as int] == p[i]);
    }
}

/// A permutation holds every number below its length.
pub proof fn lemma_permutation_onto(p: Seq<usize>, x: usize)
    requires
        is_permutation(p),
        x < p.len(),
    ensures
        p.contains(x),
{
    let as_int = |v: usize| v as int;
    let values = p.map_values(as_int);
    let range = vstd::set_lib::set_int_range(0, p.len() as int);
    vstd::set_lib::lemma_int_range(0, p.len() as int);
    assert(values.no_duplicates()) by {
        assert forall|i: int, j: int|
            0 <= i < values.len() && 0 <= j < values.len() && i != j implies values[i]
            != values[j] by {
            if i < j {
                assert(p[i] != p[j]);
            } else {
                assert(p[j] != p[i]);
            }
        }
    }
    values.unique_seq_to_set();
    assert(values.to_set().subset_of(range)) by {
        assert forall|v: int| values.to_set().contains(v) implies range.contains(v) by {
            let i = choose|i: int| 0 <= i < values.len() && values[i] == v;
            assert(p[i] < p.len());
        }
    }
    vstd::set_lib::lemma_subset_equality(values.to_set(), range);
    assert(range.contains(x as int));
    let i = choose|i: int| 0 <= i < values.len() && values[i] == x as int;
    assert(p[i] == x);
}

/// `q` takes every number that `p` sent somewhere back to where it came from.
pub open spec fn takes_back(p: Seq<usize>, q: Seq<usize>) -> bool {
    forall|i: int| 0 <= i < p.len() ==> #[trigger] q[p[i] as int] == i
}

/// Inverting a permutation gives a permutation that takes every number back to where it came
/// from.
pub proof fn law_inverse_takes_back(p: Seq<usize>)
    requires
        is_permutation(p),
        p.len() <= usize::MAX,
    ensures
        is_permutation(inverted(p)),
        inverted(p).len() == p.len(),
        takes_back(p, inverted(p)),
        takes_back(inverted(p), p),
{
    let q = inverted(p);
    assert forall|i: int| 0 <= i < p.len() implies #[trigger] q[p[i] as int] == i by {
        assert(p[i] < p.len());
        lemma_last_position(p, i);
        let l = last_position(p, p[i]) as int;
        if i < l {
            assert(p[i] != p[l]);
        }
    }
    assert forall|x: int| 0 <= x < p.len() implies #[trigger] q[x] < p.len() && p[q[x] as int]
        == x by {
        lemma_permutation_onto(p, x as usize);
        let i = choose|i: int| 0 <= i < p.len() && p[i] == x as usize;
        assert(q[p[i] as int] == i);
    }
    assert forall|x: int, y: int| 0 <= x < y < q.len() implies #[trigger] q[x]
        != #[trigger] q[y] by {
        assert(p[q[x] as int] == x && p[q[y] as int] == y);
    }
}

/// Inverting a permutation twice gives it back.
pub proof fn law_inversion_is_self_inverse(p: Seq<usize>)
    requires
        is_permutation(p),
        p.len() <= usize::MAX,
    ensures
        inverted(inverted(p)) == p,
{
    let q = inverted(p);
    law_inverse_takes_back(p);
    law_inverse_takes_back(q);
    assert forall|i: int| 0 <= i < p.len() implies inverted(q)[i] == p[i] by {
        assert(q[p[i] as int] == i);
        assert(inverted(q)[q[p[i] as int] as int] == p[i]);
    }
    assert(inverted(q) =~= p);
}

/// Inverts a permutation: where `p[old] == new`, the result holds `old` at `new`.
pub fn invert_mapping(p: &[usize]) -> (inverse: Vec<usize>)
    requires
        forall|i: int| 0 <= i < p@.len() ==> #[trigger] p@[i] < p@.len(),
    ensures
        inverse@ == inverted(p@),
{
    let n: usize = p.len();
    let mut inverse: Vec<usize> = Vec::new();
    let mut i: usize = 0;
    while i < n
        invariant
            i <= n,
            inverse@.len() == i,
            forall|x: int| 0 <= x < i ==> #[trigger] inverse@[x] == 0,
        decreases n - i,
    {
        inverse.push(0);
        i += 1;
    }
    i = 0;
    while i < n
        invariant
            n == p@.len(),
            i <= n,
            inverse@.len() == n,
            forall|l: int| 0 <= l < p@.len() ==> #[trigger] p@[l] < p@.len(),
            forall|x: int|
                0 <= x < n ==> #[trigger] inverse@[x] == last_position(
                    p@.take(i as int),
                    x as usize,
                ),
        decreases n - i,
    {
        let new_id: usize = p[i];
        inverse.set(new_id, i);
        proof {
            let prefix = p@.take(i + 1);
            assert(prefix.drop_last() =~= p@.take(i as int));
            assert(prefix.last() == new_id);
        }
        i += 1;
    }
    assert(p@.take(n as int) =~= p@);
    assert(inverse@ =~= inverted(p@));
    inverse
}

/// Position `i` keeps `p` from being a permutation: its value is out of range or was there before.
pub open spec fn faulty(p: Seq<usize>, i: int) -> bool {
    p[i] >= p.len() || p.take(i).contains(p[i])
}

/// What is said of the faulty position `i`.
pub open spec fn fault_message(p: Seq<usize>, i: int) -> Seq<char> {
    if p[i] >= p.len() {
        "invalid permutation: value "@ + decimal(p[i] as nat) + " at position "@ + decimal(i as nat)
            + " out of range"@
    } else {
        "invalid permutation: duplicate value "@ + decimal(p[i] as nat)
    }
}

/// Checks that `p` is a permutation; the error tells of the first position that is at fault.
pub fn validate_permutation(p: &[usize]) -> (result: Result<(), String>)
    ensures
        result is Ok <==> is_permutation(p@),
        result matches Err(message) ==> exists|i: int|
            {
                &&& 0 <= i < p@.len()
                &&& #[trigger] faulty(p@, i)
                &&& forall|j: int| 0 <= j < i ==> !#[trigger] faulty(p@, j)
                &&& message@ == fault_message(p@, i)
            },
{
    let n: usize = p.len();
    let mut seen: Vec<bool> = Vec::new();
    let mut i: usize = 0;
    while i < n
        invariant
            i <= n,
            seen@.len() == i,
            forall|x: int| 0 <= x < i ==> #[trigger] seen@[x] == false,
        decreases n - i,
    {
        seen.push(false);
        i += 1;
    }
    i = 0;
    while i < n
        invariant
            n == p@.len(),
            i <= n,
            seen@.len() == n,
            forall|x: int|
                0 <= x < n ==> #[trigger] seen@[x] == p@.take(i as int).contains(x as usize),
            forall|j: int| 0 <= j < i ==> !#[trigger] faulty(p@, j),
        decreases n - i,
    {
        let x: usize = p[i];
        if x >= n {
            assert(faulty(p@, i as int));
            let mut message = String::from_str("invalid permutation: value ");
            append_decimal(&mut message, x);
            message.append(" at position ");
            append_decimal(&mut message, i);
            message.append(" out of range");
            return Err(message);
        }
        if seen[x] {
            proof {
                assert(faulty(p@, i as int));
                let j = choose|j: int| 0 <= j < i && p@.take(i as int)[j] == x;
                assert(p@[j] == p@[i as int]);
            }
            let mut message = String::from_str("invalid permutation: duplicate value ");
            append_decimal(&mut message, x);
            return Err(message);
        }
        seen.set(x, true);
        proof {
            assert(!faulty(p@, i as int));
            lemma_take_push(p@, i as int);
            let before = p@.take(i as int);
            assert forall|y: usize| #[trigger] before.push(x).contains(y) <==> before.contains(y)
                || y == x by {
                if before.contains(y) {
                    let l = choose|l: int| 0 <= l < before.len() && before[l] == y;
                    assert(before.push(x)[l] == y);
                }
                if y == x {
                    assert(before.push(x)[i as int] == x);
                }
            }
        }
        i += 1;
    }
    proof {
        assert forall|a: int, b: int| 0 <= a < b < p@.len() implies #[trigger] p@[a]
            != #[trigger] p@[b] by {
            assert(!faulty(p@, b));
            assert(p@.take(b)[a] == p@[a]);
        }
        assert forall|a: int| 0 <= a < p@.len() implies #[trigger] p@[a] < p@.len() by {
            assert(!faulty(p@, a));
        }
    }
    Ok(())
}

} // verus!
