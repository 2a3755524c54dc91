//! The assignment of vectors to levels.
use crate::graph::lemma_take_push;
use crate::permutation::is_permutation;
use vstd::prelude::*;

verus! {

/// The ids whose drawn level is `level`, in the order of `ids`.
pub open spec fn at_level(ids: Seq<usize>, drawn: Seq<u8>, level: int) -> Seq<usize>
    decreases ids.len(),
{
    if ids.len() == 0 {
        Seq::empty()
    } else {
        let rest = at_level(ids.drop_last(), drawn.drop_last(), level);
        if drawn.last() == level {
            rest.push(ids.last())
        } else {
            rest
        }
    }
}

/// The highest level that was drawn; 0 if none was.
pub open spec fn highest(drawn: Seq<u8>) -> u8
    decreases drawn.len(),
{
    if drawn.len() == 0 {
        0
    } else {
        let rest = highest(drawn.drop_last());
        if drawn.last() > rest {
            drawn.last()
        } else {
            rest
        }
    }
}

/// The ids whose drawn level is at least `level`, those of higher levels first.
pub open spec fn from_level(ids: Seq<usize>, drawn: Seq<u8>, level: int) -> Seq<usize>
    decreases highest(drawn) + 1 - level,
{
    if level > highest(drawn) {
        Seq::empty()
    } else {
        from_level(ids, drawn, level + 1) + at_level(ids, drawn, level)
    }
}

/// The assignment of vectors to levels.
pub struct LevelAssignment {
    /// `levels_mapping[i]` holds the ids of the vectors on level `i + 1`.
    pub levels_mapping: Vec<Vec<usize>>,
    /// All ids, those of higher levels first.
    pub ids_sorted_by_level: Vec<usize>,
    /// The number of vectors on the `i` highest levels.
    pub cumulative_ids_per_level: Vec<usize>,
    /// The highest level that has a vector.
    pub max_level: u8,
}

impl LevelAssignment {
    /// This is the assignment in which `ids[i]` goes to all levels up to `drawn[i]`.
    pub open spec fn is_of(&self, ids: Seq<usize>, drawn: Seq<u8>) -> bool {
        &&& self.max_level == highest(drawn)
        &&& self.ids_sorted_by_level@ == from_level(ids, drawn, 0)
        &&& self.cumulative_ids_per_level@.len() == self.max_level + 2
        &&& forall|i: int|
            0 <= i < self.max_level + 2 ==> #[trigger] self.cumulative_ids_per_level@[i]
                == from_level(ids, drawn, self.max_level + 1 - i).len()
        &&& self.levels_mapping@.len() == self.max_level
        &&& forall|i: int|
            0 <= i < self.max_level ==> (#[trigger] self.levels_mapping@[i])@ == from_level(
                ids,
                drawn,
                i + 1,
            )
    }
}

proof fn lemma_at_level_push(ids: Seq<usize>, drawn: Seq<u8>, i: int, level: int)
    requires
        0 <= i < ids.len(),
        ids.len() == drawn.len(),
    ensures
        at_level(ids.take(i + 1), drawn.take(i + 1), level) == (if drawn[i] == level {
            at_level(ids.take(i), drawn.take(i), level).push(ids[i])
        } else {
            at_level(ids.take(i), drawn.take(i), level)
        }),
{
    lemma_take_push(ids, i);
    lemma_take_push(drawn, i);
}

proof fn lemma_highest(drawn: Seq<u8>)
    ensures
        forall|i: int| 0 <= i < drawn.len() ==> #[trigger] drawn[i] <= highest(drawn),
        drawn.len() > 0 ==> drawn.contains(highest(drawn)),
    decreases drawn.len(),
{
    if drawn.len() > 0 {
        let rest = drawn.drop_last();
        lemma_highest(rest);
        assert forall|i: int| 0 <= i < drawn.len() implies #[trigger] drawn[i]
            <= highest(drawn) by {
            if i < rest.len() {
                assert(rest[i] == drawn[i]);
            }
        }
        assert(drawn[drawn.len() - 1] == drawn.last());
        if highest(drawn) != drawn.last() && rest.len() > 0 {
            let i = choose|i: int| 0 <= i < rest.len() && rest[i] == highest(rest);
            assert(drawn[i] == highest(drawn));
        }
    }
}

proof fn lemma_at_level_members(ids: Seq<usize>, drawn: Seq<u8>, level: int)
    requires
        ids.len() == drawn.len(),
    ensures
        forall|x: usize| #[trigger]
            at_level(ids, drawn, level).contains(x) <==> exists|i: int|
                0 <= i < ids.len() && drawn[i] == level && #[trigger] ids[i] == x,
        at_level(ids, drawn, level).len() <= ids.len(),
    decreases ids.len(),
{
    if ids.len() > 0 {
        let pre = ids.drop_last();
        let dpre = drawn.drop_last();
        lemma_at_level_members(pre, dpre, level);
        let rest = at_level(pre, dpre, level);
        let all = at_level(ids, drawn, level);
        assert forall|x: usize| #[trigger] all.contains(x) <==> exists|i: int|
            0 <= i < ids.len() && drawn[i] == level && #[trigger] ids[i] == x by {
            if all.contains(x) {
                let j = choose|j: int| 0 <= j < all.len() && all[j] == x;
                if j < rest.len() {
                    assert(rest.contains(rest[j]));
                    let i = choose|i: int|
                        0 <= i < pre.len() && dpre[i] == level && #[trigger] pre[i] == x;
                    assert(ids[i] == x && drawn[i] == level);
                } else {
                    assert(ids[ids.len() - 1] == x);
                }
            }
            if exists|i: int| 0 <= i < ids.len() && drawn[i] == level && #[trigger] ids[i] == x {
                let i = choose|i: int|
                    0 <= i < ids.len() && drawn[i] == level && #[trigger] ids[i] == x;
                if i < pre.len() {
                    assert(pre[i] == x && dpre[i] == level);
                    assert(rest.contains(x));
                    let j = choose|j: int| 0 <= j < rest.len() && rest[j] == x;
                    assert(all[j] == x);
                } else {
                    assert(all[all.len() - 1] == x);
                }
            }
        }
    }
}

proof fn lemma_at_level_distinct(ids: Seq<usize>, drawn: Seq<u8>, level: int)
    requires
        ids.len() == drawn.len(),
        ids.no_duplicates(),
    ensures
        at_level(ids, drawn, level).no_duplicates(),
    decreases ids.len(),
{
    if ids.len() > 0 {
        let pre = ids.drop_last();
        let dpre = drawn.drop_last();
        assert(pre.no_duplicates()) by {
            assert(forall|i: int| 0 <= i < pre.len() ==> pre[i] == ids[i]);
        }
        lemma_at_level_distinct(pre, dpre, level);
        lemma_at_level_members(pre, dpre, level);
        let rest = at_level(pre, dpre, level);
        assert(!rest.contains(ids.last())) by {
            if rest.contains(ids.last()) {
                let i = choose|i: int|
                    0 <= i < pre.len() && dpre[i] == level && #[trigger] pre[i] == ids.last();
                assert(ids[i] == ids[ids.len() - 1]);
            }
        }
        let all = at_level(ids, drawn, level);
        assert forall|i: int, j: int| 0 <= i < all.len() && 0 <= j < all.len() && i
            != j implies all[i] != all[j] by {
            if i == rest.len() {
                assert(rest.contains(rest[j]));
            } else if j == rest.len() {
                assert(rest.contains(rest[i]));
            }
        }
    }
}

/// Going down from the highest level, every id turns up once, at its own level.
pub proof fn lemma_from_level(ids: Seq<usize>, drawn: Seq<u8>, level: int)
    requires
        ids.len() == drawn.len(),
        ids.no_duplicates(),
        0 <= level <= highest(drawn) + 1,
    ensures
        from_level(ids, drawn, level).no_duplicates(),
        forall|x: usize| #[trigger]
            from_level(ids, drawn, level).contains(x) <==> exists|i: int|
                0 <= i < ids.len() && drawn[i] >= level && #[trigger] ids[i] == x,
    decreases highest(drawn) + 1 - level,
{
    let all = from_level(ids, drawn, level);
    lemma_highest(drawn);
    if level <= highest(drawn) {
        let above = from_level(ids, drawn, level + 1);
        let here = at_level(ids, drawn, level);
        lemma_from_level(ids, drawn, level + 1);
        lemma_at_level_members(ids, drawn, level);
        lemma_at_level_distinct(ids, drawn, level);
        assert forall|x: usize| #[trigger] all.contains(x) <==> exists|i: int|
            0 <= i < ids.len() && drawn[i] >= level && #[trigger] ids[i] == x by {
            if all.contains(x) {
                let j = choose|j: int| 0 <= j < all.len() && all[j] == x;
                if j < above.len() {
                    assert(above.contains(above[j]));
                } else {
                    assert(here.contains(here[j - above.len()]));
                }
            }
            if exists|i: int| 0 <= i < ids.len() && drawn[i] >= level && #[trigger] ids[i] == x {
                let i = choose|i: int|
                    0 <= i < ids.len() && drawn[i] >= level && #[trigger] ids[i] == x;
                if drawn[i] == level {
                    assert(here.contains(x));
                    let j = choose|j: int| 0 <= j < here.len() && here[j] == x;
                    assert(all[above.len() + j] == x);
                } else {
                    assert(above.contains(x));
                    let j = choose|j: int| 0 <= j < above.len() && above[j] == x;
                    assert(all[j] == x);
                }
            }
        }
        assert forall|a: int, b: int| 0 <= a < all.len() && 0 <= b < all.len() && a
            != b implies all[a] != all[b] by {
            if a < above.len() && b < above.len() {
            } else if a >= above.len() && b >= above.len() {
                assert(here[a - above.len()] != here[b - above.len()]);
            } else {
                let (lo, hi) = if a < b { (a, b) } else { (b, a) };
                assert(above.contains(above[lo]));
                assert(here.contains(here[hi - above.len()]));
                let i = choose|i: int|
                    0 <= i < ids.len() && drawn[i] >= level + 1 && #[trigger] ids[i] == above[lo];
                let j = choose|j: int|
                    0 <= j < ids.len() && drawn[j] == level && #[trigger] ids[j]
                        == here[hi - above.len()];
                assert(i != j);
            }
        }
    } else {
        assert forall|x: usize| #[trigger] all.contains(x) <==> exists|i: int|
            0 <= i < ids.len() && drawn[i] >= level && #[trigger] ids[i] == x by {
        }
    }
}

/// The ids of a level stand first among those of every lower level.
pub proof fn law_levels_are_prefixes(ids: Seq<usize>, drawn: Seq<u8>, low: int, high: int)
    requires
        0 <= low <= high <= highest(drawn) + 1,
    ensures
        from_level(ids, drawn, high).len() <= from_level(ids, drawn, low).len(),
        from_level(ids, drawn, low).take(from_level(ids, drawn, high).len() as int) == from_level(
            ids,
            drawn,
            high,
        ),
    decreases high - low,
{
    let lower = from_level(ids, drawn, low);
    let upper = from_level(ids, drawn, high);
    if low < high {
        law_levels_are_prefixes(ids, drawn, low + 1, high);
        let mid = from_level(ids, drawn, low + 1);
        assert(lower == mid + at_level(ids, drawn, low));
        assert(lower.take(upper.len() as int) =~= mid.take(upper.len() as int));
    } else {
        assert(lower.take(upper.len() as int) =~= upper);
    }
}

/// Every vector is on the ground level, and no level is empty.
pub proof fn law_every_vector_has_a_level(ids: Seq<usize>, drawn: Seq<u8>)
    requires
        is_permutation(ids),
        ids.len() == drawn.len(),
        ids.len() > 0,
    ensures
        is_permutation(from_level(ids, drawn, 0)),
        from_level(ids, drawn, 0).len() == ids.len(),
        forall|level: int|
            0 <= level <= highest(drawn) ==> (#[trigger] from_level(ids, drawn, level)).len() > 0,
{
    let all = from_level(ids, drawn, 0);
    assert(ids.no_duplicates());
    lemma_highest(drawn);
    lemma_from_level(ids, drawn, 0);
    lemma_from_level(ids, drawn, highest(drawn) as int);
    assert(all.to_set() =~= ids.to_set()) by {
        assert forall|x: usize| ids.contains(x) implies all.contains(x) by {
            let i = choose|i: int| 0 <= i < ids.len() && ids[i] == x;
            assert(drawn[i] >= 0 && ids[i] == x);
        }
        assert forall|x: usize| all.contains(x) implies ids.contains(x) by {
            let i = choose|i: int| 0 <= i < ids.len() && drawn[i] >= 0 && #[trigger] ids[i] == x;
            assert(ids[i] == x);
        }
    }
    ids.unique_seq_to_set();
    all.unique_seq_to_set();
    assert forall|i: int| 0 <= i < all.len() implies #[trigger] all[i] < all.len() by {
        assert(all.contains(all[i]));
        let j = choose|j: int| 0 <= j < ids.len() && drawn[j] >= 0 && #[trigger] ids[j] == all[i];
        assert(ids[j] < ids.len());
    }
    let i = choose|i: int| 0 <= i < drawn.len() && drawn[i] == highest(drawn);
    let top = from_level(ids, drawn, highest(drawn) as int);
    assert(drawn[i] >= highest(drawn) && ids[i] == ids[i]);
    assert(top.contains(ids[i]));
    assert forall|level: int| 0 <= level <= highest(drawn) implies (
    #[trigger] from_level(ids, drawn, level)).len() > 0 by {
        law_levels_are_prefixes(ids, drawn, level, highest(drawn) as int);
    }
}

/// Assigns every vector to all levels up to the one drawn for it: `all_ids[i]` to those up to
/// `drawn[i]`.
pub fn compute_levels(all_ids: &[usize], drawn: &[u8]) -> (assignment: LevelAssignment)
    requires
        all_ids@.len() == drawn@.len(),
    ensures
        assignment.is_of(all_ids@, drawn@),
{
    let ghost ids = all_ids@;
    let ghost lv = drawn@;
    let n: usize = all_ids.len();
    let mut ids_per_level: Vec<Vec<usize>> = Vec::new();
    let mut i: usize = 0;
    while i < 256
        invariant
            i <= 256,
            ids_per_level@.len() == i,
            forall|l: int| 0 <= l < i ==> (#[trigger] ids_per_level@[l])@ == Seq::<usize>::empty(),
        decreases 256 - i,
    {
        ids_per_level.push(Vec::new());
        i += 1;
    }
    let mut max_level: u8 = 0;
    i = 0;
    while i < n
        invariant
            ids == all_ids@,
            lv == drawn@,
            n == ids.len(),
            lv.len() == n,
            i <= n,
            ids_per_level@.len() == 256,
            max_level == highest(lv.take(i as int)),
            forall|l: int|
                0 <= l < 256 ==> (#[trigger] ids_per_level@[l])@ == at_level(
                    ids.take(i as int),
                    lv.take(i as int),
                    l,
                ),
        decreases n - i,
    {
        let level: u8 = drawn[i];
        proof {
            lemma_take_push(lv, i as int);
            assert forall|l: int| 0 <= l < 256 implies at_level(
                ids.take(i + 1),
                lv.take(i + 1),
                l,
            ) == (if lv[i as int] == l {
                at_level(ids.take(i as int), lv.take(i as int), l).push(ids[i as int])
            } else {
                at_level(ids.take(i as int), lv.take(i as int), l)
            }) by {
                lemma_at_level_push(ids, lv, i as int, l);
            }
        }
        ids_per_level[level as usize].push(all_ids[i]);
        if level > max_level {
            max_level = level;
        }
        i += 1;
    }
    proof {
        assert(ids.take(n as int) =~= ids);
        assert(lv.take(n as int) =~= lv);
    }
    let mut ids_sorted_by_level: Vec<usize> = Vec::new();
    let mut cumulative_ids_per_level: Vec<usize> = Vec::new();
    cumulative_ids_per_level.push(0);
    let mut next: usize = max_level as usize + 1;
    while next > 0
        invariant
            max_level == highest(lv),
            next <= max_level + 1,
            ids_per_level@.len() == 256,
            forall|l: int|
                0 <= l < 256 ==> (#[trigger] ids_per_level@[l])@ == at_level(ids, lv, l),
            ids_sorted_by_level@ == from_level(ids, lv, next as int),
            cumulative_ids_per_level@.len() == max_level + 2 - next,
            forall|c: int|
                0 <= c < cumulative_ids_per_level@.len()
                    ==> #[trigger] cumulative_ids_per_level@[c] == from_level(
                    ids,
                    lv,
                    max_level + 1 - c,
                ).len(),
        decreases next,
    {
        let level: usize = next - 1;
        let here = &ids_per_level[level];
        let ghost above = ids_sorted_by_level@;
        let mut j: usize = 0;
        while j < here.len()
            invariant
                j <= here@.len(),
                ids_sorted_by_level@ == above + here@.take(j as int),
            decreases here@.len() - j,
        {
            ids_sorted_by_level.push(here[j]);
            j += 1;
            assert(ids_sorted_by_level@ =~= above + here@.take(j as int));
        }
        assert(here@.take(j as int) =~= here@);
        next = level;
        cumulative_ids_per_level.push(ids_sorted_by_level.len());
    }
    let mut levels_mapping: Vec<Vec<usize>> = Vec::new();
    i = 0;
    while i < max_level as usize
        invariant
            max_level == highest(lv),
            i <= max_level,
            ids_sorted_by_level@ == from_level(ids, lv, 0),
            cumulative_ids_per_level@.len() == max_level + 2,
            forall|c: int|
                0 <= c < max_level + 2 ==> #[trigger] cumulative_ids_per_level@[c] == from_level(
                    ids,
                    lv,
                    max_level + 1 - c,
                ).len(),
            levels_mapping@.len() == i,
            forall|l: int|
                0 <= l < i ==> (#[trigger] levels_mapping@[l])@ == from_level(ids, lv, l + 1),
        decreases max_level - i,
    {
        let count: usize = cumulative_ids_per_level[max_level as usize - i];
        proof {
            law_levels_are_prefixes(ids, lv, 0, i + 1);
        }
        let mut mapping: Vec<usize> = Vec::new();
        let mut j: usize = 0;
        while j < count
            invariant
                j <= count <= ids_sorted_by_level@.len(),
                mapping@ == ids_sorted_by_level@.take(j as int),
            decreases count - j,
        {
            mapping.push(ids_sorted_by_level[j]);
            j += 1;
            assert(mapping@ =~= ids_sorted_by_level@.take(j as int));
        }
        levels_mapping.push(mapping);
        i += 1;
    }
    LevelAssignment { levels_mapping, ids_sorted_by_level, cumulative_ids_per_level, max_level }
}

proof fn lemma_at_level_origin(ids: Seq<usize>, drawn: Seq<u8>, level: int) -> (origin: Seq<int>)
    requires
        ids.len() == drawn.len(),
    ensures
        at_level(ids, drawn, level) == origin.map_values(|i: int| ids[i]),
        forall|i: int| #[trigger]
            origin.contains(i) <==> 0 <= i < ids.len() && drawn[i] == level,
        forall|a: int, b: int|
            0 <= a < b < origin.len() ==> #[trigger] origin[a] < #[trigger] origin[b],
    decreases ids.len(),
{
    if ids.len() == 0 {
        let origin = Seq::<int>::empty();
        assert(at_level(ids, drawn, level) =~= origin.map_values(|i: int| ids[i]));
        origin
    } else {
        let at = ids.len() - 1;
        let rest = lemma_at_level_origin(ids.drop_last(), drawn.drop_last(), level);
        assert forall|a: int| 0 <= a < rest.len() implies 0 <= #[trigger] rest[a] < at by {
            assert(rest.contains(rest[a]));
        }
        let origin = if drawn.last() == level {
            rest.push(at)
        } else {
            rest
        };
        assert(at_level(ids, drawn, level) =~= origin.map_values(|i: int| ids[i])) by {
            assert(at_level(ids.drop_last(), drawn.drop_last(), level) =~= rest.map_values(
                |i: int| ids[i],
            ));
        }
        assert forall|i: int| #[trigger] origin.contains(i) <==> 0 <= i < ids.len() && drawn[i]
            == level by {
            if origin.contains(i) {
                let a = choose|a: int| 0 <= a < origin.len() && origin[a] == i;
                if a < rest.len() {
                    assert(rest.contains(rest[a]));
                }
            }
            if 0 <= i < at && drawn[i] == level {
                assert(rest.contains(i));
                let a = choose|a: int| 0 <= a < rest.len() && rest[a] == i;
                assert(origin[a] == i);
            }
            if i == at && drawn[i] == level {
                assert(origin[rest.len() as int] == i);
            }
        }
        origin
    }
}

/// The highest level is the largest one drawn.
pub proof fn law_highest_is_the_largest(drawn: Seq<u8>)
    ensures
        forall|i: int| 0 <= i < drawn.len() ==> #[trigger] drawn[i] <= highest(drawn),
        drawn.len() > 0 ==> drawn.contains(highest(drawn)),
        drawn.len() == 0 ==> highest(drawn) == 0,
{
    lemma_highest(drawn);
}

/// A level has just the vectors that drew it or a higher one. Those that drew a higher level come
/// first, and those that drew the same one stay in the order they were given in. The result tells
/// where each one was given.
pub proof fn law_vectors_are_sorted_by_level(ids: Seq<usize>, drawn: Seq<u8>, level: int) -> (origin:
    Seq<int>)
    requires
        ids.len() == drawn.len(),
        0 <= level <= highest(drawn) + 1,
    ensures
        from_level(ids, drawn, level) == origin.map_values(|i: int| ids[i]),
        forall|i: int| #[trigger]
            origin.contains(i) <==> 0 <= i < ids.len() && drawn[i] >= level,
        forall|a: int, b: int|
            0 <= a < b < origin.len() ==> drawn[#[trigger] origin[a]] > drawn[#[trigger] origin[b]]
                || (drawn[origin[a]] == drawn[origin[b]] && origin[a] < origin[b]),
    decreases highest(drawn) + 1 - level,
{
    lemma_highest(drawn);
    if level > highest(drawn) {
        let origin = Seq::<int>::empty();
        assert(from_level(ids, drawn, level) =~= origin.map_values(|i: int| ids[i]));
        origin
    } else {
        let above = law_vectors_are_sorted_by_level(ids, drawn, level + 1);
        let here = lemma_at_level_origin(ids, drawn, level);
        let origin = above + here;
        assert(from_level(ids, drawn, level) =~= origin.map_values(|i: int| ids[i]));
        assert forall|i: int| #[trigger] origin.contains(i) <==> 0 <= i < ids.len() && drawn[i]
            >= level by {
            if origin.contains(i) {
                let a = choose|a: int| 0 <= a < origin.len() && origin[a] == i;
                if a < above.len() {
                    assert(above.contains(above[a]));
                } else {
                    assert(here.contains(here[a - above.len()]));
                }
            }
            if 0 <= i < ids.len() && drawn[i] > level {
                assert(above.contains(i));
                let a = choose|a: int| 0 <= a < above.len() && above[a] == i;
                assert(origin[a] == i);
            }
            if 0 <= i < ids.len() && drawn[i] == level {
                assert(here.contains(i));
                let a = choose|a: int| 0 <= a < here.len() && here[a] == i;
                assert(origin[above.len() + a] == i);
            }
        }
        assert forall|a: int, b: int| 0 <= a < b < origin.len() implies drawn[#[trigger] origin[a]]
            > drawn[#[trigger] origin[b]] || (drawn[origin[a]] == drawn[origin[b]] && origin[a]
            < origin[b]) by {
            if b < above.len() {
                assert(origin[a] == above[a] && origin[b] == above[b]);
            } else {
                assert(origin[b] == here[b - above.len()]);
                assert(here.contains(here[b - above.len()]));
                if a < above.len() {
                    assert(origin[a] == above[a]);
                    assert(above.contains(above[a]));
                } else {
                    assert(origin[a] == here[a - above.len()]);
                    assert(here.contains(here[a - above.len()]));
                }
            }
        }
        origin
    }
}

} // verus!
