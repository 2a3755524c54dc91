//! The file formats and reports of the sparse search programs.
use crate::graph::lemma_take_push;
use crate::permutation::{inverted, is_permutation, law_inverse_takes_back};
use crate::scored::ScoredItem;
use std::collections::HashSet;
use vstd::bytes::{
    lemma_auto_spec_u64_to_from_le_bytes, spec_u64_from_le_bytes, spec_u64_to_le_bytes,
    u64_from_le_bytes, u64_to_le_bytes,
};
use vstd::prelude::*;

verus! {

broadcast use vstd::std_specs::hash::group_hash_axioms;

/// The component ids of a sparse matrix: the low sixteen bits of the stored indices.
pub fn narrow_components(indices: &[i64]) -> (components: Vec<u16>)
    ensures
        components@.len() == indices@.len(),
        forall|i: int|
            0 <= i < components@.len() ==> #[trigger] components@[i] == indices@[i] & 0xffff,
{
    let mut components: Vec<u16> = Vec::new();
    let mut i: usize = 0;
    while i < indices.len()
        invariant
            i <= indices@.len(),
            components@.len() == i,
            forall|l: int|
                0 <= l < i ==> #[trigger] components@[l] == indices@[l] & 0xffff,
        decreases indices@.len() - i,
    {
        let index: i64 = indices[i];
        assert(0 <= index & 0xffff <= 0xffff) by (bit_vector);
        components.push((index & 0xffff) as u16);
        i += 1;
    }
    components
}

/// Row `i` of a sparse matrix with `n_values` stored values is a range of them.
pub open spec fn row_ok(indptr: Seq<i64>, n_values: nat, i: int) -> bool {
    0 <= indptr[i] <= indptr[i + 1] <= n_values
}

/// The ranges of the stored values that make up the rows of a sparse matrix; nothing if some row
/// is no range of them.
pub fn csr_row_bounds(indptr: &[i64], n_values: usize) -> (bounds: Option<Vec<(usize, usize)>>)
    ensures
        bounds is Some <==> forall|i: int|
            0 <= i < indptr@.len() - 1 ==> #[trigger] row_ok(indptr@, n_values as nat, i),
        bounds matches Some(rows) ==> {
            &&& rows@.len() == (if indptr@.len() == 0 {
                0
            } else {
                indptr@.len() - 1
            })
            &&& forall|i: int|
                0 <= i < rows@.len() ==> (#[trigger] rows@[i]).0 == indptr@[i] && rows@[i].1
                    == indptr@[i + 1]
        },
{
    let mut rows: Vec<(usize, usize)> = Vec::new();
    let mut i: usize = 1;
    while i < indptr.len()
        invariant
            1 <= i,
            rows@.len() == i - 1,
            indptr@.len() >= 1 ==> i <= indptr@.len(),
            indptr@.len() == 0 ==> i == 1,
            forall|l: int| 0 <= l < i - 1 ==> #[trigger] row_ok(indptr@, n_values as nat, l),
            forall|l: int|
                0 <= l < rows@.len() ==> (#[trigger] rows@[l]).0 == indptr@[l] && rows@[l].1
                    == indptr@[l + 1],
        decreases indptr@.len() - i,
    {
        let start: i64 = indptr[i - 1];
        let end: i64 = indptr[i];
        if start < 0 || end < start || end as u64 > n_values as u64 {
            assert(!row_ok(indptr@, n_values as nat, i - 1));
            return None;
        }
        assert(row_ok(indptr@, n_values as nat, i - 1));
        rows.push((start as usize, end as usize));
        i += 1;
    }
    Some(rows)
}

/// The reported id of a found vector: counted from 1, and under its id before reordering.
pub open spec fn reported_id(vector: usize, inverse: Option<Seq<usize>>) -> int {
    match inverse {
        Some(inverse) => inverse[vector as int] + 1,
        None => vector + 1,
    }
}

/// Searching a reordered index does not show in the reported ids: the inverse permutation takes
/// each one back to the id before reordering.
pub proof fn law_reported_ids_survive_reordering(permutation: Seq<usize>, vector: usize)
    requires
        is_permutation(permutation),
        permutation.len() <= usize::MAX,
        vector < permutation.len(),
    ensures
        reported_id(permutation[vector as int], Some(inverted(permutation))) == reported_id(
            vector,
            None,
        ),
{
    law_inverse_takes_back(permutation);
    assert(inverted(permutation)[permutation[vector as int] as int] == vector);
}

/// The matrix of reported ids, row by row: the first `k` results of each query, filled up
/// with -1.
pub open spec fn reported_at(
    results: Seq<Seq<ScoredItem>>,
    k: int,
    inverse: Option<Seq<usize>>,
    at: int,
) -> int {
    let row = results[at / k];
    let j = at % k;
    if j < row.len() {
        reported_id(row[j].vector, inverse)
    } else {
        -1
    }
}

/// The matrix of reported distances: those of the first `k` results of each query, filled up with
/// nothing.
pub open spec fn distance_at(results: Seq<Seq<ScoredItem>>, k: int, at: int) -> Option<i64> {
    let row = results[at / k];
    let j = at % k;
    if j < row.len() {
        Some(row[j].distance)
    } else {
        None
    }
}

/// The views of several result lists.
pub open spec fn rows_view(results: Seq<Vec<ScoredItem>>) -> Seq<Seq<ScoredItem>> {
    results.map_values(|row: Vec<ScoredItem>| row@)
}

proof fn lemma_cell(q: int, j: int, k: int)
    by (nonlinear_arith)
    requires
        0 <= q,
        0 <= j < k,
    ensures
        (q * k + j) / k == q,
        (q * k + j) % k == j,
{
}

/// The matrices of reported ids and distances of `results`, with `k` columns. `inverse` takes the
/// ids of a reordered index back.
pub fn result_matrices(
    results: &Vec<Vec<ScoredItem>>,
    k: usize,
    inverse: Option<&Vec<usize>>,
) -> (matrices: (Vec<i64>, Vec<Option<i64>>))
    requires
        results@.len() * k <= usize::MAX,
        forall|q: int, j: int|
            0 <= q < results@.len() && 0 <= j < results@[q]@.len() && j < k ==> {
                let vector = (#[trigger] results@[q]@[j]).vector;
                &&& inverse matches Some(inverse) ==> vector < inverse@.len()
                &&& reported_id(
                    vector,
                    match inverse {
                        Some(inverse) => Some(inverse@),
                        None => None,
                    },
                ) <= i64::MAX
            },
    ensures
        matrices.0@.len() == results@.len() * k,
        matrices.1@.len() == results@.len() * k,
        forall|at: int|
            0 <= at < matrices.0@.len() ==> #[trigger] matrices.0@[at] == reported_at(
                rows_view(results@),
                k as int,
                match inverse {
                    Some(inverse) => Some(inverse@),
                    None => None,
                },
                at,
            ),
        forall|at: int|
            0 <= at < matrices.1@.len() ==> #[trigger] matrices.1@[at] == distance_at(
                rows_view(results@),
                k as int,
                at,
            ),
{
    let ghost rows = rows_view(results@);
    let ghost inv = match inverse {
        Some(inverse) => Some(inverse@),
        None => None,
    };
    let mut knns: Vec<i64> = Vec::new();
    let mut distances: Vec<Option<i64>> = Vec::new();
    let mut q: usize = 0;
    while q < results.len()
        invariant
            rows == rows_view(results@),
            inv == (match inverse {
                Some(inverse) => Some(inverse@),
                None => None,
            }),
            results@.len() * k <= usize::MAX,
            forall|q: int, j: int|
                0 <= q < results@.len() && 0 <= j < results@[q]@.len() && j < k ==> {
                    let vector = (#[trigger] results@[q]@[j]).vector;
                    &&& inverse matches Some(inverse) ==> vector < inverse@.len()
                    &&& reported_id(vector, inv) <= i64::MAX
                },
            q <= results@.len(),
            knns@.len() == q * k,
            distances@.len() == q * k,
            forall|at: int|
                0 <= at < knns@.len() ==> #[trigger] knns@[at] == reported_at(
                    rows,
                    k as int,
                    inv,
                    at,
                ),
            forall|at: int|
                0 <= at < distances@.len() ==> #[trigger] distances@[at] == distance_at(
                    rows,
                    k as int,
                    at,
                ),
        decreases results@.len() - q,
    {
        let row = &results[q];
        let mut j: usize = 0;
        while j < k
            invariant
                rows == rows_view(results@),
                inv == (match inverse {
                    Some(inverse) => Some(inverse@),
                    None => None,
                }),
                forall|q: int, j: int|
                    0 <= q < results@.len() && 0 <= j < results@[q]@.len() && j < k ==> {
                        let vector = (#[trigger] results@[q]@[j]).vector;
                        &&& inverse matches Some(inverse) ==> vector < inverse@.len()
                        &&& reported_id(vector, inv) <= i64::MAX
                    },
                q < results@.len(),
                row == results@[q as int],
                j <= k,
                knns@.len() == q * k + j,
                distances@.len() == q * k + j,
                forall|at: int|
                    0 <= at < knns@.len() ==> #[trigger] knns@[at] == reported_at(
                        rows,
                        k as int,
                        inv,
                        at,
                    ),
                forall|at: int|
                    0 <= at < distances@.len() ==> #[trigger] distances@[at] == distance_at(
                        rows,
                        k as int,
                        at,
                    ),
            decreases k - j,
        {
            proof {
                lemma_cell(q as int, j as int, k as int);
                assert(rows[q as int] == row@);
            }
            if j < row.len() {
                let scored = row[j];
                assert(results@[q as int]@[j as int] == scored);
                let original: usize = match inverse {
                    Some(inverse) => inverse[scored.vector],
                    None => scored.vector,
                };
                knns.push(original as i64 + 1);
                distances.push(Some(scored.distance));
            } else {
                knns.push(-1);
                distances.push(None);
            }
            j += 1;
        }
        assert((q + 1) * k == q * k + k) by (nonlinear_arith);
        q += 1;
    }
    (knns, distances)
}

/// The ids that two rows have in common.
pub open spec fn common(a: Seq<i64>, b: Seq<i64>) -> Set<i64> {
    a.to_set().intersect(b.to_set())
}

/// The number of different ids that two rows have in common.
pub fn count_common(found: &[i64], truth: &[i64]) -> (hits: usize)
    ensures
        hits == common(found@, truth@).len(),
{
    let mut expected: HashSet<i64> = HashSet::new();
    let mut i: usize = 0;
    assert(expected@ =~= truth@.take(0).to_set());
    while i < truth.len()
        invariant
            i <= truth@.len(),
            expected@ == truth@.take(i as int).to_set(),
        decreases truth@.len() - i,
    {
        proof {
            lemma_take_push(truth@, i as int);
            truth@.take(i as int).lemma_push_to_set_commute(truth@[i as int]);
        }
        expected.insert(truth[i]);
        i += 1;
    }
    assert(truth@.take(i as int) =~= truth@);
    let mut seen: HashSet<i64> = HashSet::new();
    let mut hits: usize = 0;
    i = 0;
    assert(seen@ =~= found@.take(0).to_set());
    assert(common(found@.take(0), truth@) =~= Set::empty());
    while i < found.len()
        invariant
            i <= found@.len(),
            expected@ == truth@.to_set(),
            seen@ == found@.take(i as int).to_set(),
            hits == common(found@.take(i as int), truth@).len(),
            common(found@.take(i as int), truth@).finite(),
            hits <= i,
        decreases found@.len() - i,
    {
        let id: i64 = found[i];
        let ghost before = found@.take(i as int);
        proof {
            lemma_take_push(found@, i as int);
            before.lemma_push_to_set_commute(id);
            if truth@.contains(id) {
                assert(common(before.push(id), truth@) =~= common(before, truth@).insert(id));
            } else {
                assert(common(before.push(id), truth@) =~= common(before, truth@));
            }
        }
        let fresh = seen.insert(id);
        if fresh && expected.contains(&id) {
            hits += 1;
        }
        i += 1;
    }
    assert(found@.take(i as int) =~= found@);
    hits
}

/// The number of ids per query that the first `min(k, k_gold)` found ones share with as many of
/// the true ones, out of matrices with `k` and `k_gold` columns.
pub fn recall_hits(
    knns: &[i64],
    k: usize,
    gold: &[i64],
    k_gold: usize,
    n_queries: usize,
) -> (hits: Vec<usize>)
    requires
        n_queries * k <= knns@.len(),
        n_queries * k_gold <= gold@.len(),
    ensures
        hits@.len() == n_queries,
        forall|q: int|
            0 <= q < n_queries ==> #[trigger] hits@[q] == common(
                compared_row(knns@, k as int, k_gold as int, q),
                compared_row(gold@, k_gold as int, k as int, q),
            ).len(),
{
    let kk: usize = if k <= k_gold {
        k
    } else {
        k_gold
    };
    let mut hits: Vec<usize> = Vec::new();
    let mut q: usize = 0;
    while q < n_queries
        invariant
            n_queries * k <= knns@.len(),
            n_queries * k_gold <= gold@.len(),
            kk == (if k <= k_gold {
                k
            } else {
                k_gold
            }),
            q <= n_queries,
            hits@.len() == q,
            forall|l: int|
                0 <= l < q ==> #[trigger] hits@[l] == common(
                    compared_row(knns@, k as int, k_gold as int, l),
                    compared_row(gold@, k_gold as int, k as int, l),
                ).len(),
        decreases n_queries - q,
    {
        proof {
            assert(knns.len() == knns@.len() && gold.len() == gold@.len());
            assert(0 <= q * k && q * k + k <= n_queries * k) by (nonlinear_arith)
                requires
                    0 <= q < n_queries,
                    0 <= k,
            ;
            assert(0 <= q * k_gold && q * k_gold + k_gold <= n_queries * k_gold)
                by (nonlinear_arith)
                requires
                    0 <= q < n_queries,
                    0 <= k_gold,
            ;
        }
        let found = vstd::slice::slice_subrange(knns, q * k, q * k + kk);
        let truth = vstd::slice::slice_subrange(gold, q * k_gold, q * k_gold + kk);
        hits.push(count_common(found, truth));
        q += 1;
    }
    hits
}

/// The first items of row `q` of a matrix, as many as both matrices have columns.
pub open spec fn compared_row(matrix: Seq<i64>, columns: int, other_columns: int, q: int) -> Seq<
    i64,
> {
    let width = if columns <= other_columns {
        columns
    } else {
        other_columns
    };
    matrix.subrange(q * columns, q * columns + width)
}

/// The bytes of a stored permutation: eight per id, the lowest first.
pub open spec fn encoded(ids: Seq<usize>) -> Seq<u8>
    decreases ids.len(),
{
    if ids.len() == 0 {
        Seq::empty()
    } else {
        encoded(ids.drop_last()) + spec_u64_to_le_bytes(ids.last() as u64)
    }
}

/// The ids of a stored permutation; bytes that do not make up a whole id are left over.
pub open spec fn decoded(bytes: Seq<u8>) -> Seq<usize> {
    Seq::new(
        bytes.len() / 8,
        |i: int| spec_u64_from_le_bytes(bytes.subrange(8 * i, 8 * i + 8)) as usize,
    )
}

/// The bytes that a permutation is stored as.
pub fn encode_permutation(ids: &[usize]) -> (bytes: Vec<u8>)
    ensures
        bytes@ == encoded(ids@),
{
    let mut bytes: Vec<u8> = Vec::new();
    let mut i: usize = 0;
    while i < ids.len()
        invariant
            i <= ids@.len(),
            bytes@ == encoded(ids@.take(i as int)),
        decreases ids@.len() - i,
    {
        let word = u64_to_le_bytes(ids[i] as u64);
        let ghost before = bytes@;
        let mut j: usize = 0;
        while j < word.len()
            invariant
                j <= word@.len(),
                bytes@ == before + word@.take(j as int),
            decreases word@.len() - j,
        {
            bytes.push(word[j]);
            j += 1;
            assert(bytes@ =~= before + word@.take(j as int));
        }
        proof {
            assert(word@.take(j as int) =~= word@);
            lemma_take_push(ids@, i as int);
        }
        i += 1;
    }
    assert(ids@.take(i as int) =~= ids@);
    bytes
}

/// The permutation that `bytes` stores.
pub fn decode_permutation(bytes: &[u8]) -> (ids: Vec<usize>)
    ensures
        ids@ == decoded(bytes@),
{
    let n: usize = bytes.len() / 8;
    let mut ids: Vec<usize> = Vec::new();
    let mut i: usize = 0;
    while i < n
        invariant
            n == bytes@.len() / 8,
            i <= n,
            ids@ == decoded(bytes@).take(i as int),
        decreases n - i,
    {
        assert(bytes.len() == bytes@.len());
        let word = vstd::slice::slice_subrange(bytes, 8 * i, 8 * i + 8);
        ids.push(#[verifier::truncate] (u64_from_le_bytes(word) as usize));
        i += 1;
        assert(ids@ =~= decoded(bytes@).take(i as int));
    }
    assert(ids@ =~= decoded(bytes@));
    ids
}

proof fn lemma_encoded_len(ids: Seq<usize>)
    ensures
        encoded(ids).len() == 8 * ids.len(),
    decreases ids.len(),
{
    lemma_auto_spec_u64_to_from_le_bytes();
    if ids.len() > 0 {
        lemma_encoded_len(ids.drop_last());
        assert(spec_u64_to_le_bytes(ids.last() as u64).len() == 8);
    }
}

proof fn lemma_encoded(ids: Seq<usize>, i: int)
    requires
        0 <= i < ids.len(),
    ensures
        encoded(ids).subrange(8 * i, 8 * i + 8) == spec_u64_to_le_bytes(ids[i] as u64),
    decreases ids.len(),
{
    lemma_auto_spec_u64_to_from_le_bytes();
    let rest = ids.drop_last();
    let word = spec_u64_to_le_bytes(ids.last() as u64);
    lemma_encoded_len(rest);
    assert(word.len() == 8);
    if i < rest.len() {
        lemma_encoded(rest, i);
        assert(encoded(ids).subrange(8 * i, 8 * i + 8) =~= encoded(rest).subrange(
            8 * i,
            8 * i + 8,
        ));
    } else {
        assert(encoded(ids).subrange(8 * i, 8 * i + 8) =~= word);
    }
}

/// Reading a stored permutation gives back what was written.
pub proof fn law_permutation_read_back(ids: Seq<usize>)
    ensures
        decoded(encoded(ids)) == ids,
{
    lemma_auto_spec_u64_to_from_le_bytes();
    lemma_encoded_len(ids);
    assert forall|i: int| 0 <= i < ids.len() implies decoded(encoded(ids))[i] == ids[i] by {
        lemma_encoded(ids, i);
    }
    assert(decoded(encoded(ids)) =~= ids);
}

/// Row `q` of the reported ids holds the results of query `q` in their order: ids counted from 1 and
/// taken back to those before reordering, then -1 where there is no result. The distances are those
/// of the results.
pub proof fn law_reported_rows(
    results: Seq<Seq<ScoredItem>>,
    k: int,
    inverse: Option<Seq<usize>>,
    q: int,
    j: int,
)
    requires
        0 <= q < results.len(),
        0 <= j < k,
    ensures
        j < results[q].len() && inverse is None ==> reported_at(results, k, inverse, q * k + j)
            == results[q][j].vector + 1,
        j < results[q].len() && inverse is Some ==> reported_at(results, k, inverse, q * k + j)
            == inverse->0[results[q][j].vector as int] + 1,
        j >= results[q].len() ==> reported_at(results, k, inverse, q * k + j) == -1,
        j < results[q].len() ==> distance_at(results, k, q * k + j) == Some(
            results[q][j].distance,
        ),
        j >= results[q].len() ==> distance_at(results, k, q * k + j) is None,
{
    lemma_cell(q, j, k);
}

/// What is compared of row `q` are its first items, as many as both matrices have columns.
pub proof fn law_rows_are_compared_from_the_front(
    matrix: Seq<i64>,
    columns: int,
    other_columns: int,
    q: int,
    j: int,
)
    requires
        0 <= q,
        0 <= columns,
        0 <= j < columns,
        j < other_columns,
        q * columns + columns <= matrix.len(),
    ensures
        compared_row(matrix, columns, other_columns, q).len() == (if columns < other_columns {
            columns
        } else {
            other_columns
        }),
        compared_row(matrix, columns, other_columns, q)[j] == matrix[q * columns + j],
{
    assert(0 <= q * columns) by (nonlinear_arith)
        requires
            0 <= q,
            0 <= columns,
    ;
}

/// A stored permutation has eight bytes per id, and the lowest byte of an id comes first.
pub proof fn law_permutation_is_stored_low_byte_first(ids: Seq<usize>, i: int)
    requires
        0 <= i < ids.len(),
    ensures
        encoded(ids).len() == 8 * ids.len(),
        ({
            let x = ids[i] as u64;
            let bytes = encoded(ids).subrange(8 * i, 8 * i + 8);
            &&& bytes[0] == x & 0xff
            &&& bytes[1] == (x >> 8) & 0xff
            &&& bytes[2] == (x >> 16) & 0xff
            &&& bytes[3] == (x >> 24) & 0xff
            &&& bytes[4] == (x >> 32) & 0xff
            &&& bytes[5] == (x >> 40) & 0xff
            &&& bytes[6] == (x >> 48) & 0xff
            &&& bytes[7] == (x >> 56) & 0xff
        }),
{
    let x = ids[i] as u64;
    lemma_encoded_len(ids);
    lemma_encoded(ids, i);
    vstd::bytes::spec_u64_to_le_bytes_to_open(x);
    assert(x & 0xff <= 0xff && (x >> 8) & 0xff <= 0xff && (x >> 16) & 0xff <= 0xff && (x >> 24)
        & 0xff <= 0xff && (x >> 32) & 0xff <= 0xff && (x >> 40) & 0xff <= 0xff && (x >> 48) & 0xff
        <= 0xff && (x >> 56) & 0xff <= 0xff) by (bit_vector);
}

} // verus!
