//! Dense integer vectors under the squared Euclidean distance.
use crate::best_first::{scores_from, steady, well_behaved};
use crate::dataset::{Dataset, QueryEvaluator};
use vstd::prelude::*;

verus! {

/// The largest dimension of a dense vector: squared distances of vectors up to it fit in an `i64`.
pub const MAX_DIM: usize = 0x7fff_ffff;

/// The squared Euclidean distance of two vectors over their first `dim` components.
pub open spec fn squared_distance(a: Seq<i16>, b: Seq<i16>, dim: nat) -> int
    decreases dim,
{
    if dim == 0 {
        0
    } else {
        let d = a[dim - 1] - b[dim - 1];
        squared_distance(a, b, (dim - 1) as nat) + d * d
    }
}

/// `distance` exceeds `worst` by at most `lambda` thousandths of it.
pub open spec fn within_thousandths(distance: i64, worst: i64, lambda: u32) -> bool {
    distance * 1000 <= worst * (1000 + lambda)
}

/// Vectors of `dim` components each, stored one after the other.
pub struct DenseDataset {
    values: Vec<i16>,
    n: usize,
    dim: usize,
}

/// Distances from one query to the vectors of a [`DenseDataset`].
pub struct DenseEvaluator<'e> {
    dataset: &'e DenseDataset,
    query: &'e [i16],
}

proof fn lemma_row(id: int, n: int, dim: int)
    by (nonlinear_arith)
    requires
        0 <= id < n,
        0 <= dim,
    ensures
        0 <= id * dim,
        id * dim + dim <= n * dim,
{
}

fn squared_distance_exec(a: &[i16], b: &[i16], dim: usize) -> (distance: i64)
    requires
        a@.len() >= dim,
        b@.len() >= dim,
        dim <= MAX_DIM,
    ensures
        distance == squared_distance(a@, b@, dim as nat),
        distance >= 0,
{
    let mut distance: i64 = 0;
    let mut i: usize = 0;
    while i < dim
        invariant
            i <= dim,
            a@.len() >= dim,
            b@.len() >= dim,
            dim <= MAX_DIM,
            distance == squared_distance(a@, b@, i as nat),
            0 <= distance <= i * 0x1_0000_0000,
        decreases dim - i,
    {
        let d: i64 = a[i] as i64 - b[i] as i64;
        assert(0 <= d * d <= 0x1_0000_0000) by (nonlinear_arith)
            requires
                -0x1_0000 <= d <= 0x1_0000,
        ;
        distance = distance + d * d;
        i += 1;
    }
    distance
}

impl DenseDataset {
    #[verifier::type_invariant]
    spec fn rep_ok(&self) -> bool {
        &&& self.values@.len() == self.n * self.dim
        &&& self.dim <= MAX_DIM
    }

    /// The vectors.
    pub closed spec fn vectors(&self) -> Seq<Seq<i16>> {
        Seq::new(
            self.n as nat,
            |id: int| self.values@.subrange(id * self.dim, id * self.dim + self.dim),
        )
    }

    /// The number of components of each vector.
    pub closed spec fn dim(&self) -> usize {
        self.dim
    }

    /// The dataset of the `n` vectors that stand one after the other in `values`.
    pub fn from_raw(values: Vec<i16>, n: usize, dim: usize) -> (dataset: DenseDataset)
        requires
            values@.len() == n * dim,
            dim <= MAX_DIM,
        ensures
            dataset.dim() == dim,
            dataset.vectors() == Seq::new(
                n as nat,
                |id: int| values@.subrange(id * dim, id * dim + dim),
            ),
    {
        let dataset = DenseDataset { values, n, dim };
        assert(dataset.vectors() =~= Seq::new(
            n as nat,
            |id: int| values@.subrange(id * dim, id * dim + dim),
        ));
        dataset
    }

    /// The vector `id`.
    pub fn get(&self, id: usize) -> (vector: &[i16])
        requires
            id < self.vectors().len(),
        ensures
            vector@ == self.vectors()[id as int],
            vector@.len() == self.dim(),
    {
        proof {
            use_type_invariant(self);
            assert(self.values.len() == self.values@.len());
            lemma_row(id as int, self.n as int, self.dim as int);
        }
        let from: usize = id * self.dim;
        vstd::slice::slice_subrange(self.values.as_slice(), from, from + self.dim)
    }
}

impl<'e> QueryEvaluator for DenseEvaluator<'e> {
    closed spec fn n_known(&self) -> usize {
        if self.query@.len() == self.dataset.dim() {
            self.dataset.vectors().len() as usize
        } else {
            0
        }
    }

    closed spec fn distance_to(&self, id: usize) -> i64 {
        squared_distance(
            self.query@,
            self.dataset.vectors()[id as int],
            self.dataset.dim() as nat,
        ) as i64
    }

    open spec fn within_relaxation(distance: i64, worst: i64, lambda: u32) -> bool {
        within_thousandths(distance, worst, lambda)
    }

    fn compute_distance(&self, id: usize) -> (distance: i64) {
        let vector = self.dataset.get(id);
        proof {
            use_type_invariant(self.dataset);
        }
        squared_distance_exec(self.query, vector, self.dataset.dim)
    }

    fn is_within_relaxation(distance: i64, worst: i64, lambda: u32) -> (result: bool) {
        assert(-0x1_0000_0000_0000_0000_0000_0000 <= worst * (1000 + lambda)
            <= 0x1_0000_0000_0000_0000_0000_0000) by (nonlinear_arith)
            requires
                -0x8000_0000_0000_0000 <= worst <= 0x7fff_ffff_ffff_ffff,
                0 <= lambda <= 0xffff_ffff,
        ;
        distance as i128 * 1000 <= worst as i128 * (1000 + lambda as i128)
    }
}

impl Dataset for DenseDataset {
    type Query<'q> = &'q [i16];

    type Evaluator<'e> = DenseEvaluator<'e>;

    open spec fn n_vectors(&self) -> usize {
        self.vectors().len() as usize
    }

    open spec fn fits<'q>(&self, query: &'q [i16]) -> bool {
        query@.len() == self.dim()
    }

    open spec fn query_distance<'q>(&self, query: &'q [i16], id: usize) -> i64 {
        squared_distance(query@, self.vectors()[id as int], self.dim() as nat) as i64
    }

    open spec fn vector_distance(&self, from: usize, id: usize) -> i64 {
        squared_distance(
            self.vectors()[from as int],
            self.vectors()[id as int],
            self.dim() as nat,
        ) as i64
    }

    open spec fn pair_distance(&self, a: usize, b: usize) -> i64 {
        squared_distance(
            self.vectors()[a as int],
            self.vectors()[b as int],
            self.dim() as nat,
        ) as i64
    }

    open spec fn within(distance: i64, worst: i64, lambda: u32) -> bool {
        within_thousandths(distance, worst, lambda)
    }

    open spec fn dimension(&self) -> usize {
        self.dim()
    }

    open spec fn space_bytes(&self) -> u128 {
        (self.vectors().len() * self.dim() * 2) as u128
    }

    fn len(&self) -> (n: usize) {
        self.n
    }

    fn query_evaluator<'e>(&'e self, query: &'e [i16]) -> (evaluator: DenseEvaluator<'e>) {
        DenseEvaluator { dataset: self, query }
    }

    fn vector_evaluator<'e>(&'e self, from: usize) -> (evaluator: DenseEvaluator<'e>) {
        DenseEvaluator { dataset: self, query: self.get(from) }
    }

    fn compute_distance_between(&self, a: usize, b: usize) -> (distance: i64) {
        proof {
            use_type_invariant(self);
        }
        squared_distance_exec(self.get(a), self.get(b), self.dim)
    }

    fn input_dim(&self) -> (dim: usize) {
        self.dim
    }

    fn space_usage_bytes(&self) -> (bytes: usize) {
        proof {
            use_type_invariant(self);
        }
        self.values.len() * std::mem::size_of::<i16>()
    }
}

proof fn lemma_square_bound(d: int)
    by (nonlinear_arith)
    requires
        -0xffff <= d <= 0xffff,
    ensures
        0 <= d * d <= 0xfffe_0001,
        d * d == 0 <==> d == 0,
        d * d == (-d) * (-d),
{
}

/// The squared distance of two vectors is the same both ways. It is 0 if they are equal, and
/// positive if not.
pub proof fn law_squared_distance(a: Seq<i16>, b: Seq<i16>, dim: nat)
    ensures
        0 <= squared_distance(a, b, dim) <= dim * 0xfffe_0001,
        squared_distance(a, b, dim) == squared_distance(b, a, dim),
        squared_distance(a, b, dim) == 0 <==> forall|i: int|
            0 <= i < dim ==> #[trigger] a[i] == b[i],
    decreases dim,
{
    if dim > 0 {
        let rest = (dim - 1) as nat;
        law_squared_distance(a, b, rest);
        let d = a[dim - 1] - b[dim - 1];
        lemma_square_bound(d);
        assert(b[dim - 1] - a[dim - 1] == -d);
        if squared_distance(a, b, dim) == 0 {
            assert forall|i: int| 0 <= i < dim implies #[trigger] a[i] == b[i] by {
                if i < rest {
                    assert(squared_distance(a, b, rest) == 0);
                }
            }
        }
    }
}

/// Dense vectors let a distance stand up to any that is not smaller, whatever the relaxation, and a
/// distance that stands up still does if it gets smaller or the other one larger.
pub proof fn law_dense_vectors_are_well_behaved<'q>(
    dataset: &DenseDataset,
    query: &'q [i16],
    lambda: u32,
    n: nat,
)
    requires
        dataset.dim() <= MAX_DIM,
    ensures
        well_behaved(
            |id: usize| dataset.query_distance(query, id),
            |d: i64, w: i64| DenseDataset::within(d, w, lambda),
            n,
        ),
{
    let score = |id: usize| dataset.query_distance(query, id);
    let within = |d: i64, w: i64| DenseDataset::within(d, w, lambda);
    let dim = dataset.dim() as nat;
    assert forall|id: usize| id < n implies #[trigger] score(id) >= 0 by {
        law_squared_distance(query@, dataset.vectors()[id as int], dim);
        assert(dim * 0xfffe_0001 <= 0x7fff_ffff * 0xfffe_0001) by (nonlinear_arith)
            requires
                0 <= dim <= 0x7fff_ffff,
        ;
    }
    assert forall|d: i64, w: i64| 0 <= d <= w implies #[trigger] within(d, w) by {
        assert(d * 1000 <= w * (1000 + lambda)) by (nonlinear_arith)
            requires
                0 <= d <= w,
                0 <= lambda,
        ;
    }
    assert forall|d: i64, w: i64, d2: i64, w2: i64|
        0 <= d2 <= d && 0 <= w <= w2 && #[trigger] within(d, w) implies #[trigger] within(
        d2,
        w2,
    ) by {
        assert(d2 * 1000 <= w2 * (1000 + lambda)) by (nonlinear_arith)
            requires
                0 <= d2 <= d,
                0 <= w <= w2,
                d * 1000 <= w * (1000 + lambda),
                0 <= lambda,
        ;
    }
    assert(scores_from(score, n, 0));
    assert(steady(within, 0));
}

/// The squared distance of two vectors that differ in one component is the square of that difference.
pub proof fn law_one_component_counts_squared(a: Seq<i16>, b: Seq<i16>, dim: nat, i: int)
    requires
        0 <= i < dim,
        forall|j: int| 0 <= j < dim && j != i ==> #[trigger] a[j] == b[j],
    ensures
        squared_distance(a, b, dim) == (a[i] - b[i]) * (a[i] - b[i]),
    decreases dim,
{
    let rest = (dim - 1) as nat;
    if i == rest {
        law_squared_distance(a, b, rest);
    } else {
        law_one_component_counts_squared(a, b, rest, i);
        assert(a[dim - 1] == b[dim - 1]);
    }
}

} // verus!
