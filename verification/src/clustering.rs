//! K-means clustering of one year's records, the squared-distance metric it
//! is built on, and the inertia diagnostic used to compare cluster counts.

use vstd::prelude::*;

use crate::data_loader::CountryData;
use crate::data_loader::FEATURE_LIMIT;
use crate::data_loader::NUM_FEATURES;
use rand::SeedableRng;
use std::collections::hash_map::DefaultHasher;
use std::hash::Hasher;
use vstd::std_specs::hash::DefaultHasherAdditionalSpecFns;

verus! {

/// Bound on the number of records one k-means run accepts; keeps every sum
/// in this module inside its machine integer type.
pub const MAX_RECORDS: usize = 1_000_000_000;

/// Upper bound on the squared distance between two well-formed records:
/// five features, each differing by at most `2 * FEATURE_LIMIT`.
pub const DIST_BOUND: u128 = 20_000_000_000_000_000_000_000_000;

/// The feature vectors of a sequence of records.
pub open spec fn feats_of(s: Seq<CountryData>) -> Seq<Seq<int>> {
    s.map_values(|r: CountryData| r.feats())
}

/// Label values as mathematical integers.
pub open spec fn labels_int(s: Seq<usize>) -> Seq<int> {
    s.map_values(|x: usize| x as int)
}

/// Squared distance between two five-feature vectors: the sum over the
/// features of the squared difference.
pub open spec fn dist_feats(a: Seq<int>, b: Seq<int>) -> int {
    (a[0] - b[0]) * (a[0] - b[0]) + (a[1] - b[1]) * (a[1] - b[1]) + (a[2] - b[2]) * (a[2] - b[2]) + (
    a[3] - b[3]) * (a[3] - b[3]) + (a[4] - b[4]) * (a[4] - b[4])
}

proof fn lemma_sq_nonneg(x: int)
    ensures
        x * x >= 0,
{
    assert(x * x >= 0) by (nonlinear_arith);
}

proof fn lemma_sq_bound(x: int, m: int)
    requires
        -m <= x <= m,
        m >= 0,
    ensures
        x * x <= m * m,
{
    assert(x * x <= m * m) by (nonlinear_arith)
        requires
            -m <= x <= m,
            m >= 0,
    ;
}

/// The squared distance of any vector to itself is zero.
pub proof fn lemma_distance_self_zero(a: Seq<int>)
    ensures
        dist_feats(a, a) == 0,
{
}

/// The squared distance is symmetric in its two arguments.
pub proof fn lemma_distance_symmetric(a: Seq<int>, b: Seq<int>)
    ensures
        dist_feats(a, b) == dist_feats(b, a),
{
    lemma_sq_sym(a[0], b[0]);
    lemma_sq_sym(a[1], b[1]);
    lemma_sq_sym(a[2], b[2]);
    lemma_sq_sym(a[3], b[3]);
    lemma_sq_sym(a[4], b[4]);
}

proof fn lemma_sq_sym(x: int, y: int)
    ensures
        (x - y) * (x - y) == (y - x) * (y - x),
{
    assert((x - y) * (x - y) == (y - x) * (y - x)) by (nonlinear_arith);
}

proof fn lemma_sq_zero(x: int, y: int)
    ensures
        (x - y) * (x - y) == 0 <==> x == y,
{
    assert((x - y) * (x - y) == 0 <==> x - y == 0) by (nonlinear_arith);
}

/// The squared distance is never negative, and is zero exactly when the two
/// vectors agree on all five features.
pub proof fn lemma_distance_nonneg(a: Seq<int>, b: Seq<int>)
    ensures
        dist_feats(a, b) >= 0,
        dist_feats(a, b) == 0 <==> (a[0] == b[0] && a[1] == b[1] && a[2] == b[2] && a[3] == b[3]
            && a[4] == b[4]),
{
    lemma_sq_nonneg(a[0] - b[0]);
    lemma_sq_nonneg(a[1] - b[1]);
    lemma_sq_nonneg(a[2] - b[2]);
    lemma_sq_nonneg(a[3] - b[3]);
    lemma_sq_nonneg(a[4] - b[4]);
    lemma_sq_zero(a[0], b[0]);
    lemma_sq_zero(a[1], b[1]);
    lemma_sq_zero(a[2], b[2]);
    lemma_sq_zero(a[3], b[3]);
    lemma_sq_zero(a[4], b[4]);
}

/// Squared distance between well-formed records stays under `DIST_BOUND`.
pub proof fn lemma_distance_bound(a: CountryData, b: CountryData)
    requires
        a.wf(),
        b.wf(),
    ensures
        0 <= dist_feats(a.feats(), b.feats()) <= DIST_BOUND,
{
    let af = a.feats();
    let bf = b.feats();
    lemma_distance_nonneg(af, bf);
    assert forall|i: int| 0 <= i < 5 implies (af[i] - bf[i]) * (af[i] - bf[i]) <= 4 * (
    FEATURE_LIMIT as int) * (FEATURE_LIMIT as int) by {
        lemma_sq_bound(af[i] - bf[i], 2 * FEATURE_LIMIT as int);
        assert((2 * FEATURE_LIMIT as int) * (2 * FEATURE_LIMIT as int) == 4 * (FEATURE_LIMIT as int)
            * (FEATURE_LIMIT as int)) by (nonlinear_arith);
    }
}

/// Squared distance between two records over their five features. Zero
/// exactly when the features coincide; symmetric; never negative.
pub fn distance(a: &CountryData, b: &CountryData) -> (r: u128)
    requires
        a.wf(),
        b.wf(),
    ensures
        r as int == dist_feats(a.feats(), b.feats()),
        r <= DIST_BOUND,
{
    let d0: i128 = (a.features[0] as i128) - (b.features[0] as i128);
    let d1: i128 = (a.features[1] as i128) - (b.features[1] as i128);
    let d2: i128 = (a.features[2] as i128) - (b.features[2] as i128);
    let d3: i128 = (a.features[3] as i128) - (b.features[3] as i128);
    let d4: i128 = (a.features[4] as i128) - (b.features[4] as i128);
    proof {
        lemma_sq_bound(d0 as int, 2 * FEATURE_LIMIT as int);
        lemma_sq_bound(d1 as int, 2 * FEATURE_LIMIT as int);
        lemma_sq_bound(d2 as int, 2 * FEATURE_LIMIT as int);
        lemma_sq_bound(d3 as int, 2 * FEATURE_LIMIT as int);
        lemma_sq_bound(d4 as int, 2 * FEATURE_LIMIT as int);
        lemma_sq_nonneg(d0 as int);
        lemma_sq_nonneg(d1 as int);
        lemma_sq_nonneg(d2 as int);
        lemma_sq_nonneg(d3 as int);
        lemma_sq_nonneg(d4 as int);
    }
    let total: i128 = d0 * d0 + d1 * d1 + d2 * d2 + d3 * d3 + d4 * d4;
    proof {
        lemma_distance_bound(*a, *b);
    }
    total as u128
}

/// Total inertia: the sum, over the records, of the squared distance from
/// each record to the center its label picks out.
pub open spec fn inertia_feats(data: Seq<Seq<int>>, centers: Seq<Seq<int>>, labels: Seq<int>) -> int
    decreases data.len(),
{
    if data.len() == 0 {
        0
    } else {
        inertia_feats(data.drop_last(), centers, labels.drop_last()) + dist_feats(
            data.last(),
            centers[labels[data.len() - 1]],
        )
    }
}

/// Inertia is a sum of squared distances, so it is never negative.
pub proof fn lemma_inertia_nonneg(data: Seq<Seq<int>>, centers: Seq<Seq<int>>, labels: Seq<int>)
    ensures
        inertia_feats(data, centers, labels) >= 0,
    decreases data.len(),
{
    if data.len() > 0 {
        lemma_inertia_nonneg(data.drop_last(), centers, labels.drop_last());
        lemma_distance_nonneg(data.last(), centers[labels[data.len() - 1]]);
    }
}

/// Inertia is zero exactly when every record's squared distance to its
/// assigned center is zero, that is, when every record coincides with it.
pub proof fn lemma_inertia_zero(data: Seq<Seq<int>>, centers: Seq<Seq<int>>, labels: Seq<int>)
    requires
        labels.len() == data.len(),
    ensures
        inertia_feats(data, centers, labels) == 0 <==> (forall|i: int|
            0 <= i < data.len() ==> dist_feats(#[trigger] data[i], centers[labels[i]]) == 0),
    decreases data.len(),
{
    if data.len() > 0 {
        lemma_inertia_zero(data.drop_last(), centers, labels.drop_last());
        lemma_inertia_nonneg(data.drop_last(), centers, labels.drop_last());
        lemma_distance_nonneg(data.last(), centers[labels[data.len() - 1]]);
        let dd = data.drop_last();
        let ld = labels.drop_last();
        assert(forall|i: int| 0 <= i < dd.len() ==> #[trigger] dd[i] == data[i]);
        assert(forall|i: int| 0 <= i < ld.len() ==> #[trigger] ld[i] == labels[i]);
        if inertia_feats(data, centers, labels) == 0 {
            assert(forall|i: int|
                0 <= i < dd.len() ==> dist_feats(#[trigger] dd[i], centers[ld[i]]) == 0);
            assert forall|i: int|
                0 <= i < data.len() implies dist_feats(#[trigger] data[i], centers[labels[i]])
                == 0 by {
                if i < data.len() - 1 {
                    assert(dist_feats(dd[i], centers[ld[i]]) == 0);
                }
            }
        }
    }
}

/// Sums the squared distance from every record to its assigned center.
pub fn calculate_inertia(data: &Vec<CountryData>, centers: &Vec<CountryData>, labels: &Vec<usize>)
    -> (r: u128)
    requires
        labels@.len() == data@.len(),
        data@.len() <= MAX_RECORDS,
        forall|i: int| 0 <= i < data@.len() ==> (#[trigger] data@[i]).wf(),
        forall|j: int| 0 <= j < centers@.len() ==> (#[trigger] centers@[j]).wf(),
        forall|i: int| 0 <= i < labels@.len() ==> (#[trigger] labels@[i]) < centers@.len(),
    ensures
        r as int == inertia_feats(feats_of(data@), feats_of(centers@), labels_int(labels@)),
{
    let ghost df = feats_of(data@);
    let ghost cf = feats_of(centers@);
    let ghost lf = labels_int(labels@);
    let mut total: u128 = 0;
    let mut i: usize = 0;
    while i < data.len()
        invariant
            i <= data@.len(),
            labels@.len() == data@.len(),
            data@.len() <= MAX_RECORDS,
            forall|t: int| 0 <= t < data@.len() ==> (#[trigger] data@[t]).wf(),
            forall|j: int| 0 <= j < centers@.len() ==> (#[trigger] centers@[j]).wf(),
            forall|t: int| 0 <= t < labels@.len() ==> (#[trigger] labels@[t]) < centers@.len(),
            df == feats_of(data@),
            cf == feats_of(centers@),
            lf == labels_int(labels@),
            total as int == inertia_feats(df.take(i as int), cf, lf.take(i as int)),
            total <= (i as u128) * DIST_BOUND,
        decreases data@.len() - i,
    {
        let d = distance(&data[i], &centers[labels[i]]);
        proof {
            assert(df.take(i + 1).drop_last() =~= df.take(i as int));
            assert(lf.take(i + 1).drop_last() =~= lf.take(i as int));
            assert(df.take(i + 1).last() == df[i as int]);
            assert((i as u128) * DIST_BOUND + DIST_BOUND == ((i + 1) as u128) * DIST_BOUND)
                by (nonlinear_arith);
            assert((i + 1) as u128 * DIST_BOUND <= (MAX_RECORDS as u128) * DIST_BOUND)
                by (nonlinear_arith)
                requires
                    i + 1 <= MAX_RECORDS as u128,
            ;
        }
        total = total + d;
        i = i + 1;
    }
    proof {
        assert(df.take(data@.len() as int) =~= df);
        assert(lf.take(data@.len() as int) =~= lf);
    }
    total
}

/// Index of the center nearest to `p` among the first `n` centers, scanning
/// left to right and replacing the running best only on a strictly smaller
/// distance, so that ties keep the lowest index.
pub open spec fn nearest_upto(p: Seq<int>, centers: Seq<Seq<int>>, n: int) -> int
    decreases n,
{
    if n <= 1 {
        0
    } else {
        let best = nearest_upto(p, centers, n - 1);
        if dist_feats(p, centers[n - 1]) < dist_feats(p, centers[best]) {
            n - 1
        } else {
            best
        }
    }
}

/// Index of the center nearest to `p`, ties broken toward the lowest index.
pub open spec fn nearest(p: Seq<int>, centers: Seq<Seq<int>>) -> int {
    nearest_upto(p, centers, centers.len() as int)
}

/// The chosen index is in range, attains the minimum distance, and every
/// strictly earlier index is strictly farther: ties go to the lowest index.
pub proof fn lemma_nearest_minimal(p: Seq<int>, centers: Seq<Seq<int>>, n: int)
    requires
        1 <= n,
    ensures
        0 <= nearest_upto(p, centers, n) < n,
        forall|j: int|
            0 <= j < n ==> dist_feats(p, centers[nearest_upto(p, centers, n)]) <= dist_feats(
                p,
                #[trigger] centers[j],
            ),
        forall|j: int|
            0 <= j < nearest_upto(p, centers, n) ==> dist_feats(p, #[trigger] centers[j])
                > dist_feats(p, centers[nearest_upto(p, centers, n)]),
    decreases n,
{
    if n > 1 {
        lemma_nearest_minimal(p, centers, n - 1);
    }
}

/// One assignment step: every record is labeled with its nearest center.
pub open spec fn assign_spec(data: Seq<Seq<int>>, centers: Seq<Seq<int>>) -> Seq<int> {
    Seq::new(data.len(), |i: int| nearest(data[i], centers))
}

/// How many records carry label `j`.
pub open spec fn cluster_count(labels: Seq<int>, j: int) -> int
    decreases labels.len(),
{
    if labels.len() == 0 {
        0
    } else {
        cluster_count(labels.drop_last(), j) + if labels.last() == j {
            1int
        } else {
            0int
        }
    }
}

/// Sum of feature `f` over the records whose label is `j`.
pub open spec fn cluster_sum(data: Seq<Seq<int>>, labels: Seq<int>, j: int, f: int) -> int
    decreases data.len(),
{
    if data.len() == 0 {
        0
    } else {
        cluster_sum(data.drop_last(), labels.drop_last(), j, f) + if labels[data.len() - 1] == j {
            data.last()[f]
        } else {
            0int
        }
    }
}

/// Integer mean rounded toward zero, mirroring the machine division used by
/// the update step.
pub open spec fn mean_trunc(sum: int, cnt: int) -> int {
    if sum >= 0 {
        sum / cnt
    } else {
        -((-sum) / cnt)
    }
}

/// One cluster's center after an update step: the coordinate-wise mean of
/// its members, or the previous center unchanged when it has no members.
pub open spec fn new_center(data: Seq<Seq<int>>, labels: Seq<int>, j: int, old_c: Seq<int>) -> Seq<
    int,
> {
    if cluster_count(labels, j) == 0 {
        old_c
    } else {
        Seq::new(
            NUM_FEATURES as nat,
            |f: int| mean_trunc(cluster_sum(data, labels, j, f), cluster_count(labels, j)),
        )
    }
}

/// One update step over all centers.
pub open spec fn update_spec(data: Seq<Seq<int>>, labels: Seq<int>, centers: Seq<Seq<int>>) -> Seq<
    Seq<int>,
> {
    Seq::new(centers.len(), |j: int| new_center(data, labels, j, centers[j]))
}

/// State after `iters` rounds of assignment followed by update, starting
/// from the initial centers and the all-zero labeling.
pub open spec fn iterate_spec(data: Seq<Seq<int>>, centers0: Seq<Seq<int>>, iters: int) -> (Seq<
    int,
>, Seq<Seq<int>>)
    decreases iters,
{
    if iters <= 0 {
        (Seq::new(data.len(), |i: int| 0int), centers0)
    } else {
        let prev = iterate_spec(data, centers0, iters - 1);
        let labels = assign_spec(data, prev.1);
        (labels, update_spec(data, labels, prev.1))
    }
}

/// The initial centers: the records the seeded sampler picked, in order.
pub open spec fn init_centers(data: Seq<Seq<int>>, sample: Seq<usize>) -> Seq<Seq<int>> {
    Seq::new(sample.len(), |j: int| data[sample[j] as int])
}

/// The labels and centers k-means returns: `iters` rounds from the centers
/// the seeded sampler picked. A pure function of its arguments, which is
/// what makes the algorithm reproducible.
pub open spec fn kmeans_spec(data: Seq<Seq<int>>, iters: int, sample: Seq<usize>) -> (Seq<int>, Seq<
    Seq<int>,
>) {
    iterate_spec(data, init_centers(data, sample), iters)
}

/// Two runs on identical records, iteration count and sample are identical:
/// the result is a function of those inputs and of nothing else.
pub proof fn lemma_kmeans_deterministic(
    labels1: Seq<int>,
    centers1: Seq<Seq<int>>,
    labels2: Seq<int>,
    centers2: Seq<Seq<int>>,
    data: Seq<Seq<int>>,
    iters: int,
    sample: Seq<usize>,
)
    requires
        (labels1, centers1) == kmeans_spec(data, iters, sample),
        (labels2, centers2) == kmeans_spec(data, iters, sample),
    ensures
        labels1 == labels2,
        centers1 == centers2,
{
}

/// The indices the seeded sampler picks: a function of the seed and the two
/// sizes alone, named rather than spelled out because the generator's output
/// has no short description.
pub uninterp spec fn sample_of(seed: u64, n: usize, k: usize) -> Seq<usize>;

/// Relies on `rand::seq::index::sample`, driven by `rand::rngs::StdRng`
/// seeded through `rand::SeedableRng::seed_from_u64`: it returns exactly `k`
/// distinct indices below `n` (it panics when `k > n`, which the
/// precondition rules out), and both the seeding and the sampling are
/// deterministic in the seed, so the result depends on `(seed, n, k)` alone.
#[verifier::external_body]
fn sample_indices(seed: u64, n: usize, k: usize) -> (r: Vec<usize>)
    requires
        k <= n,
    ensures
        r@ == sample_of(seed, n, k),
        r@.len() == k,
        forall|i: int| 0 <= i < r@.len() ==> r@[i] < n,
        forall|i: int, j: int| 0 <= i < j < r@.len() ==> r@[i] != r@[j],
{
    let mut rng = rand::rngs::StdRng::seed_from_u64(seed);
    rand::seq::index::sample(&mut rng, n, k).into_vec()
}

/// Mean of one cluster's feature sum, rounded toward zero.
fn mean_feature(sum: i128, cnt: usize) -> (r: i64)
    requires
        1 <= cnt,
        -(cnt as int) * (FEATURE_LIMIT as int) <= sum as int <= (cnt as int) * (
        FEATURE_LIMIT as int),
    ensures
        r as int == mean_trunc(sum as int, cnt as int),
        -FEATURE_LIMIT <= r <= FEATURE_LIMIT,
{
    proof {
        assert((cnt as int) * (FEATURE_LIMIT as int) == (FEATURE_LIMIT as int) * (cnt as int))
            by (nonlinear_arith);
    }
    if sum >= 0 {
        let q: u128 = (sum as u128) / (cnt as u128);
        proof {
            vstd::arithmetic::div_mod::lemma_div_is_ordered(
                sum as int,
                (FEATURE_LIMIT as int) * (cnt as int),
                cnt as int,
            );
            vstd::arithmetic::div_mod::lemma_div_by_multiple(FEATURE_LIMIT as int, cnt as int);
        }
        q as i64
    } else {
        let m: u128 = (-sum) as u128;
        let q: u128 = m / (cnt as u128);
        proof {
            vstd::arithmetic::div_mod::lemma_div_is_ordered(
                m as int,
                (FEATURE_LIMIT as int) * (cnt as int),
                cnt as int,
            );
            vstd::arithmetic::div_mod::lemma_div_by_multiple(FEATURE_LIMIT as int, cnt as int);
        }
        -(q as i64)
    }
}

/// Partitions the records into `k` clusters: `k` initial centers are sampled
/// from the records with the seeded generator, then exactly `iterations`
/// rounds of assignment and update are run, with no convergence check. The
/// result is the stated function of the records, the iteration count and
/// the sampled indices, so identical inputs give identical output.
#[verifier::loop_isolation(false)]
pub fn kmeans(data: &Vec<CountryData>, k: usize, iterations: usize, seed: u64) -> (r: (
    Vec<usize>,
    Vec<CountryData>,
))
    requires
        1 <= k <= data@.len(),
        data@.len() <= MAX_RECORDS,
        forall|i: int| 0 <= i < data@.len() ==> (#[trigger] data@[i]).wf(),
    ensures
        r.0@.len() == data@.len(),
        forall|i: int| 0 <= i < r.0@.len() ==> (#[trigger] r.0@[i]) < k,
        r.1@.len() == k,
        forall|j: int| 0 <= j < r.1@.len() ==> (#[trigger] r.1@[j]).wf(),
        labels_int(r.0@) == kmeans_spec(
            feats_of(data@),
            iterations as int,
            sample_of(seed, data@.len() as usize, k),
        ).0,
        feats_of(r.1@) == kmeans_spec(
            feats_of(data@),
            iterations as int,
            sample_of(seed, data@.len() as usize, k),
        ).1,
{
    let ghost df = feats_of(data@);
    let n = data.len();
    let idx = sample_indices(seed, n, k);
    let ghost c0 = init_centers(df, idx@);

    let mut centers: Vec<CountryData> = Vec::new();
    let mut j: usize = 0;
    while j < k
        invariant
            j <= k,
            centers@.len() == j,
            forall|t: int| 0 <= t < j ==> (#[trigger] centers@[t]).wf(),
            forall|t: int| 0 <= t < j ==> (#[trigger] centers@[t]).feats() == c0[t],
        decreases k - j,
    {
        let ci = idx[j];
        centers.push(data[ci].clone());
        j = j + 1;
    }
    proof {
        assert(feats_of(centers@) =~= c0);
    }

    let mut labels: Vec<usize> = Vec::new();
    let mut i: usize = 0;
    while i < n
        invariant
            i <= n,
            labels@.len() == i,
            forall|s: int| 0 <= s < i ==> (#[trigger] labels@[s]) == 0usize,
        decreases n - i,
    {
        labels.push(0);
        i = i + 1;
    }
    proof {
        assert(labels_int(labels@) =~= iterate_spec(df, c0, 0).0);
    }

    let mut t: usize = 0;
    while t < iterations
        invariant
            t <= iterations,
            labels@.len() == n,
            centers@.len() == k,
            forall|s: int| 0 <= s < n ==> (#[trigger] labels@[s]) < k,
            forall|jj: int| 0 <= jj < k ==> (#[trigger] centers@[jj]).wf(),
            labels_int(labels@) == iterate_spec(df, c0, t as int).0,
            feats_of(centers@) == iterate_spec(df, c0, t as int).1,
        decreases iterations - t,
    {
        let ghost pc = feats_of(centers@);

        let mut i: usize = 0;
        while i < n
            invariant
                i <= n,
                labels@.len() == n,
                forall|s: int| 0 <= s < n ==> (#[trigger] labels@[s]) < k,
                forall|s: int| 0 <= s < i ==> (#[trigger] labels@[s]) as int == assign_spec(
                    df,
                    pc,
                )[s],
            decreases n - i,
        {
            let mut best: usize = 0;
            let mut best_d: u128 = distance(&data[i], &centers[0]);
            let mut c: usize = 1;
            while c < k
                invariant
                    1 <= c <= k,
                    best < c,
                    best_d as int == dist_feats(df[i as int], pc[best as int]),
                    best as int == nearest_upto(df[i as int], pc, c as int),
                decreases k - c,
            {
                let d = distance(&data[i], &centers[c]);
                if d < best_d {
                    best = c;
                    best_d = d;
                }
                c = c + 1;
            }
            labels[i] = best;
            i = i + 1;
        }
        proof {
            assert(labels_int(labels@) =~= assign_spec(df, pc));
        }
        let ghost lf = labels_int(labels@);

        let mut new_centers: Vec<CountryData> = Vec::new();
        let mut j: usize = 0;
        while j < k
            invariant
                j <= k,
                new_centers@.len() == j,
                forall|u: int| 0 <= u < j ==> (#[trigger] new_centers@[u]).wf(),
                forall|u: int| 0 <= u < j ==> (#[trigger] new_centers@[u]).feats() == update_spec(
                    df,
                    lf,
                    pc,
                )[u],
            decreases k - j,
        {
            let mut s0: i128 = 0;
            let mut s1: i128 = 0;
            let mut s2: i128 = 0;
            let mut s3: i128 = 0;
            let mut s4: i128 = 0;
            let mut cnt: usize = 0;
            let mut p: usize = 0;
            while p < n
                invariant
                    p <= n,
                    cnt <= p,
                    cnt as int == cluster_count(lf.take(p as int), j as int),
                    s0 as int == cluster_sum(df.take(p as int), lf.take(p as int), j as int, 0),
                    s1 as int == cluster_sum(df.take(p as int), lf.take(p as int), j as int, 1),
                    s2 as int == cluster_sum(df.take(p as int), lf.take(p as int), j as int, 2),
                    s3 as int == cluster_sum(df.take(p as int), lf.take(p as int), j as int, 3),
                    s4 as int == cluster_sum(df.take(p as int), lf.take(p as int), j as int, 4),
                    -(cnt as int) * (FEATURE_LIMIT as int) <= s0 as int <= (cnt as int) * (
                    FEATURE_LIMIT as int),
                    -(cnt as int) * (FEATURE_LIMIT as int) <= s1 as int <= (cnt as int) * (
                    FEATURE_LIMIT as int),
                    -(cnt as int) * (FEATURE_LIMIT as int) <= s2 as int <= (cnt as int) * (
                    FEATURE_LIMIT as int),
                    -(cnt as int) * (FEATURE_LIMIT as int) <= s3 as int <= (cnt as int) * (
                    FEATURE_LIMIT as int),
                    -(cnt as int) * (FEATURE_LIMIT as int) <= s4 as int <= (cnt as int) * (
                    FEATURE_LIMIT as int),
                decreases n - p,
            {
                proof {
                    assert(df.take(p + 1).drop_last() =~= df.take(p as int));
                    assert(lf.take(p + 1).drop_last() =~= lf.take(p as int));
                }
                if labels[p] == j {
                    proof {
                        assert(((cnt + 1) as int) * (FEATURE_LIMIT as int) == (cnt as int) * (
                        FEATURE_LIMIT as int) + FEATURE_LIMIT as int) by (nonlinear_arith);
                        assert((cnt as int) * (FEATURE_LIMIT as int) <= (MAX_RECORDS as int) * (
                        FEATURE_LIMIT as int)) by (nonlinear_arith)
                            requires
                                0 <= cnt as int <= MAX_RECORDS as int,
                                FEATURE_LIMIT as int > 0,
                        ;
                    }
                    s0 = s0 + (data[p].features[0] as i128);
                    s1 = s1 + (data[p].features[1] as i128);
                    s2 = s2 + (data[p].features[2] as i128);
                    s3 = s3 + (data[p].features[3] as i128);
                    s4 = s4 + (data[p].features[4] as i128);
                    cnt = cnt + 1;
                }
                p = p + 1;
            }
            proof {
                assert(df.take(n as int) =~= df);
                assert(lf.take(n as int) =~= lf);
            }
            let newc: CountryData;
            if cnt > 0 {
                let mut fs: Vec<i64> = Vec::new();
                fs.push(mean_feature(s0, cnt));
                fs.push(mean_feature(s1, cnt));
                fs.push(mean_feature(s2, cnt));
                fs.push(mean_feature(s3, cnt));
                fs.push(mean_feature(s4, cnt));
                newc = CountryData { country: centers[j].country.clone(), features: fs };
                proof {
                    assert(newc.feats() =~= new_center(df, lf, j as int, pc[j as int]));
                }
            } else {
                newc = centers[j].clone();
                proof {
                    assert(newc.feats() =~= new_center(df, lf, j as int, pc[j as int]));
                }
            }
            new_centers.push(newc);
            j = j + 1;
        }
        centers = new_centers;
        proof {
            assert(feats_of(centers@) =~= update_spec(df, lf, pc));
            assert(labels_int(labels@) == iterate_spec(df, c0, t + 1).0);
            assert(feats_of(centers@) == iterate_spec(df, c0, t + 1).1);
        }
        t = t + 1;
    }
    (labels, centers)
}

/// The bytes of a machine word, least significant first.
pub open spec fn u64_bytes(x: u64) -> Seq<u8> {
    seq![
        (x & 0xff) as u8,
        ((x >> 8) & 0xff) as u8,
        ((x >> 16) & 0xff) as u8,
        ((x >> 24) & 0xff) as u8,
        ((x >> 32) & 0xff) as u8,
        ((x >> 40) & 0xff) as u8,
        ((x >> 48) & 0xff) as u8,
        ((x >> 56) & 0xff) as u8,
    ]
}

fn push_u64_bytes(x: u64) -> (r: Vec<u8>)
    ensures
        r@ == u64_bytes(x),
{
    let mut v: Vec<u8> = Vec::new();
    v.push((x & 0xff) as u8);
    v.push(((x >> 8) & 0xff) as u8);
    v.push(((x >> 16) & 0xff) as u8);
    v.push(((x >> 24) & 0xff) as u8);
    v.push(((x >> 32) & 0xff) as u8);
    v.push(((x >> 40) & 0xff) as u8);
    v.push(((x >> 48) & 0xff) as u8);
    v.push(((x >> 56) & 0xff) as u8);
    proof {
        assert(v@ =~= u64_bytes(x));
    }
    v
}

/// The seed used for one year's run at one cluster count: the standard
/// hasher's digest of the two values' bytes.
pub open spec fn seed_of(year: u32, k: usize) -> u64 {
    DefaultHasher::spec_finish(seq![u64_bytes(year as u64), u64_bytes(k as u64)])
}

/// Derives the reproducible per-run seed from the year and the cluster
/// count, by feeding both to a freshly created standard hasher.
pub fn compute_seed(year: u32, k: usize) -> (r: u64)
    ensures
        r == seed_of(year, k),
{
    let mut hasher = DefaultHasher::new();
    let yb = push_u64_bytes(year as u64);
    let kb = push_u64_bytes(k as u64);
    hasher.write(yb.as_slice());
    hasher.write(kb.as_slice());
    proof {
        assert(hasher@ =~= seq![u64_bytes(year as u64), u64_bytes(k as u64)]);
    }
    hasher.finish()
}

} // verus!
