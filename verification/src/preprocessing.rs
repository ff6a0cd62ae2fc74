//! Per-column rescaling of one year's records into the fixed-point unit
//! interval `[0, SCALE]`.

use vstd::prelude::*;

use crate::clustering::feats_of;
use crate::data_loader::CountryData;
use crate::data_loader::FEATURE_LIMIT;
use crate::data_loader::NUM_FEATURES;
use crate::SCALE;

verus! {

/// Smallest value of feature column `j` across the rows.
pub open spec fn col_min(rows: Seq<Seq<int>>, j: int) -> int
    decreases rows.len(),
{
    if rows.len() <= 1 {
        rows[0][j]
    } else {
        let m = col_min(rows.drop_last(), j);
        if rows.last()[j] < m {
            rows.last()[j]
        } else {
            m
        }
    }
}

/// Largest value of feature column `j` across the rows.
pub open spec fn col_max(rows: Seq<Seq<int>>, j: int) -> int
    decreases rows.len(),
{
    if rows.len() <= 1 {
        rows[0][j]
    } else {
        let m = col_max(rows.drop_last(), j);
        if rows.last()[j] > m {
            rows.last()[j]
        } else {
            m
        }
    }
}

/// The column minimum and maximum bound every value and are both attained.
pub proof fn lemma_col_range(rows: Seq<Seq<int>>, j: int)
    requires
        rows.len() >= 1,
    ensures
        forall|i: int|
            0 <= i < rows.len() ==> col_min(rows, j) <= #[trigger] rows[i][j] <= col_max(rows, j),
        exists|i: int| 0 <= i < rows.len() && rows[i][j] == col_min(rows, j),
        exists|i: int| 0 <= i < rows.len() && rows[i][j] == col_max(rows, j),
        col_min(rows, j) <= col_max(rows, j),
    decreases rows.len(),
{
    if rows.len() == 1 {
        assert(rows[0][j] == col_min(rows, j));
        assert(rows[0][j] == col_max(rows, j));
    } else {
        let prev = rows.drop_last();
        lemma_col_range(prev, j);
        assert(forall|i: int| 0 <= i < prev.len() ==> prev[i] == #[trigger] rows[i]);
        let iw = choose|i: int| 0 <= i < prev.len() && prev[i][j] == col_min(prev, j);
        let ix = choose|i: int| 0 <= i < prev.len() && prev[i][j] == col_max(prev, j);
        if rows.last()[j] < col_min(prev, j) {
            assert(rows[rows.len() - 1][j] == col_min(rows, j));
        } else {
            assert(rows[iw][j] == col_min(rows, j));
        }
        if rows.last()[j] > col_max(prev, j) {
            assert(rows[rows.len() - 1][j] == col_max(rows, j));
        } else {
            assert(rows[ix][j] == col_max(rows, j));
        }
    }
}

/// A value rescaled against its column's range.
pub open spec fn norm_val(v: int, lo: int, hi: int) -> int {
    (v - lo) * (SCALE as int) / (hi - lo)
}

/// The rows after normalization: each non-constant column is rescaled to
/// `[0, SCALE]` against that column's own minimum and maximum; a column
/// whose values are all equal is left untouched.
pub open spec fn normalize_spec(rows: Seq<Seq<int>>) -> Seq<Seq<int>> {
    Seq::new(
        rows.len(),
        |i: int|
            Seq::new(
                NUM_FEATURES as nat,
                |j: int|
                    if col_max(rows, j) == col_min(rows, j) {
                        rows[i][j]
                    } else {
                        norm_val(rows[i][j], col_min(rows, j), col_max(rows, j))
                    },
            ),
    )
}

/// In a non-constant column, every normalized value lies in `[0, SCALE]`,
/// the column minimum maps to exactly 0 and the column maximum to exactly
/// `SCALE`.
pub proof fn lemma_normalized_column_bounds(rows: Seq<Seq<int>>, j: int)
    requires
        rows.len() >= 1,
        0 <= j < NUM_FEATURES,
        col_min(rows, j) < col_max(rows, j),
    ensures
        forall|i: int| 0 <= i < rows.len() ==> 0 <= #[trigger] normalize_spec(rows)[i][j] <= SCALE,
        exists|i: int| 0 <= i < rows.len() && normalize_spec(rows)[i][j] == 0,
        exists|i: int| 0 <= i < rows.len() && normalize_spec(rows)[i][j] == SCALE,
{
    let lo = col_min(rows, j);
    let hi = col_max(rows, j);
    let d = hi - lo;
    lemma_col_range(rows, j);
    assert forall|i: int| 0 <= i < rows.len() implies 0 <= #[trigger] normalize_spec(rows)[i][j]
        <= SCALE by {
        lemma_norm_val_bounds(rows[i][j], lo, hi);
    }
    let iw = choose|i: int| 0 <= i < rows.len() && rows[i][j] == lo;
    vstd::arithmetic::div_mod::lemma_div_pos_is_pos(0, d);
    assert((lo - lo) * (SCALE as int) == 0) by (nonlinear_arith);
    assert(normalize_spec(rows)[iw][j] == 0);
    let ix = choose|i: int| 0 <= i < rows.len() && rows[i][j] == hi;
    assert((hi - lo) * (SCALE as int) == (SCALE as int) * (hi - lo)) by (nonlinear_arith);
    vstd::arithmetic::div_mod::lemma_div_by_multiple(SCALE as int, d);
    assert(normalize_spec(rows)[ix][j] == SCALE);
}

/// A rescaled value stays within `[0, SCALE]` when its column's bounds
/// enclose it.
pub proof fn lemma_norm_val_bounds(v: int, lo: int, hi: int)
    requires
        lo <= v <= hi,
        lo < hi,
    ensures
        0 <= norm_val(v, lo, hi) <= SCALE,
{
    let d = hi - lo;
    assert(0 <= (v - lo) * (SCALE as int) <= d * (SCALE as int)) by (nonlinear_arith)
        requires
            0 <= v - lo <= d,
            SCALE as int > 0,
    ;
    vstd::arithmetic::div_mod::lemma_div_pos_is_pos((v - lo) * (SCALE as int), d);
    vstd::arithmetic::div_mod::lemma_div_is_ordered((v - lo) * (SCALE as int), d * (SCALE as int), d);
    assert(d * (SCALE as int) == (SCALE as int) * d) by (nonlinear_arith);
    vstd::arithmetic::div_mod::lemma_div_by_multiple(SCALE as int, d);
}

/// A constant column is left exactly as it was.
pub proof fn lemma_constant_column_unchanged(rows: Seq<Seq<int>>, j: int)
    requires
        0 <= j < NUM_FEATURES,
        col_min(rows, j) == col_max(rows, j),
    ensures
        forall|i: int| 0 <= i < rows.len() ==> #[trigger] normalize_spec(rows)[i][j] == rows[i][j],
{
}

fn col_min_exec(data: &Vec<CountryData>, j: usize) -> (m: i64)
    requires
        data@.len() >= 1,
        j < NUM_FEATURES,
        forall|i: int| 0 <= i < data@.len() ==> (#[trigger] data@[i]).wf(),
    ensures
        m as int == col_min(feats_of(data@), j as int),
        -FEATURE_LIMIT <= m <= FEATURE_LIMIT,
{
    let ghost rows = feats_of(data@);
    let mut m: i64 = data[0].features[j];
    let mut i: usize = 1;
    while i < data.len()
        invariant
            1 <= i <= data@.len(),
            j < NUM_FEATURES,
            forall|t: int| 0 <= t < data@.len() ==> (#[trigger] data@[t]).wf(),
            rows == feats_of(data@),
            m as int == col_min(rows.take(i as int), j as int),
            -FEATURE_LIMIT <= m <= FEATURE_LIMIT,
        decreases data@.len() - i,
    {
        proof {
            assert(rows.take(i + 1).drop_last() =~= rows.take(i as int));
        }
        let v = data[i].features[j];
        if v < m {
            m = v;
        }
        i = i + 1;
    }
    proof {
        assert(rows.take(data@.len() as int) =~= rows);
    }
    m
}

fn col_max_exec(data: &Vec<CountryData>, j: usize) -> (m: i64)
    requires
        data@.len() >= 1,
        j < NUM_FEATURES,
        forall|i: int| 0 <= i < data@.len() ==> (#[trigger] data@[i]).wf(),
    ensures
        m as int == col_max(feats_of(data@), j as int),
        -FEATURE_LIMIT <= m <= FEATURE_LIMIT,
{
    let ghost rows = feats_of(data@);
    let mut m: i64 = data[0].features[j];
    let mut i: usize = 1;
    while i < data.len()
        invariant
            1 <= i <= data@.len(),
            j < NUM_FEATURES,
            forall|t: int| 0 <= t < data@.len() ==> (#[trigger] data@[t]).wf(),
            rows == feats_of(data@),
            m as int == col_max(rows.take(i as int), j as int),
            -FEATURE_LIMIT <= m <= FEATURE_LIMIT,
        decreases data@.len() - i,
    {
        proof {
            assert(rows.take(i + 1).drop_last() =~= rows.take(i as int));
        }
        let v = data[i].features[j];
        if v > m {
            m = v;
        }
        i = i + 1;
    }
    proof {
        assert(rows.take(data@.len() as int) =~= rows);
    }
    m
}

/// Rescales each feature column independently into `[0, SCALE]` against
/// that column's own minimum and maximum; a column whose values are all
/// equal is left untouched, so no division by zero can arise. Identities
/// are kept as they were.
#[verifier::loop_isolation(false)]
pub fn normalize_features(data: &mut Vec<CountryData>)
    requires
        old(data)@.len() >= 1,
        forall|i: int| 0 <= i < old(data)@.len() ==> (#[trigger] old(data)@[i]).wf(),
    ensures
        final(data)@.len() == old(data)@.len(),
        forall|i: int| 0 <= i < final(data)@.len() ==> (#[trigger] final(data)@[i]).wf(),
        forall|i: int|
            0 <= i < final(data)@.len() ==> (#[trigger] final(data)@[i]).country@ == old(
                data,
            )@[i].country@,
        feats_of(final(data)@) == normalize_spec(feats_of(old(data)@)),
{
    let ghost rows = feats_of(old(data)@);
    let n = data.len();
    let mut lows: Vec<i64> = Vec::new();
    let mut highs: Vec<i64> = Vec::new();
    let mut j: usize = 0;
    while j < NUM_FEATURES
        invariant
            j <= NUM_FEATURES,
            lows@.len() == j,
            highs@.len() == j,
            forall|u: int| 0 <= u < j ==> (#[trigger] lows@[u]) as int == col_min(rows, u),
            forall|u: int| 0 <= u < j ==> (#[trigger] highs@[u]) as int == col_max(rows, u),
        decreases NUM_FEATURES - j,
    {
        lows.push(col_min_exec(data, j));
        highs.push(col_max_exec(data, j));
        j = j + 1;
    }

    let mut out: Vec<CountryData> = Vec::new();
    let mut i: usize = 0;
    while i < n
        invariant
            i <= n,
            out@.len() == i,
            forall|t: int| 0 <= t < i ==> (#[trigger] out@[t]).wf(),
            forall|t: int| 0 <= t < i ==> (#[trigger] out@[t]).country@ == data@[t].country@,
            forall|t: int| 0 <= t < i ==> (#[trigger] out@[t]).feats() == normalize_spec(rows)[t],
        decreases n - i,
    {
        let mut fs: Vec<i64> = Vec::new();
        let mut j: usize = 0;
        while j < NUM_FEATURES
            invariant
                j <= NUM_FEATURES,
                i < n,
                fs@.len() == j,
                forall|u: int| 0 <= u < j ==> (#[trigger] fs@[u]) as int == normalize_spec(
                    rows,
                )[i as int][u],
                forall|u: int| 0 <= u < j ==> -FEATURE_LIMIT <= (#[trigger] fs@[u]) <= FEATURE_LIMIT,
            decreases NUM_FEATURES - j,
        {
            let lo = lows[j];
            let hi = highs[j];
            let v = data[i].features[j];
            proof {
                lemma_col_range(rows, j as int);
                assert(rows[i as int][j as int] == v as int);
                let iw = choose|ii: int|
                    0 <= ii < rows.len() && rows[ii][j as int] == col_min(rows, j as int);
                assert(data@[iw].wf());
                assert(rows[iw][j as int] == data@[iw].features@[j as int] as int);
                let ix = choose|ii: int|
                    0 <= ii < rows.len() && rows[ii][j as int] == col_max(rows, j as int);
                assert(data@[ix].wf());
                assert(rows[ix][j as int] == data@[ix].features@[j as int] as int);
                assert(-FEATURE_LIMIT <= lo as int <= FEATURE_LIMIT);
                assert(-FEATURE_LIMIT <= hi as int <= FEATURE_LIMIT);
                assert((v as int - lo as int) * (SCALE as int) <= 2 * (FEATURE_LIMIT as int) * (
                SCALE as int)) by (nonlinear_arith)
                    requires
                        0 <= v as int - lo as int <= 2 * (FEATURE_LIMIT as int),
                        SCALE as int > 0,
                ;
                assert((v as int - lo as int) * (SCALE as int) >= 0) by (nonlinear_arith)
                    requires
                        0 <= v as int - lo as int,
                        SCALE as int > 0,
                ;
            }
            let w: i64 = if hi == lo {
                v
            } else {
                let num: u64 = ((v - lo) as u64) * (SCALE as u64);
                let den: u64 = (hi - lo) as u64;
                let q: u64 = num / den;
                proof {
                    lemma_norm_val_bounds(v as int, lo as int, hi as int);
                }
                q as i64
            };
            fs.push(w);
            j = j + 1;
        }
        let rec = CountryData { country: data[i].country.clone(), features: fs };
        proof {
            assert(rec.feats() =~= normalize_spec(rows)[i as int]);
        }
        out.push(rec);
        i = i + 1;
    }
    *data = out;
    proof {
        assert(feats_of(data@) =~= normalize_spec(rows));
    }
}

} // verus!
