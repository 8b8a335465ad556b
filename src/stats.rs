use vstd::prelude::*;

verus! {

/// Deviations within this many milliseconds either side of zero get a bucket.
pub const OFFSET_BUCKET_RANGE: u64 = 180;

/// One bucket per whole millisecond from `-OFFSET_BUCKET_RANGE` to `OFFSET_BUCKET_RANGE`.
pub const NUM_OFFSET_BUCKETS: usize = 361;

/// A deviation in microseconds rounded to whole milliseconds, halves away from zero.
pub open spec fn round_ms(d: int) -> int {
    if d >= 0 {
        (d + 500) / 1000
    } else {
        -((-d + 500) / 1000)
    }
}

/// The bucket of a deviation, which may lie outside the histogram.
pub open spec fn bucket_of(d: int) -> int {
    round_ms(d) + OFFSET_BUCKET_RANGE
}

/// How many of `ds` fall into bucket `k`.
pub open spec fn bucket_count(ds: Seq<i64>, k: int) -> int
    decreases ds.len(),
{
    if ds.len() == 0 {
        0
    } else {
        bucket_count(ds.drop_last(), k) + if bucket_of(ds.last() as int) == k {
            1int
        } else {
            0
        }
    }
}

proof fn lemma_bucket_count_le(ds: Seq<i64>, k: int)
    ensures
        0 <= bucket_count(ds, k) <= ds.len(),
    decreases ds.len(),
{
    if ds.len() > 0 {
        lemma_bucket_count_le(ds.drop_last(), k);
    }
}

/// Counts the deviations (microseconds) per whole millisecond; those beyond the range
/// either side are left out.
pub fn put_deviations_into_buckets(deviations: &[i64]) -> (r: Vec<u64>)
    ensures
        r@.len() == NUM_OFFSET_BUCKETS,
        forall|k: int| 0 <= k < NUM_OFFSET_BUCKETS ==> r@[k] == bucket_count(deviations@, k),
{
    let mut buckets: Vec<u64> = Vec::new();
    let mut k: usize = 0;
    while k < NUM_OFFSET_BUCKETS
        invariant
            k <= NUM_OFFSET_BUCKETS,
            buckets@.len() == k,
            forall|j: int| 0 <= j < k ==> buckets@[j] == 0,
        decreases NUM_OFFSET_BUCKETS - k,
    {
        buckets.push(0);
        k += 1;
    }
    let ghost ds = deviations@;
    let mut i: usize = 0;
    while i < deviations.len()
        invariant
            ds == deviations@,
            i <= ds.len(),
            buckets@.len() == NUM_OFFSET_BUCKETS,
            forall|j: int|
                0 <= j < NUM_OFFSET_BUCKETS ==> buckets@[j] == bucket_count(
                    ds.take(i as int),
                    j,
                ),
        decreases ds.len() - i,
    {
        let d = deviations[i] as i128;
        let ms: i128 = if d >= 0 {
            (d + 500) / 1000
        } else {
            -((-d + 500) / 1000)
        };
        let index: i128 = ms + OFFSET_BUCKET_RANGE as i128;
        proof {
            assert(ds.take(i + 1).drop_last() == ds.take(i as int));
            assert forall|j: int| 0 <= j < NUM_OFFSET_BUCKETS implies bucket_count(
                ds.take(i + 1),
                j,
            ) == bucket_count(ds.take(i as int), j) + if index == j {
                1int
            } else {
                0
            } by {}
        }
        if 0 <= index && index < NUM_OFFSET_BUCKETS as i128 {
            let b = index as usize;
            proof {
                lemma_bucket_count_le(ds.take(i as int), b as int);
            }
            let c = buckets[b];
            buckets.set(b, c + 1);
        }
        i += 1;
    }
    proof {
        assert(ds.take(ds.len() as int) == ds);
    }
    buckets
}

/// The number of values in the first `k` buckets.
pub open spec fn total_upto(b: Seq<u64>, k: int) -> int
    decreases k,
{
    if k <= 0 {
        0
    } else {
        total_upto(b, k - 1) + b[k - 1]
    }
}

/// The sum of the values in the first `k` buckets, bucket `j` holding value `j - range`.
pub open spec fn value_sum_upto(b: Seq<u64>, range: int, k: int) -> int
    decreases k,
{
    if k <= 0 {
        0
    } else {
        value_sum_upto(b, range, k - 1) + (k - 1 - range) * b[k - 1]
    }
}

/// The sum over the first `k` buckets of `count * (d * value - s)^2`. With `d = n - 1` and
/// `s` the value sum, this is `(n - 1)^2` times the sum of squared distances from the mean
/// `s / (n - 1)`, kept exact.
pub open spec fn scaled_squared_sum_upto(b: Seq<u64>, range: int, d: int, s: int, k: int) -> int
    decreases k,
{
    if k <= 0 {
        0
    } else {
        scaled_squared_sum_upto(b, range, d, s, k - 1) + b[k - 1] * ((d * (k - 1 - range) - s) * (
        d * (k - 1 - range) - s))
    }
}

/// The parts of a histogram's spread, exact: the number of values `n`, their sum, and the
/// sum of squared distances from the mean `sum / (n - 1)` scaled by `(n - 1)^2`. The variance,
/// which also divides by `n - 1`, is `squared_differences_sum / (n - 1)^3`.
#[derive(Clone, Copy, Debug, PartialEq, Eq, Structural)]
pub struct Spread {
    pub num_values: u64,
    pub value_sum: i128,
    pub squared_differences_sum: u128,
}

impl Spread {
    /// The histogram `b` with values `-range..=range` has this spread.
    pub open spec fn of(self, b: Seq<u64>, range: int) -> bool {
        let n = b.len() as int;
        &&& self.num_values == total_upto(b, n)
        &&& self.value_sum == value_sum_upto(b, range, n)
        &&& self.squared_differences_sum == scaled_squared_sum_upto(
            b,
            range,
            total_upto(b, n) - 1,
            value_sum_upto(b, range, n),
            n,
        )
    }
}

proof fn lemma_sums_bound(b: Seq<u64>, range: int, k: int)
    requires
        0 <= k <= b.len(),
        b.len() == 2 * range + 1,
        range >= 0,
    ensures
        0 <= total_upto(b, k),
        total_upto(b, k) <= total_upto(b, b.len() as int),
        -range * total_upto(b, k) <= value_sum_upto(b, range, k) <= range * total_upto(b, k),
    decreases k,
{
    if k > 0 {
        lemma_sums_bound(b, range, k - 1);
        let t = total_upto(b, k - 1);
        let v = (k - 1 - range);
        let c = b[k - 1] as int;
        assert(-range * c <= v * c <= range * c) by (nonlinear_arith)
            requires
                -range <= v <= range,
                c >= 0,
        ;
        assert(-range * (t + c) == -range * t + -range * c) by (nonlinear_arith);
        assert(range * (t + c) == range * t + range * c) by (nonlinear_arith);
    } else {
    }
    if k < b.len() {
        lemma_total_mono(b, k, b.len() as int);
    }
}

proof fn lemma_total_mono(b: Seq<u64>, k: int, m: int)
    requires
        0 <= k <= m <= b.len(),
    ensures
        total_upto(b, k) <= total_upto(b, m),
    decreases m - k,
{
    if m > k {
        lemma_total_mono(b, k, m - 1);
    }
}

proof fn lemma_scaled_sum_mono(b: Seq<u64>, range: int, d: int, sum: int, k: int, m: int)
    requires
        0 <= k <= m,
    ensures
        0 <= scaled_squared_sum_upto(b, range, d, sum, k) <= scaled_squared_sum_upto(
            b,
            range,
            d,
            sum,
            m,
        ),
    decreases m,
{
    if m > k {
        lemma_scaled_sum_mono(b, range, d, sum, k, m - 1);
        let x = d * (m - 1 - range) - sum;
        assert(b[m - 1] * (x * x) >= 0) by (nonlinear_arith)
            requires
                b[m - 1] >= 0,
        ;
    } else {
        lemma_scaled_sum_nonneg(b, range, d, sum, k);
    }
}

proof fn lemma_scaled_sum_nonneg(b: Seq<u64>, range: int, d: int, sum: int, k: int)
    ensures
        0 <= scaled_squared_sum_upto(b, range, d, sum, k),
    decreases k,
{
    if k > 0 {
        lemma_scaled_sum_nonneg(b, range, d, sum, k - 1);
        let x = d * (k - 1 - range) - sum;
        assert(b[k - 1] * (x * x) >= 0) by (nonlinear_arith)
            requires
                b[k - 1] >= 0,
        ;
    }
}

/// The spread of a histogram of `2 * range + 1` buckets holding the values `-range` to
/// `range`, with at least two values.
pub fn spread_of_buckets(offset_buckets: &[u64], offset_bucket_range: u64) -> (r: Spread)
    requires
        offset_buckets@.len() == 2 * offset_bucket_range + 1,
        offset_bucket_range <= 1_000_000,
        2 <= total_upto(offset_buckets@, offset_buckets@.len() as int) <= u64::MAX,
        scaled_squared_sum_upto(
            offset_buckets@,
            offset_bucket_range as int,
            total_upto(offset_buckets@, offset_buckets@.len() as int) - 1,
            value_sum_upto(offset_buckets@, offset_bucket_range as int, offset_buckets@.len() as int),
            offset_buckets@.len() as int,
        ) <= u128::MAX,
    ensures
        r.of(offset_buckets@, offset_bucket_range as int),
{
    let ghost b = offset_buckets@;
    let ghost range = offset_bucket_range as int;
    let len = offset_buckets.len();
    let ghost n = len as int;
    let mut values_sum: i128 = 0;
    let mut num_values: u64 = 0;
    let mut k: usize = 0;
    proof {
        lemma_sums_bound(b, range, n);
    }
    while k < len
        invariant
            b == offset_buckets@,
            len == b.len(),
            range == offset_bucket_range as int,
            n == len,
            b.len() == 2 * range + 1,
            range <= 1_000_000,
            total_upto(b, n) <= u64::MAX,
            k <= len,
            num_values == total_upto(b, k as int),
            values_sum == value_sum_upto(b, range, k as int),
        decreases len - k,
    {
        proof {
            lemma_sums_bound(b, range, k as int);
            lemma_sums_bound(b, range, k + 1);
        }
        let value: i128 = k as i128 - offset_bucket_range as i128;
        let c = offset_buckets[k];
        proof {
            assert(-1_000_000 <= value <= 1_000_000);
            assert(-1_000_000 * (u64::MAX as int) <= value * c <= 1_000_000 * (u64::MAX as int))
                by (nonlinear_arith)
                requires
                    -1_000_000 <= value <= 1_000_000,
                    0 <= c <= u64::MAX,
            ;
            assert(-1_000_000 * (u64::MAX as int) <= values_sum <= 1_000_000 * (u64::MAX as int))
                by (nonlinear_arith)
                requires
                    -range * num_values <= values_sum <= range * num_values,
                    0 <= num_values <= u64::MAX,
                    0 <= range <= 1_000_000,
            ;
        }
        values_sum = values_sum + value * (c as i128);
        num_values = num_values + c;
        k += 1;
    }
    proof {
        lemma_sums_bound(b, range, n);
        assert(-1_000_000 * (u64::MAX as int) <= values_sum <= 1_000_000 * (u64::MAX as int))
            by (nonlinear_arith)
            requires
                -range * num_values <= values_sum <= range * num_values,
                0 <= num_values <= u64::MAX,
                0 <= range <= 1_000_000,
        ;
    }
    let d: i128 = (num_values - 1) as i128;
    let ghost dd = d as int;
    let ghost sum = values_sum as int;
    let mut squared: u128 = 0;
    let mut j: usize = 0;
    while j < len
        invariant
            b == offset_buckets@,
            len == b.len(),
            range == offset_bucket_range as int,
            n == len,
            b.len() == 2 * range + 1,
            range <= 1_000_000,
            1 <= d <= u64::MAX,
            dd == d,
            sum == values_sum,
            -1_000_000 * (u64::MAX as int) <= values_sum <= 1_000_000 * (u64::MAX as int),
            scaled_squared_sum_upto(b, range, dd, sum, n) <= u128::MAX,
            j <= len,
            squared == scaled_squared_sum_upto(b, range, dd, sum, j as int),
        decreases len - j,
    {
        let value: i128 = j as i128 - offset_bucket_range as i128;
        proof {
            assert(-1_000_000 * (u64::MAX as int) <= d * value <= 1_000_000 * (u64::MAX as int))
                by (nonlinear_arith)
                requires
                    -1_000_000 <= value <= 1_000_000,
                    1 <= d <= u64::MAX,
            ;
            lemma_scaled_sum_mono(b, range, dd, sum, j + 1, n);
        }
        let x: i128 = d * value - values_sum;
        let c = offset_buckets[j];
        proof {
            let xi = x as int;
            assert(xi == dd * (j - range) - sum);
            assert(scaled_squared_sum_upto(b, range, dd, sum, j + 1) == squared + c * (xi * xi));
            if c == 0 {
                assert(c * (xi * xi) == 0) by (nonlinear_arith)
                    requires
                        c == 0,
                ;
            }
        }
        if c > 0 {
            let ax: u128 = if x >= 0 {
                x as u128
            } else {
                (-x) as u128
            };
            proof {
                let xi = x as int;
                assert(squared + c * (xi * xi) <= u128::MAX);
                assert(ax * ax == xi * xi) by (nonlinear_arith)
                    requires
                        ax == (if xi >= 0 {
                            xi
                        } else {
                            -xi
                        }),
                ;
                assert(ax * ax <= c * (ax * ax)) by (nonlinear_arith)
                    requires
                        c >= 1,
                ;
            }
            let xx = ax * ax;
            squared = squared + (c as u128) * xx;
        }
        j += 1;
    }
    Spread { num_values, value_sum: values_sum, squared_differences_sum: squared }
}

} // verus!
