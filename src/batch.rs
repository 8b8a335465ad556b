use vstd::prelude::*;
use crate::score::NUM_COLUMNS;
use crate::stats::NUM_OFFSET_BUCKETS;
use crate::window::ComboWindow;

verus! {

/// What the batch report takes from one analysed score.
pub struct ScoreSummary {
    pub num_notes: u64,
    pub num_manipulated: u64,
    pub notes_per_column: Vec<u64>,
    pub cbs_per_column: Vec<u64>,
    pub offset_buckets: Vec<u64>,
    pub longest_mcombo: u64,
    /// The score's own accuracy was below 93%.
    pub below_93: bool,
    /// Chart timing was available for the score.
    pub has_timing: bool,
}

impl ScoreSummary {
    pub open spec fn wf(&self) -> bool {
        &&& self.notes_per_column@.len() == NUM_COLUMNS
        &&& self.cbs_per_column@.len() == NUM_COLUMNS
        &&& self.offset_buckets@.len() == NUM_OFFSET_BUCKETS
    }
}

/// Every analysed score is well formed.
pub open spec fn all_wf(rs: Seq<Option<ScoreSummary>>) -> bool {
    forall|k: int| 0 <= k < rs.len() && #[trigger] rs[k] is Some ==> rs[k]->Some_0.wf()
}

/// The positions among the first `k` whose analysis succeeded.
pub open spec fn success_indices(rs: Seq<Option<ScoreSummary>>, k: int) -> Seq<u64>
    decreases k,
{
    if k <= 0 {
        Seq::empty()
    } else if rs[k - 1] is Some {
        success_indices(rs, k - 1).push((k - 1) as u64)
    } else {
        success_indices(rs, k - 1)
    }
}

/// The positions among the first `k` whose analysis had chart timing.
pub open spec fn timing_indices(rs: Seq<Option<ScoreSummary>>, k: int) -> Seq<u64>
    decreases k,
{
    if k <= 0 {
        Seq::empty()
    } else if rs[k - 1] is Some && rs[k - 1]->Some_0.has_timing {
        timing_indices(rs, k - 1).push((k - 1) as u64)
    } else {
        timing_indices(rs, k - 1)
    }
}

/// The out-of-order pair and note counts of the successful scores among the first `k`.
pub open spec fn manipulation_counts(rs: Seq<Option<ScoreSummary>>, k: int) -> Seq<(u64, u64)>
    decreases k,
{
    if k <= 0 {
        Seq::empty()
    } else if rs[k - 1] is Some {
        manipulation_counts(rs, k - 1).push(
            (rs[k - 1]->Some_0.num_manipulated, rs[k - 1]->Some_0.num_notes),
        )
    } else {
        manipulation_counts(rs, k - 1)
    }
}

/// The sum over the successful scores among the first `k` of their column `c` counts
/// (combo breakers if `cbs`).
pub open spec fn column_total(rs: Seq<Option<ScoreSummary>>, c: int, cbs: bool, k: int) -> int
    decreases k,
{
    if k <= 0 {
        0
    } else {
        column_total(rs, c, cbs, k - 1) + match rs[k - 1] {
            Some(s) => if cbs {
                s.cbs_per_column@[c] as int
            } else {
                s.notes_per_column@[c] as int
            },
            None => 0,
        }
    }
}

/// The sum over the successful scores among the first `k` of bucket `b`; with `sub_93`
/// only over those below 93%.
pub open spec fn bucket_total(rs: Seq<Option<ScoreSummary>>, b: int, sub_93: bool, k: int) -> int
    decreases k,
{
    if k <= 0 {
        0
    } else {
        bucket_total(rs, b, sub_93, k - 1) + match rs[k - 1] {
            Some(s) => if !sub_93 || s.below_93 {
                s.offset_buckets@[b] as int
            } else {
                0
            },
            None => 0,
        }
    }
}

/// The longest marvelous combo among the first `k` scores and the first score that has
/// it; `(0, None)` if no score has one.
pub open spec fn longest_combo(rs: Seq<Option<ScoreSummary>>, k: int) -> (u64, Option<u64>)
    decreases k,
{
    if k <= 0 {
        (0, None)
    } else {
        let prev = longest_combo(rs, k - 1);
        match rs[k - 1] {
            Some(s) => if s.longest_mcombo > prev.0 {
                (s.longest_mcombo, Some((k - 1) as u64))
            } else {
                prev
            },
            None => prev,
        }
    }
}

/// The sums fit in a `u64`.
pub open spec fn totals_fit(rs: Seq<Option<ScoreSummary>>) -> bool {
    &&& forall|c: int, cbs: bool|
        0 <= c < NUM_COLUMNS ==> #[trigger] column_total(rs, c, cbs, rs.len() as int) <= u64::MAX
    &&& forall|b: int, sub_93: bool|
        0 <= b < NUM_OFFSET_BUCKETS ==> #[trigger] bucket_total(rs, b, sub_93, rs.len() as int)
            <= u64::MAX
}

/// The integer part of a batch report.
pub struct BatchTotals {
    pub score_indices: Vec<u64>,
    pub manipulations: Vec<(u64, u64)>,
    pub notes_per_column: Vec<u64>,
    pub cbs_per_column: Vec<u64>,
    pub offset_buckets: Vec<u64>,
    pub sub_93_offset_buckets: Vec<u64>,
    pub longest_mcombo: u64,
    pub longest_mcombo_index: Option<u64>,
    pub timing_info_dependant_score_indices: Vec<u64>,
}

proof fn lemma_column_total_nonneg(rs: Seq<Option<ScoreSummary>>, c: int, cbs: bool, k: int)
    ensures
        0 <= column_total(rs, c, cbs, k),
    decreases k,
{
    if k > 0 {
        lemma_column_total_nonneg(rs, c, cbs, k - 1);
    }
}

proof fn lemma_bucket_total_nonneg(rs: Seq<Option<ScoreSummary>>, b: int, sub_93: bool, k: int)
    ensures
        0 <= bucket_total(rs, b, sub_93, k),
    decreases k,
{
    if k > 0 {
        lemma_bucket_total_nonneg(rs, b, sub_93, k - 1);
    }
}

proof fn lemma_column_total_mono(rs: Seq<Option<ScoreSummary>>, c: int, cbs: bool, k: int, m: int)
    requires
        0 <= k <= m <= rs.len(),
    ensures
        0 <= column_total(rs, c, cbs, k) <= column_total(rs, c, cbs, m),
    decreases m,
{
    if m > k {
        lemma_column_total_mono(rs, c, cbs, k, m - 1);
    } else {
        lemma_column_total_nonneg(rs, c, cbs, k);
    }
}

proof fn lemma_bucket_total_mono(rs: Seq<Option<ScoreSummary>>, b: int, sub_93: bool, k: int, m: int)
    requires
        0 <= k <= m <= rs.len(),
    ensures
        0 <= bucket_total(rs, b, sub_93, k) <= bucket_total(rs, b, sub_93, m),
    decreases m,
{
    if m > k {
        lemma_bucket_total_mono(rs, b, sub_93, k, m - 1);
    } else {
        lemma_bucket_total_nonneg(rs, b, sub_93, k);
    }
}

/// Adds `add[j]` into `acc[j]` for every `j`.
fn add_counts(acc: &mut Vec<u64>, add: &Vec<u64>)
    requires
        old(acc)@.len() == add@.len(),
        forall|j: int| 0 <= j < add@.len() ==> old(acc)@[j] + add@[j] <= u64::MAX,
    ensures
        final(acc)@.len() == old(acc)@.len(),
        forall|j: int| 0 <= j < add@.len() ==> final(acc)@[j] == old(acc)@[j] + add@[j],
{
    let mut j: usize = 0;
    while j < add.len()
        invariant
            acc@.len() == old(acc)@.len(),
            acc@.len() == add@.len(),
            j <= add@.len(),
            forall|i: int| 0 <= i < add@.len() ==> old(acc)@[i] + add@[i] <= u64::MAX,
            forall|i: int| 0 <= i < j ==> acc@[i] == old(acc)@[i] + add@[i],
            forall|i: int| j <= i < add@.len() ==> acc@[i] == old(acc)@[i],
        decreases add@.len() - j,
    {
        let v = acc[j] + add[j];
        acc.set(j, v);
        j += 1;
    }
}

fn zeros(n: usize) -> (r: Vec<u64>)
    ensures
        r@.len() == n,
        forall|j: int| 0 <= j < n ==> r@[j] == 0,
{
    let mut v: Vec<u64> = Vec::new();
    let mut j: usize = 0;
    while j < n
        invariant
            j <= n,
            v@.len() == j,
            forall|i: int| 0 <= i < j ==> v@[i] == 0,
        decreases n - j,
    {
        v.push(0);
        j += 1;
    }
    v
}

/// Reduces the analyses of a batch, in input order, to its report: a failed analysis
/// (`None`) is left out of every list, but the positions of the others are kept.
pub fn reduce_scores(results: &[Option<ScoreSummary>]) -> (r: BatchTotals)
    requires
        all_wf(results@),
        totals_fit(results@),
    ensures
        r.score_indices@ == success_indices(results@, results@.len() as int),
        r.manipulations@ == manipulation_counts(results@, results@.len() as int),
        r.timing_info_dependant_score_indices@ == timing_indices(
            results@,
            results@.len() as int,
        ),
        r.notes_per_column@.len() == NUM_COLUMNS,
        r.cbs_per_column@.len() == NUM_COLUMNS,
        forall|c: int|
            0 <= c < NUM_COLUMNS ==> #[trigger] r.notes_per_column@[c] == column_total(
                results@,
                c,
                false,
                results@.len() as int,
            ) && r.cbs_per_column@[c] == column_total(results@, c, true, results@.len() as int),
        r.offset_buckets@.len() == NUM_OFFSET_BUCKETS,
        r.sub_93_offset_buckets@.len() == NUM_OFFSET_BUCKETS,
        forall|b: int|
            0 <= b < NUM_OFFSET_BUCKETS ==> #[trigger] r.offset_buckets@[b] == bucket_total(
                results@,
                b,
                false,
                results@.len() as int,
            ) && r.sub_93_offset_buckets@[b] == bucket_total(
                results@,
                b,
                true,
                results@.len() as int,
            ),
        (r.longest_mcombo, r.longest_mcombo_index) == longest_combo(
            results@,
            results@.len() as int,
        ),
{
    let ghost rs = results@;
    let n = results.len();
    let mut totals = BatchTotals {
        score_indices: Vec::new(),
        manipulations: Vec::new(),
        notes_per_column: zeros(NUM_COLUMNS),
        cbs_per_column: zeros(NUM_COLUMNS),
        offset_buckets: zeros(NUM_OFFSET_BUCKETS),
        sub_93_offset_buckets: zeros(NUM_OFFSET_BUCKETS),
        longest_mcombo: 0,
        longest_mcombo_index: None,
        timing_info_dependant_score_indices: Vec::new(),
    };
    let mut i: usize = 0;
    while i < n
        invariant
            rs == results@,
            n == rs.len(),
            i <= n,
            all_wf(rs),
            totals_fit(rs),
            totals.score_indices@ == success_indices(rs, i as int),
            totals.manipulations@ == manipulation_counts(rs, i as int),
            totals.timing_info_dependant_score_indices@ == timing_indices(rs, i as int),
            totals.notes_per_column@.len() == NUM_COLUMNS,
            totals.cbs_per_column@.len() == NUM_COLUMNS,
            forall|c: int|
                0 <= c < NUM_COLUMNS ==> #[trigger] totals.notes_per_column@[c] == column_total(
                    rs,
                    c,
                    false,
                    i as int,
                ) && totals.cbs_per_column@[c] == column_total(rs, c, true, i as int),
            totals.offset_buckets@.len() == NUM_OFFSET_BUCKETS,
            totals.sub_93_offset_buckets@.len() == NUM_OFFSET_BUCKETS,
            forall|b: int|
                0 <= b < NUM_OFFSET_BUCKETS ==> #[trigger] totals.offset_buckets@[b]
                    == bucket_total(rs, b, false, i as int) && totals.sub_93_offset_buckets@[b]
                    == bucket_total(rs, b, true, i as int),
            (totals.longest_mcombo, totals.longest_mcombo_index) == longest_combo(rs, i as int),
        decreases n - i,
    {
        match &results[i] {
            Some(score) => {
                assert(rs[i as int] is Some);
                assert(score.wf());
                totals.score_indices.push(i as u64);
                totals.manipulations.push((score.num_manipulated, score.num_notes));
                proof {
                    assert forall|c: int| 0 <= c < NUM_COLUMNS implies totals.notes_per_column@[c]
                        + score.notes_per_column@[c] <= u64::MAX && totals.cbs_per_column@[c]
                        + score.cbs_per_column@[c] <= u64::MAX by {
                        lemma_column_total_mono(rs, c, false, i + 1, n as int);
                        lemma_column_total_mono(rs, c, true, i + 1, n as int);
                        assert(column_total(rs, c, false, n as int) <= u64::MAX);
                        assert(column_total(rs, c, true, n as int) <= u64::MAX);
                    }
                    assert forall|b: int| 0 <= b < NUM_OFFSET_BUCKETS implies totals.offset_buckets@[b]
                        + score.offset_buckets@[b] <= u64::MAX by {
                        lemma_bucket_total_mono(rs, b, false, i + 1, n as int);
                        assert(bucket_total(rs, b, false, n as int) <= u64::MAX);
                    }
                }
                add_counts(&mut totals.notes_per_column, &score.notes_per_column);
                add_counts(&mut totals.cbs_per_column, &score.cbs_per_column);
                add_counts(&mut totals.offset_buckets, &score.offset_buckets);
                if score.below_93 {
                    proof {
                        assert forall|b: int| 0 <= b < NUM_OFFSET_BUCKETS implies totals.sub_93_offset_buckets@[b]
                            + score.offset_buckets@[b] <= u64::MAX by {
                            lemma_bucket_total_mono(rs, b, true, i + 1, n as int);
                            assert(bucket_total(rs, b, true, n as int) <= u64::MAX);
                        }
                    }
                    add_counts(&mut totals.sub_93_offset_buckets, &score.offset_buckets);
                }
                if score.longest_mcombo > totals.longest_mcombo {
                    totals.longest_mcombo = score.longest_mcombo;
                    totals.longest_mcombo_index = Some(i as u64);
                }
                if score.has_timing {
                    totals.timing_info_dependant_score_indices.push(i as u64);
                }
            },
            None => {},
        }
        i += 1;
    }
    totals
}

proof fn lemma_success_indices(rs: Seq<Option<ScoreSummary>>, k: int)
    requires
        0 <= k <= rs.len() <= u64::MAX,
    ensures
        success_indices(rs, k).len() == manipulation_counts(rs, k).len(),
        forall|j: int|
            0 <= j < success_indices(rs, k).len() ==> #[trigger] success_indices(rs, k)[j] < k,
        forall|j: int, l: int|
            0 <= j < l < success_indices(rs, k).len() ==> #[trigger] success_indices(rs, k)[j]
                < #[trigger] success_indices(rs, k)[l],
    decreases k,
{
    if k > 0 {
        lemma_success_indices(rs, k - 1);
    }
}

/// In every batch report, the surviving positions come one per manipulation entry, rise
/// strictly, and lie within the batch.
pub proof fn law_batch_indices(results: Seq<Option<ScoreSummary>>)
    requires
        results.len() <= u64::MAX,
    ensures
        ({
            let idx = success_indices(results, results.len() as int);
            &&& idx.len() == manipulation_counts(results, results.len() as int).len()
            &&& forall|j: int| 0 <= j < idx.len() ==> #[trigger] idx[j] < results.len()
            &&& forall|j: int, l: int|
                0 <= j < l < idx.len() ==> #[trigger] idx[j] < #[trigger] idx[l]
        }),
{
    lemma_success_indices(results, results.len() as int);
}


/// A score's fastest window of one kind, with the playback rate in thousandths.
pub struct RatedWindow {
    pub window: ComboWindow,
    pub rate_permille: u64,
}

/// `x`, scaled by its rate, is strictly faster than `y` scaled by its own: the rate's
/// denominator is the same on both sides and cancels.
pub open spec fn scaled_faster(x: RatedWindow, y: RatedWindow) -> bool {
    x.window.speed.count * x.rate_permille * y.window.speed.span > y.window.speed.count
        * y.rate_permille * x.window.speed.span
}

/// Scaled by its rate, `x` is faster than zero.
pub open spec fn faster_than_zero(x: RatedWindow) -> bool {
    x.window.speed.count * x.rate_permille > 0
}

/// Which of the first `k` windows is the fastest after scaling: a later one wins only when
/// strictly faster, and none is chosen if none is faster than zero.
pub open spec fn fastest_rated(ws: Seq<Option<RatedWindow>>, k: int) -> Option<u64>
    decreases k,
{
    if k <= 0 {
        None
    } else {
        let prev = fastest_rated(ws, k - 1);
        match ws[k - 1] {
            Some(x) => match prev {
                None => if faster_than_zero(x) {
                    Some((k - 1) as u64)
                } else {
                    None
                },
                Some(b) => if scaled_faster(x, ws[b as int]->Some_0) {
                    Some((k - 1) as u64)
                } else {
                    prev
                },
            },
            None => prev,
        }
    }
}

/// Every cross product that a comparison of two windows forms fits in a `u128`.
pub open spec fn rated_products_fit(ws: Seq<Option<RatedWindow>>) -> bool {
    forall|i: int, j: int|
        0 <= i < ws.len() && 0 <= j < ws.len() && #[trigger] ws[i] is Some && #[trigger] ws[j] is Some
            ==> ws[i]->Some_0.window.speed.count * ws[i]->Some_0.rate_permille
            * ws[j]->Some_0.window.speed.span <= u128::MAX
}

proof fn lemma_fastest_rated_some(ws: Seq<Option<RatedWindow>>, k: int)
    requires
        0 <= k <= ws.len(),
        ws.len() <= u64::MAX,
    ensures
        fastest_rated(ws, k) matches Some(b) ==> 0 <= b < k && ws[b as int] is Some,
    decreases k,
{
    if k > 0 {
        lemma_fastest_rated_some(ws, k - 1);
    }
}

/// The position of the fastest window across scores, each scaled by its playback rate;
/// ties keep the earliest.
pub fn fastest_across_scores(windows: &[Option<RatedWindow>]) -> (r: Option<u64>)
    requires
        rated_products_fit(windows@),
    ensures
        r == fastest_rated(windows@, windows@.len() as int),
{
    let ghost ws = windows@;
    let mut best: Option<u64> = None;
    let mut k: usize = 0;
    while k < windows.len()
        invariant
            ws == windows@,
            k <= ws.len(),
            rated_products_fit(ws),
            best == fastest_rated(ws, k as int),
        decreases ws.len() - k,
    {
        proof {
            lemma_fastest_rated_some(ws, k as int);
        }
        match &windows[k] {
            Some(x) => {
                assert(ws[k as int] is Some);
                let count = x.window.speed.count as u128;
                let rate = x.rate_permille as u128;
                match best {
                    None => {
                        proof {
                            assert(count * rate <= u128::MAX) by (nonlinear_arith)
                                requires
                                    count <= u64::MAX,
                                    rate <= u64::MAX,
                            ;
                        }
                        if count * rate > 0 {
                            best = Some(k as u64);
                        }
                    },
                    Some(b) => {
                        let y = windows[b as usize].as_ref().unwrap();
                        assert(ws[b as int] is Some);
                        proof {
                            assert(count * rate <= u128::MAX) by (nonlinear_arith)
                                requires
                                    count <= u64::MAX,
                                    rate <= u64::MAX,
                            ;
                            assert(y.window.speed.count * y.rate_permille <= u128::MAX)
                                by (nonlinear_arith)
                                requires
                                    y.window.speed.count <= u64::MAX,
                                    y.rate_permille <= u64::MAX,
                            ;
                        }
                        let lhs = count * rate * (y.window.speed.span as u128);
                        let rhs = (y.window.speed.count as u128) * (y.rate_permille as u128) * (
                        x.window.speed.span as u128);
                        if lhs > rhs {
                            best = Some(k as u64);
                        }
                    },
                }
            },
            None => {},
        }
        k += 1;
    }
    best
}

} // verus!
