use vstd::prelude::*;
use crate::replay::ReplayData;
use crate::stats::{bucket_count, put_deviations_into_buckets, NUM_OFFSET_BUCKETS};
use crate::window::{
    find_fastest_combo_in_score, find_fastest_note_subset, fastest_combo, fastest_of,
    lemma_fastest_unique, strictly_faster, weights_fit, ComboWindow,
};

verus! {

/// A hit further off than this (microseconds) breaks the combo.
pub const CB_THRESHOLD: i64 = 90_000;

/// A hit at most this far off (microseconds) is marvelous.
pub const MARVELOUS_THRESHOLD: i64 = 22_500;

/// Hits at most this late (microseconds) take part in the jack search.
pub const JACK_THRESHOLD: i64 = 180_000;

/// The deviation (microseconds) that marks a miss, and how close counts as equal.
pub const MISS_DEVIATION: i64 = 1_000_000;

pub const MISS_TOLERANCE: i64 = 10;

/// The number of notes in a jack window.
pub const FASTEST_JACK_WINDOW_SIZE: u64 = 30;

/// The shortest and longest windows of the combo searches.
pub const COMBO_MIN_NOTES: u64 = 100;

pub const COMBO_MAX_NOTES: u64 = 130;

pub const NUM_COLUMNS: usize = 4;

pub open spec fn abs(d: int) -> int {
    if d < 0 {
        -d
    } else {
        d
    }
}

pub open spec fn is_cb(d: i64) -> bool {
    abs(d as int) > CB_THRESHOLD
}

pub open spec fn is_marvelous(d: i64) -> bool {
    abs(d as int) <= MARVELOUS_THRESHOLD
}

pub open spec fn is_miss(d: i64) -> bool {
    abs(d - MISS_DEVIATION) < MISS_TOLERANCE
}

fn cb(d: i64) -> (r: bool)
    ensures
        r == is_cb(d),
{
    d > CB_THRESHOLD || d < -CB_THRESHOLD
}

/// How many notes of column `c` there are among the first `k`, counting only combo breakers
/// if `cbs_only`.
pub open spec fn column_count(cols: Seq<u8>, devs: Seq<i64>, c: int, cbs_only: bool, k: int) -> int
    decreases k,
{
    if k <= 0 {
        0
    } else {
        column_count(cols, devs, c, cbs_only, k - 1) + if cols[k - 1] == c && (!cbs_only || is_cb(
            devs[k - 1],
        )) {
            1int
        } else {
            0
        }
    }
}

/// How many adjacent pairs among the first `k` ticks are out of order.
pub open spec fn out_of_order(ticks: Seq<u64>, k: int) -> int
    decreases k,
{
    if k <= 1 {
        0
    } else {
        out_of_order(ticks, k - 1) + if ticks[k - 2] > ticks[k - 1] {
            1int
        } else {
            0
        }
    }
}

/// Hits `i..i + len` are all marvelous.
pub open spec fn marvelous_run(devs: Seq<i64>, i: int, len: int) -> bool {
    &&& 0 <= i
    &&& 0 <= len
    &&& i + len <= devs.len()
    &&& forall|j: int| i <= j < i + len ==> is_marvelous(#[trigger] devs[j])
}

/// `r` is the length of the longest run of consecutive marvelous hits.
pub open spec fn is_longest_marvelous_run(devs: Seq<i64>, r: int) -> bool {
    &&& exists|i: int| marvelous_run(devs, i, r)
    &&& forall|i: int, len: int| #[trigger] marvelous_run(devs, i, len) ==> len <= r
}

/// The sum of the non-breaking deviations among the first `k`, and how many there are.
pub open spec fn accurate_sum(devs: Seq<i64>, k: int) -> (int, int)
    decreases k,
{
    if k <= 0 {
        (0, 0)
    } else {
        let (sum, count) = accurate_sum(devs, k - 1);
        if is_cb(devs[k - 1]) {
            (sum, count)
        } else {
            (sum + devs[k - 1], count + 1)
        }
    }
}

/// `order` lists the positions of `t` in the order of a stable sort by value.
pub open spec fn is_stable_sort_order(t: Seq<u64>, order: Seq<usize>) -> bool {
    &&& order.len() == t.len()
    &&& forall|k: int| 0 <= k < order.len() ==> #[trigger] order[k] < t.len()
    &&& forall|k: int, l: int|
        0 <= k < l < order.len() ==> {
            let a = #[trigger] order[k] as int;
            let b = #[trigger] order[l] as int;
            t[a] < t[b] || (t[a] == t[b] && a < b)
        }
}

/// Relies on permutation::sort, which sorts the positions of a slice by its values with
/// std's stable `sort_by_key`, and on Permutation::apply_slice, which puts element
/// `indices[k]` at place `k`: applied to the positions themselves it lists them in sorted
/// order.
#[verifier::external_body]
fn sorting_order(ticks: &[u64]) -> (r: Vec<usize>)
    ensures
        is_stable_sort_order(ticks@, r@),
{
    let order = permutation::sort(ticks);
    let positions: Vec<usize> = (0..ticks.len()).collect();
    order.apply_slice(&positions[..])
}

/// The statistics of one score that need no chart timing. Note sequences are in tick order.
pub struct ScoreStats {
    pub num_notes: u64,
    /// Adjacent pairs, in hit order, where the first note lies later in the chart.
    pub num_manipulated: u64,
    pub notes_per_column: Vec<u64>,
    pub cbs_per_column: Vec<u64>,
    /// The positions of the notes in hit order, listed in tick order.
    pub order: Vec<usize>,
    pub ticks: Vec<u64>,
    pub deviations: Vec<i64>,
    pub columns: Vec<u8>,
    pub are_cbs: Vec<bool>,
    pub longest_mcombo: u64,
    /// The sum and count of the deviations of the hits that did not break the combo.
    pub deviation_sum: i128,
    pub num_deviation_notes: u64,
    pub offset_buckets: Vec<u64>,
}

impl ScoreStats {
    /// `self` is what `analyze_replay` makes of `data`.
    pub open spec fn describes(&self, data: &ReplayData) -> bool {
        let t = data.ticks@;
        let d = data.deviations@;
        let c = data.columns@;
        let n = t.len() as int;
        let o = self.order@;
        &&& self.num_notes == n
        &&& self.num_manipulated == out_of_order(t, n)
        &&& self.notes_per_column@.len() == NUM_COLUMNS
        &&& self.cbs_per_column@.len() == NUM_COLUMNS
        &&& forall|k: int|
            0 <= k < NUM_COLUMNS ==> #[trigger] self.notes_per_column@[k] == column_count(
                c,
                d,
                k,
                false,
                n,
            ) && self.cbs_per_column@[k] == column_count(c, d, k, true, n)
        &&& is_stable_sort_order(t, o)
        &&& self.ticks@.len() == n && self.deviations@.len() == n && self.columns@.len() == n
            && self.are_cbs@.len() == n
        &&& forall|k: int|
            0 <= k < n ==> {
                &&& #[trigger] self.ticks@[k] == t[o[k] as int]
                &&& self.deviations@[k] == d[o[k] as int]
                &&& self.columns@[k] == c[o[k] as int]
                &&& self.are_cbs@[k] == is_cb(d[o[k] as int])
            }
        &&& is_longest_marvelous_run(self.deviations@, self.longest_mcombo as int)
        &&& self.deviation_sum == accurate_sum(self.deviations@, n).0
        &&& self.num_deviation_notes == accurate_sum(self.deviations@, n).1
        &&& self.offset_buckets@.len() == NUM_OFFSET_BUCKETS
        &&& forall|k: int|
            0 <= k < NUM_OFFSET_BUCKETS ==> #[trigger] self.offset_buckets@[k] == bucket_count(
                self.deviations@,
                k,
            )
    }
}

proof fn lemma_column_count_le(cols: Seq<u8>, devs: Seq<i64>, c: int, cbs_only: bool, k: int)
    ensures
        0 <= column_count(cols, devs, c, cbs_only, k) <= if k < 0 {
            0
        } else {
            k
        },
    decreases k,
{
    if k > 0 {
        lemma_column_count_le(cols, devs, c, cbs_only, k - 1);
    }
}

proof fn lemma_out_of_order_le(ticks: Seq<u64>, k: int)
    ensures
        0 <= out_of_order(ticks, k) <= if k < 0 {
            0
        } else {
            k
        },
    decreases k,
{
    if k > 1 {
        lemma_out_of_order_le(ticks, k - 1);
    }
}

proof fn lemma_accurate_sum_bound(devs: Seq<i64>, k: int)
    requires
        0 <= k <= devs.len(),
    ensures
        0 <= accurate_sum(devs, k).1 <= k,
        abs(accurate_sum(devs, k).0) <= k * CB_THRESHOLD,
    decreases k,
{
    if k > 0 {
        lemma_accurate_sum_bound(devs, k - 1);
    }
}

/// Per-column note and combo-breaker counts, in any note order; columns past the fourth
/// are not counted.
pub fn column_tallies(columns: &[u8], deviations: &[i64]) -> (r: (Vec<u64>, Vec<u64>))
    requires
        columns@.len() == deviations@.len(),
    ensures
        r.0@.len() == NUM_COLUMNS,
        r.1@.len() == NUM_COLUMNS,
        forall|k: int|
            0 <= k < NUM_COLUMNS ==> #[trigger] r.0@[k] == column_count(
                columns@,
                deviations@,
                k,
                false,
                columns@.len() as int,
            ) && r.1@[k] == column_count(
                columns@,
                deviations@,
                k,
                true,
                columns@.len() as int,
            ),
{
    let mut notes: Vec<u64> = vec![0, 0, 0, 0];
    let mut cbs: Vec<u64> = vec![0, 0, 0, 0];
    let mut i: usize = 0;
    while i < columns.len()
        invariant
            columns@.len() == deviations@.len(),
            i <= columns@.len(),
            notes@.len() == NUM_COLUMNS,
            cbs@.len() == NUM_COLUMNS,
            forall|k: int|
                0 <= k < NUM_COLUMNS ==> #[trigger] notes@[k] == column_count(
                    columns@,
                    deviations@,
                    k,
                    false,
                    i as int,
                ) && cbs@[k] == column_count(columns@, deviations@, k, true, i as int),
        decreases columns@.len() - i,
    {
        let c = columns[i];
        proof {
            assert forall|k: int| 0 <= k < NUM_COLUMNS implies {
                &&& column_count(columns@, deviations@, k, false, i + 1) == column_count(
                    columns@,
                    deviations@,
                    k,
                    false,
                    i as int,
                ) + if c == k {
                    1int
                } else {
                    0
                }
                &&& column_count(columns@, deviations@, k, true, i + 1) == column_count(
                    columns@,
                    deviations@,
                    k,
                    true,
                    i as int,
                ) + if c == k && is_cb(deviations@[i as int]) {
                    1int
                } else {
                    0
                }
            } by {}
            if c < 4 {
                lemma_column_count_le(columns@, deviations@, c as int, false, i as int);
                lemma_column_count_le(columns@, deviations@, c as int, true, i as int);
            }
        }
        let ghost old_notes = notes@;
        let ghost old_cbs = cbs@;
        if c < 4 {
            let ci = c as usize;
            let v = notes[ci];
            notes.set(ci, v + 1);
            if cb(deviations[i]) {
                let w = cbs[ci];
                cbs.set(ci, w + 1);
            }
        }
        proof {
            assert forall|k: int| 0 <= k < NUM_COLUMNS implies #[trigger] notes@[k] == column_count(
                columns@,
                deviations@,
                k,
                false,
                i + 1,
            ) && cbs@[k] == column_count(columns@, deviations@, k, true, i + 1) by {
                assert(old_notes[k] == column_count(columns@, deviations@, k, false, i as int));
                assert(old_cbs[k] == column_count(columns@, deviations@, k, true, i as int));
            }
        }
        i += 1;
    }
    (notes, cbs)
}

/// How many adjacent pairs, in hit order, have the earlier-hit note later in the chart.
pub fn count_out_of_order(ticks: &[u64]) -> (r: u64)
    ensures
        r == out_of_order(ticks@, ticks@.len() as int),
{
    let mut count: u64 = 0;
    let mut k: usize = 1;
    if ticks.len() == 0 {
        return 0;
    }
    while k < ticks.len()
        invariant
            1 <= k <= ticks@.len(),
            count == out_of_order(ticks@, k as int),
        decreases ticks@.len() - k,
    {
        proof {
            lemma_out_of_order_le(ticks@, k as int);
        }
        if ticks[k - 1] > ticks[k] {
            count = count + 1;
        }
        k += 1;
    }
    count
}

/// The longest run of consecutive marvelous hits.
pub fn longest_marvelous_combo(deviations: &[i64]) -> (r: u64)
    ensures
        is_longest_marvelous_run(deviations@, r as int),
{
    let ghost ds = deviations@;
    let mut current: u64 = 0;
    let mut longest: u64 = 0;
    let ghost mut start: int = 0;
    let mut k: usize = 0;
    while k < deviations.len()
        invariant
            ds == deviations@,
            k <= ds.len(),
            current <= k,
            longest <= k,
            current <= longest,
            marvelous_run(ds, k - current, current as int),
            current < k ==> !is_marvelous(ds[k - current - 1]),
            marvelous_run(ds, start, longest as int),
            forall|i: int, len: int|
                #[trigger] marvelous_run(ds, i, len) && i + len <= k ==> len <= longest,
        decreases ds.len() - k,
    {
        let ghost old_current = current as int;
        let d = deviations[k];
        if d <= MARVELOUS_THRESHOLD && d >= -MARVELOUS_THRESHOLD {
            current = current + 1;
        } else {
            current = 0;
        }
        if current > longest {
            longest = current;
            proof {
                start = k + 1 - current;
            }
        }
        proof {
            assert forall|i: int, len: int|
                #[trigger] marvelous_run(ds, i, len) && i + len <= k + 1 implies len <= longest by {
                if i + len == k + 1 && len > 0 {
                    assert(is_marvelous(ds[k as int]));
                    if len - 1 > old_current {
                        let j = k - old_current - 1;
                        assert(i <= j < i + len);
                        assert(is_marvelous(ds[j]));
                    }
                }
            }
        }
        k += 1;
    }
    longest
}

/// The sum and number of the deviations of hits that did not break the combo.
pub fn accurate_deviations(deviations: &[i64]) -> (r: (i128, u64))
    ensures
        r.0 == accurate_sum(deviations@, deviations@.len() as int).0,
        r.1 == accurate_sum(deviations@, deviations@.len() as int).1,
{
    let mut sum: i128 = 0;
    let mut count: u64 = 0;
    let mut k: usize = 0;
    while k < deviations.len()
        invariant
            k <= deviations@.len(),
            (sum as int, count as int) == accurate_sum(deviations@, k as int),
        decreases deviations@.len() - k,
    {
        proof {
            lemma_accurate_sum_bound(deviations@, k as int);
            assert(k * CB_THRESHOLD <= u64::MAX * CB_THRESHOLD) by (nonlinear_arith)
                requires
                    0 <= k <= u64::MAX,
            ;
        }
        let d = deviations[k];
        if !cb(d) {
            sum = sum + d as i128;
            count = count + 1;
        }
        k += 1;
    }
    (sum, count)
}

/// The statistics of one score: tallies in hit order, then everything else in tick order
/// (a stable sort by tick).
pub fn analyze_replay(data: &ReplayData) -> (r: ScoreStats)
    requires
        data.wf(),
    ensures
        r.describes(data),
{
    let n = data.ticks.len();
    let (notes_per_column, cbs_per_column) = column_tallies(
        data.columns.as_slice(),
        data.deviations.as_slice(),
    );
    let num_manipulated = count_out_of_order(data.ticks.as_slice());
    let order = sorting_order(data.ticks.as_slice());
    let mut ticks: Vec<u64> = Vec::new();
    let mut deviations: Vec<i64> = Vec::new();
    let mut columns: Vec<u8> = Vec::new();
    let mut are_cbs: Vec<bool> = Vec::new();
    let mut k: usize = 0;
    while k < n
        invariant
            n == data.ticks@.len(),
            data.wf(),
            is_stable_sort_order(data.ticks@, order@),
            k <= n,
            ticks@.len() == k && deviations@.len() == k && columns@.len() == k && are_cbs@.len()
                == k,
            forall|j: int|
                0 <= j < k ==> {
                    &&& #[trigger] ticks@[j] == data.ticks@[order@[j] as int]
                    &&& deviations@[j] == data.deviations@[order@[j] as int]
                    &&& columns@[j] == data.columns@[order@[j] as int]
                    &&& are_cbs@[j] == is_cb(data.deviations@[order@[j] as int])
                },
        decreases n - k,
    {
        let p = order[k];
        assert(order@[k as int] < n);
        let ghost t0 = ticks@;
        let ghost d0 = deviations@;
        let ghost c0 = columns@;
        let ghost b0 = are_cbs@;
        ticks.push(data.ticks[p]);
        let d = data.deviations[p];
        deviations.push(d);
        columns.push(data.columns[p]);
        let is_break = cb(d);
        are_cbs.push(is_break);
        assert(are_cbs@[k as int] == is_cb(data.deviations@[order@[k as int] as int]));
        assert(ticks@[k as int] == data.ticks@[order@[k as int] as int]);
        assert(deviations@[k as int] == data.deviations@[order@[k as int] as int]);
        assert(columns@[k as int] == data.columns@[order@[k as int] as int]);
        let next = k + 1;
        assert forall|j: int| 0 <= j < next implies {
            &&& #[trigger] ticks@[j] == data.ticks@[order@[j] as int]
            &&& deviations@[j] == data.deviations@[order@[j] as int]
            &&& columns@[j] == data.columns@[order@[j] as int]
            &&& are_cbs@[j] == is_cb(data.deviations@[order@[j] as int])
        } by {
            if j < k {
                assert(t0[j] == data.ticks@[order@[j] as int]);
                assert(ticks@[j] == t0[j]);
                assert(deviations@[j] == d0[j]);
                assert(columns@[j] == c0[j]);
                assert(are_cbs@[j] == b0[j]);
            }
        }
        k = next;
    }
    let longest_mcombo = longest_marvelous_combo(deviations.as_slice());
    let (deviation_sum, num_deviation_notes) = accurate_deviations(deviations.as_slice());
    let offset_buckets = put_deviations_into_buckets(deviations.as_slice());
    ScoreStats {
        num_notes: n as u64,
        num_manipulated,
        notes_per_column,
        cbs_per_column,
        order,
        ticks,
        deviations,
        columns,
        are_cbs,
        longest_mcombo,
        deviation_sum,
        num_deviation_notes,
        offset_buckets,
    }
}


/// The hit times (note time plus deviation) of the notes of column `c` among the first `k`
/// whose deviation is at most `JACK_THRESHOLD`, in note order.
pub open spec fn column_hits(times: Seq<i64>, devs: Seq<i64>, cols: Seq<u8>, c: int, k: int) -> Seq<i64>
    decreases k,
{
    if k <= 0 {
        Seq::empty()
    } else if cols[k - 1] == c && devs[k - 1] <= JACK_THRESHOLD {
        column_hits(times, devs, cols, c, k - 1).push((times[k - 1] + devs[k - 1]) as i64)
    } else {
        column_hits(times, devs, cols, c, k - 1)
    }
}

/// The fastest jack over the first `c` columns: each column's fastest window of exactly
/// `FASTEST_JACK_WINDOW_SIZE` steps, a later column winning only when strictly faster.
pub open spec fn fastest_jack_upto(times: Seq<i64>, devs: Seq<i64>, cols: Seq<u8>, c: int) -> ComboWindow
    decreases c,
{
    if c <= 0 {
        ComboWindow::spec_none()
    } else {
        strictly_faster(
            fastest_of(
                column_hits(times, devs, cols, c - 1, times.len() as int),
                None,
                FASTEST_JACK_WINDOW_SIZE as int,
                FASTEST_JACK_WINDOW_SIZE as int,
            ),
            fastest_jack_upto(times, devs, cols, c - 1),
        )
    }
}

/// The windows of one score that need its note times. Speeds are not scaled by the
/// playback rate.
pub struct TimingWindows {
    pub fastest_combo: ComboWindow,
    pub fastest_jack: ComboWindow,
    pub fastest_acc: ComboWindow,
}

/// The note's hit time fits in an `i64`.
pub open spec fn hit_times_fit(times: Seq<i64>, devs: Seq<i64>) -> bool {
    forall|k: int|
        0 <= k < times.len() ==> i64::MIN <= #[trigger] times[k] + devs[k] <= i64::MAX
}

fn collect_column_hits(times: &[i64], devs: &[i64], cols: &[u8], c: u8) -> (r: Vec<i64>)
    requires
        times@.len() == devs@.len(),
        times@.len() == cols@.len(),
        hit_times_fit(times@, devs@),
    ensures
        r@ == column_hits(times@, devs@, cols@, c as int, times@.len() as int),
{
    let mut hits: Vec<i64> = Vec::new();
    let mut k: usize = 0;
    while k < times.len()
        invariant
            times@.len() == devs@.len(),
            times@.len() == cols@.len(),
            hit_times_fit(times@, devs@),
            k <= times@.len(),
            hits@ == column_hits(times@, devs@, cols@, c as int, k as int),
        decreases times@.len() - k,
    {
        if cols[k] == c && devs[k] <= JACK_THRESHOLD {
            assert(i64::MIN <= times@[k as int] + devs@[k as int] <= i64::MAX);
            hits.push(times[k] + devs[k]);
        }
        k += 1;
    }
    hits
}

/// The timing-dependent windows of a score, from the note times (microseconds, in tick
/// order) and the score points of each note: the fastest combo, the fastest combo rated by
/// points, and the fastest jack of any column.
pub fn analyze_timing(stats: &ScoreStats, note_times: &[i64], wife_pts: &[u64]) -> (r:
    TimingWindows)
    requires
        stats.deviations@.len() == note_times@.len(),
        stats.columns@.len() == note_times@.len(),
        stats.are_cbs@.len() == note_times@.len(),
        weights_fit(note_times@, Some(wife_pts@)),
        hit_times_fit(note_times@, stats.deviations@),
    ensures
        r.fastest_combo == fastest_combo(
            note_times@,
            stats.are_cbs@,
            None,
            COMBO_MIN_NOTES as int,
            COMBO_MAX_NOTES as int,
        ),
        r.fastest_acc == fastest_combo(
            note_times@,
            stats.are_cbs@,
            Some(wife_pts@),
            COMBO_MIN_NOTES as int,
            COMBO_MAX_NOTES as int,
        ),
        r.fastest_jack == fastest_jack_upto(
            note_times@,
            stats.deviations@,
            stats.columns@,
            NUM_COLUMNS as int,
        ),
{
    let fastest_combo = find_fastest_combo_in_score(
        note_times,
        stats.are_cbs.as_slice(),
        COMBO_MIN_NOTES,
        COMBO_MAX_NOTES,
        None,
    );
    let fastest_acc = find_fastest_combo_in_score(
        note_times,
        stats.are_cbs.as_slice(),
        COMBO_MIN_NOTES,
        COMBO_MAX_NOTES,
        Some(wife_pts),
    );
    let mut fastest_jack = ComboWindow::none();
    let mut column: u8 = 0;
    while column < 4
        invariant
            column <= 4,
            stats.deviations@.len() == note_times@.len(),
            stats.columns@.len() == note_times@.len(),
            hit_times_fit(note_times@, stats.deviations@),
            fastest_jack == fastest_jack_upto(
                note_times@,
                stats.deviations@,
                stats.columns@,
                column as int,
            ),
        decreases 4 - column,
    {
        let hits = collect_column_hits(
            note_times,
            stats.deviations.as_slice(),
            stats.columns.as_slice(),
            column,
        );
        let jack = find_fastest_note_subset(
            hits.as_slice(),
            FASTEST_JACK_WINDOW_SIZE,
            FASTEST_JACK_WINDOW_SIZE,
        );
        proof {
            let w = FASTEST_JACK_WINDOW_SIZE as int;
            lemma_fastest_unique(hits@, None, w, w, jack, fastest_of(hits@, None, w, w));
        }
        if !fastest_jack.speed.at_least(&jack.speed) {
            fastest_jack = jack;
        }
        column += 1;
    }
    TimingWindows { fastest_combo, fastest_jack, fastest_acc }
}


/// The note times of column `c` among the first `k` notes.
pub open spec fn column_note_times(times: Seq<i64>, cols: Seq<u8>, c: int, k: int) -> Seq<i64>
    decreases k,
{
    if k <= 0 {
        Seq::empty()
    } else if cols[k - 1] == c {
        column_note_times(times, cols, c, k - 1).push(times[k - 1])
    } else {
        column_note_times(times, cols, c, k - 1)
    }
}

/// The hit times (note time plus deviation) of column `c` among the first `k` notes,
/// leaving out misses.
pub open spec fn column_hit_times(times: Seq<i64>, devs: Seq<i64>, cols: Seq<u8>, c: int, k: int) -> Seq<i64>
    decreases k,
{
    if k <= 0 {
        Seq::empty()
    } else if cols[k - 1] == c && !is_miss(devs[k - 1]) {
        column_hit_times(times, devs, cols, c, k - 1).push((times[k - 1] + devs[k - 1]) as i64)
    } else {
        column_hit_times(times, devs, cols, c, k - 1)
    }
}

/// Splits the notes by column (the first four): each column's note times, and its hit
/// times without the misses.
pub fn split_columns(note_times: &[i64], deviations: &[i64], columns: &[u8]) -> (r: (
    Vec<Vec<i64>>,
    Vec<Vec<i64>>,
))
    requires
        note_times@.len() == deviations@.len(),
        note_times@.len() == columns@.len(),
        hit_times_fit(note_times@, deviations@),
    ensures
        r.0@.len() == NUM_COLUMNS,
        r.1@.len() == NUM_COLUMNS,
        forall|c: int|
            0 <= c < NUM_COLUMNS ==> #[trigger] r.0@[c]@ == column_note_times(
                note_times@,
                columns@,
                c,
                note_times@.len() as int,
            ) && r.1@[c]@ == column_hit_times(
                note_times@,
                deviations@,
                columns@,
                c,
                note_times@.len() as int,
            ),
{
    let n = note_times.len();
    let mut notes: Vec<Vec<i64>> = Vec::new();
    let mut hits: Vec<Vec<i64>> = Vec::new();
    let mut c: u8 = 0;
    while c < 4
        invariant
            c <= 4,
            n == note_times@.len(),
            note_times@.len() == deviations@.len(),
            note_times@.len() == columns@.len(),
            hit_times_fit(note_times@, deviations@),
            notes@.len() == c,
            hits@.len() == c,
            forall|j: int|
                0 <= j < c ==> #[trigger] notes@[j]@ == column_note_times(
                    note_times@,
                    columns@,
                    j,
                    n as int,
                ) && hits@[j]@ == column_hit_times(note_times@, deviations@, columns@, j, n as int),
        decreases 4 - c,
    {
        let mut column_notes: Vec<i64> = Vec::new();
        let mut column_hits: Vec<i64> = Vec::new();
        let mut k: usize = 0;
        while k < n
            invariant
                n == note_times@.len(),
                note_times@.len() == deviations@.len(),
                note_times@.len() == columns@.len(),
                hit_times_fit(note_times@, deviations@),
                k <= n,
                column_notes@ == column_note_times(note_times@, columns@, c as int, k as int),
                column_hits@ == column_hit_times(
                    note_times@,
                    deviations@,
                    columns@,
                    c as int,
                    k as int,
                ),
            decreases n - k,
        {
            if columns[k] == c {
                column_notes.push(note_times[k]);
                let d = deviations[k];
                let off: i128 = if d >= MISS_DEVIATION {
                    d as i128 - MISS_DEVIATION as i128
                } else {
                    MISS_DEVIATION as i128 - d as i128
                };
                if off >= MISS_TOLERANCE as i128 {
                    assert(i64::MIN <= note_times@[k as int] + deviations@[k as int] <= i64::MAX);
                    column_hits.push(note_times[k] + d);
                }
            }
            k += 1;
        }
        let ghost old_notes = notes@;
        let ghost old_hits = hits@;
        notes.push(column_notes);
        hits.push(column_hits);
        proof {
            assert forall|j: int| 0 <= j < c + 1 implies #[trigger] notes@[j]@ == column_note_times(
                note_times@,
                columns@,
                j,
                n as int,
            ) && hits@[j]@ == column_hit_times(note_times@, deviations@, columns@, j, n as int) by {
                if j < c {
                    assert(notes@[j] == old_notes[j]);
                    assert(hits@[j] == old_hits[j]);
                }
            }
        }
        c += 1;
    }
    (notes, hits)
}

} // verus!
