use vstd::prelude::*;

verus! {

/// A rate: `count` items over a time `span` (microseconds), kept as an exact fraction.
/// A zero span with a positive count is an unbounded rate.
#[derive(Clone, Copy, Debug, PartialEq, Eq, Structural)]
pub struct Speed {
    pub count: u64,
    pub span: u64,
}

/// A contiguous run of notes and its rate. `length` counts the steps between the first
/// and the last note, so the run holds `length + 1` notes.
#[derive(Clone, Copy, Debug, PartialEq, Eq, Structural)]
pub struct ComboWindow {
    pub start_time: i64,
    pub end_time: i64,
    pub length: u64,
    pub speed: Speed,
}

/// `c1 / s1 >= c2 / s2`, read on the extended non-negative rationals.
pub open spec fn rate_ge(c1: int, s1: int, c2: int, s2: int) -> bool {
    c1 * s2 >= c2 * s1
}

impl Speed {
    pub open spec fn spec_at_least(self, other: Speed) -> bool {
        rate_ge(self.count as int, self.span as int, other.count as int, other.span as int)
    }

    pub fn zero() -> (r: Speed)
        ensures
            r == (Speed { count: 0, span: 1 }),
    {
        Speed { count: 0, span: 1 }
    }

    /// Exact comparison of two rates.
    pub fn at_least(&self, other: &Speed) -> (r: bool)
        ensures
            r == self.spec_at_least(*other),
    {
        proof {
            lemma_mul_fits(self.count as int, other.span as int);
            lemma_mul_fits(other.count as int, self.span as int);
        }
        (self.count as u128) * (other.span as u128) >= (other.count as u128) * (self.span as u128)
    }
}

impl ComboWindow {
    pub open spec fn spec_none() -> ComboWindow {
        ComboWindow { start_time: 0, end_time: 0, length: 0, speed: Speed { count: 0, span: 1 } }
    }

    /// The empty result: no window, zero speed.
    pub fn none() -> (r: ComboWindow)
        ensures
            r == ComboWindow::spec_none(),
    {
        ComboWindow { start_time: 0, end_time: 0, length: 0, speed: Speed::zero() }
    }
}

pub proof fn lemma_mul_fits(a: int, b: int)
    requires
        0 <= a <= u64::MAX,
        0 <= b <= u64::MAX,
    ensures
        0 <= a * b <= u128::MAX,
{
    assert(0 <= a * b <= u64::MAX * u64::MAX) by (nonlinear_arith)
        requires
            0 <= a <= u64::MAX,
            0 <= b <= u64::MAX,
    ;
}

/// Sum of `w[lo..hi)`.
pub open spec fn weight_sum(w: Seq<u64>, lo: int, hi: int) -> int
    decreases hi - lo,
{
    if hi <= lo {
        0
    } else {
        weight_sum(w, lo, hi - 1) + w[hi - 1]
    }
}

/// What a window of `n` steps starting at note `i` counts: its steps, or the weights of
/// its first `n` notes.
pub open spec fn window_count(weights: Option<Seq<u64>>, n: int, i: int) -> int {
    match weights {
        None => n,
        Some(w) => weight_sum(w, i, i + n),
    }
}

pub open spec fn window_span(s: Seq<i64>, n: int, i: int) -> int {
    s[i + n] - s[i]
}

/// A window of `n` steps at note `i` that the search looks at.
pub open spec fn is_candidate(len: int, min: int, max: int, n: int, i: int) -> bool {
    min <= n <= max && 0 <= i && i + n < len
}

/// A window whose rate is a non-negative number: it does not run backwards in time, and
/// it is not zero over zero.
pub open spec fn is_eligible(s: Seq<i64>, weights: Option<Seq<u64>>, n: int, i: int) -> bool {
    window_span(s, n, i) >= 0 && !(window_count(weights, n, i) == 0 && window_span(s, n, i) == 0)
}

/// Whether window `(n1, i1)` comes before `(n2, i2)` in the search order (by length, then
/// by position).
pub open spec fn comes_before(n1: int, i1: int, n2: int, i2: int) -> bool {
    n1 < n2 || (n1 == n2 && i1 < i2)
}

pub open spec fn window_rate_ge(
    s: Seq<i64>,
    weights: Option<Seq<u64>>,
    n1: int,
    i1: int,
    n2: int,
    i2: int,
) -> bool {
    rate_ge(
        window_count(weights, n1, i1),
        window_span(s, n1, i1),
        window_count(weights, n2, i2),
        window_span(s, n2, i2),
    )
}

pub open spec fn window_at(s: Seq<i64>, weights: Option<Seq<u64>>, n: int, i: int) -> ComboWindow {
    ComboWindow {
        start_time: s[i],
        end_time: s[i + n],
        length: n as u64,
        speed: Speed {
            count: window_count(weights, n, i) as u64,
            span: window_span(s, n, i) as u64,
        },
    }
}

/// A considered window: a candidate, eligible, and before `(bn, bi)` in the search order.
pub open spec fn considered(
    s: Seq<i64>,
    weights: Option<Seq<u64>>,
    min: int,
    max: int,
    bn: int,
    bi: int,
    n: int,
    i: int,
) -> bool {
    is_candidate(s.len() as int, min, max, n, i) && is_eligible(s, weights, n, i) && comes_before(
        n,
        i,
        bn,
        bi,
    )
}

/// Window `(n, i)` has the highest rate of those considered before `(bn, bi)`, and every
/// considered window after it is strictly slower: among equal rates the last one wins.
pub open spec fn wins_before(
    s: Seq<i64>,
    weights: Option<Seq<u64>>,
    min: int,
    max: int,
    bn: int,
    bi: int,
    n: int,
    i: int,
) -> bool {
    &&& considered(s, weights, min, max, bn, bi, n, i)
    &&& forall|n2: int, i2: int|
        #[trigger] considered(s, weights, min, max, bn, bi, n2, i2) ==> {
            &&& window_rate_ge(s, weights, n, i, n2, i2)
            &&& (comes_before(n, i, n2, i2) ==> !window_rate_ge(s, weights, n2, i2, n, i))
        }
}

pub open spec fn nothing_before(
    s: Seq<i64>,
    weights: Option<Seq<u64>>,
    min: int,
    max: int,
    bn: int,
    bi: int,
) -> bool {
    forall|n2: int, i2: int| !#[trigger] considered(s, weights, min, max, bn, bi, n2, i2)
}

/// `r` is the fastest window of `min..=max` steps in `s`: the last one in the search order
/// of those with the highest rate, or the empty result if there is none.
pub open spec fn is_fastest(
    s: Seq<i64>,
    weights: Option<Seq<u64>>,
    min: int,
    max: int,
    r: ComboWindow,
) -> bool {
    let end = s.len() as int;
    if nothing_before(s, weights, min, max, end, 0) {
        r == ComboWindow::spec_none()
    } else {
        exists|n: int, i: int|
            wins_before(s, weights, min, max, end, 0, n, i) && r == window_at(s, weights, n, i)
    }
}

pub proof fn lemma_rate_ge_total(c1: int, s1: int, c2: int, s2: int)
    ensures
        rate_ge(c1, s1, c2, s2) || rate_ge(c2, s2, c1, s1),
{
}

/// On eligible rates, `rate_ge` is transitive.
pub proof fn lemma_rate_ge_trans(c1: int, s1: int, c2: int, s2: int, c3: int, s3: int)
    requires
        c1 >= 0 && s1 >= 0 && !(c1 == 0 && s1 == 0),
        c2 >= 0 && s2 >= 0 && !(c2 == 0 && s2 == 0),
        c3 >= 0 && s3 >= 0 && !(c3 == 0 && s3 == 0),
        rate_ge(c1, s1, c2, s2),
        rate_ge(c2, s2, c3, s3),
    ensures
        rate_ge(c1, s1, c3, s3),
{
    if s2 > 0 {
        assert(c1 * s3 >= c3 * s1) by (nonlinear_arith)
            requires
                c1 >= 0,
                s1 >= 0,
                c2 >= 0,
                s2 > 0,
                c3 >= 0,
                s3 >= 0,
                c1 * s2 >= c2 * s1,
                c2 * s3 >= c3 * s2,
        {
            assert(c1 * s2 * s3 >= c2 * s1 * s3);
            assert(c2 * s3 * s1 >= c3 * s2 * s1);
            assert(c1 * s3 * s2 >= c3 * s1 * s2);
        }
    } else {
        // c2 > 0 and s2 == 0: the middle rate is unbounded, so the first one is too.
        assert(c2 * s1 == 0) by (nonlinear_arith)
            requires
                c1 * s2 >= c2 * s1,
                s2 == 0,
                c2 * s1 >= 0,
        ;
        assert(s1 == 0) by (nonlinear_arith)
            requires
                c2 * s1 == 0,
                c2 > 0,
        ;
        assert(c1 > 0);
        assert(c1 * s3 >= 0) by (nonlinear_arith)
            requires
                c1 > 0,
                s3 >= 0,
        ;
        assert(c3 * s1 == 0) by (nonlinear_arith)
            requires
                s1 == 0,
        ;
    }
}


/// The search state after looking at every window before `(bn, bi)`: `r` is the winner
/// `(wn, wi)` so far, or the empty result if none was eligible.
pub open spec fn state_ok(
    s: Seq<i64>,
    weights: Option<Seq<u64>>,
    min: int,
    max: int,
    bn: int,
    bi: int,
    found: bool,
    wn: int,
    wi: int,
    r: ComboWindow,
) -> bool {
    if found {
        wins_before(s, weights, min, max, bn, bi, wn, wi) && r == window_at(s, weights, wn, wi)
    } else {
        nothing_before(s, weights, min, max, bn, bi) && r == ComboWindow::spec_none()
    }
}

/// The weights, if any, line up with the notes and their total fits in a `u64`.
pub open spec fn weights_fit(s: Seq<i64>, weights: Option<Seq<u64>>) -> bool {
    match weights {
        None => true,
        Some(w) => w.len() == s.len() && weight_sum(w, 0, w.len() as int) <= u64::MAX,
    }
}

pub proof fn lemma_weight_sum_split(w: Seq<u64>, lo: int, mid: int, hi: int)
    requires
        lo <= mid <= hi,
    ensures
        weight_sum(w, lo, hi) == weight_sum(w, lo, mid) + weight_sum(w, mid, hi),
    decreases hi - mid,
{
    if hi > mid {
        lemma_weight_sum_split(w, lo, mid, hi - 1);
    }
}

pub proof fn lemma_weight_sum_nonneg(w: Seq<u64>, lo: int, hi: int)
    ensures
        weight_sum(w, lo, hi) >= 0,
    decreases hi - lo,
{
    if hi > lo {
        lemma_weight_sum_nonneg(w, lo, hi - 1);
    }
}

/// A window's weight sum is at most the total.
pub proof fn lemma_weight_sum_bound(w: Seq<u64>, lo: int, hi: int)
    requires
        0 <= lo <= hi <= w.len(),
    ensures
        0 <= weight_sum(w, lo, hi) <= weight_sum(w, 0, w.len() as int),
{
    lemma_weight_sum_split(w, 0, lo, w.len() as int);
    lemma_weight_sum_split(w, lo, hi, w.len() as int);
    lemma_weight_sum_nonneg(w, 0, lo);
    lemma_weight_sum_nonneg(w, lo, hi);
    lemma_weight_sum_nonneg(w, hi, w.len() as int);
}

pub proof fn lemma_count_nonneg(weights: Option<Seq<u64>>, n: int, i: int)
    requires
        n >= 0,
    ensures
        window_count(weights, n, i) >= 0,
{
    match weights {
        None => {},
        Some(w) => lemma_weight_sum_nonneg(w, i, i + n),
    }
}

/// The fields of a candidate window hold its count and span exactly.
pub proof fn lemma_window_fits(s: Seq<i64>, weights: Option<Seq<u64>>, n: int, i: int)
    requires
        weights_fit(s, weights),
        0 <= n,
        0 <= i,
        i + n < s.len(),
        s.len() <= usize::MAX,
    ensures
        0 <= window_count(weights, n, i) <= u64::MAX,
        window_span(s, n, i) >= 0 ==> window_span(s, n, i) <= u64::MAX,
{
    match weights {
        None => {},
        Some(w) => {
            lemma_weight_sum_bound(w, i, i + n);
        },
    }
}

/// One step of the search: window `(n, i)` is taken exactly when it is eligible and at
/// least as fast as the winner so far.
pub proof fn lemma_search_step(
    s: Seq<i64>,
    weights: Option<Seq<u64>>,
    min: int,
    max: int,
    n: int,
    i: int,
    found: bool,
    wn: int,
    wi: int,
    r: ComboWindow,
    take: bool,
)
    requires
        min >= 0,
        is_candidate(s.len() as int, min, max, n, i),
        state_ok(s, weights, min, max, n, i, found, wn, wi, r),
        take == (is_eligible(s, weights, n, i) && (found ==> window_rate_ge(
            s,
            weights,
            n,
            i,
            wn,
            wi,
        ))),
    ensures
        take ==> state_ok(s, weights, min, max, n, i + 1, true, n, i, window_at(s, weights, n, i)),
        !take ==> state_ok(s, weights, min, max, n, i + 1, found, wn, wi, r),
{
    assert forall|n2: int, i2: int|
        #[trigger] considered(s, weights, min, max, n, i + 1, n2, i2) <==> (considered(
            s,
            weights,
            min,
            max,
            n,
            i,
            n2,
            i2,
        ) || (n2 == n && i2 == i && is_eligible(s, weights, n, i))) by {}
    if take {
        lemma_count_nonneg(weights, n, i);
        if found {
            lemma_count_nonneg(weights, wn, wi);
        }
        assert forall|n2: int, i2: int|
            #[trigger] considered(s, weights, min, max, n, i + 1, n2, i2) implies {
                &&& window_rate_ge(s, weights, n, i, n2, i2)
                &&& (comes_before(n, i, n2, i2) ==> !window_rate_ge(s, weights, n2, i2, n, i))
            } by {
            if n2 == n && i2 == i {
            } else {
                assert(considered(s, weights, min, max, n, i, n2, i2));
                if found {
                    lemma_count_nonneg(weights, n2, i2);
                    assert(window_rate_ge(s, weights, wn, wi, n2, i2));
                    lemma_rate_ge_trans(
                        window_count(weights, n, i),
                        window_span(s, n, i),
                        window_count(weights, wn, wi),
                        window_span(s, wn, wi),
                        window_count(weights, n2, i2),
                        window_span(s, n2, i2),
                    );
                } else {
                    assert(!considered(s, weights, min, max, n, i, n2, i2));
                }
            }
        }
    } else {
        if found && is_eligible(s, weights, n, i) {
            lemma_rate_ge_total(
                window_count(weights, n, i),
                window_span(s, n, i),
                window_count(weights, wn, wi),
                window_span(s, wn, wi),
            );
            assert forall|n2: int, i2: int|
                #[trigger] considered(s, weights, min, max, n, i + 1, n2, i2) implies {
                    &&& window_rate_ge(s, weights, wn, wi, n2, i2)
                    &&& (comes_before(wn, wi, n2, i2) ==> !window_rate_ge(
                        s,
                        weights,
                        n2,
                        i2,
                        wn,
                        wi,
                    ))
                } by {
                if n2 == n && i2 == i {
                } else {
                    assert(considered(s, weights, min, max, n, i, n2, i2));
                }
            }
        } else if found {
            assert forall|n2: int, i2: int|
                #[trigger] considered(s, weights, min, max, n, i + 1, n2, i2) implies {
                    &&& window_rate_ge(s, weights, wn, wi, n2, i2)
                    &&& (comes_before(wn, wi, n2, i2) ==> !window_rate_ge(
                        s,
                        weights,
                        n2,
                        i2,
                        wn,
                        wi,
                    ))
                } by {
                assert(considered(s, weights, min, max, n, i, n2, i2));
            }
        } else {
            assert forall|n2: int, i2: int|
                !#[trigger] considered(s, weights, min, max, n, i + 1, n2, i2) by {
                assert(!considered(s, weights, min, max, n, i, n2, i2));
            }
        }
    }
}

/// Moving the bound from `(n1, i1)` to `(n2, i2)` keeps the state when no candidate lies
/// between them.
pub proof fn lemma_search_move(
    s: Seq<i64>,
    weights: Option<Seq<u64>>,
    min: int,
    max: int,
    n1: int,
    i1: int,
    n2: int,
    i2: int,
    found: bool,
    wn: int,
    wi: int,
    r: ComboWindow,
)
    requires
        state_ok(s, weights, min, max, n1, i1, found, wn, wi, r),
        forall|a: int, b: int|
            is_candidate(s.len() as int, min, max, a, b) ==> (comes_before(a, b, n1, i1)
                <==> comes_before(a, b, n2, i2)),
    ensures
        state_ok(s, weights, min, max, n2, i2, found, wn, wi, r),
{
    assert forall|a: int, b: int|
        #[trigger] considered(s, weights, min, max, n2, i2, a, b) <==> considered(
            s,
            weights,
            min,
            max,
            n1,
            i1,
            a,
            b,
        ) by {}
    if found {
        assert forall|a: int, b: int|
            #[trigger] considered(s, weights, min, max, n2, i2, a, b) implies {
                &&& window_rate_ge(s, weights, wn, wi, a, b)
                &&& (comes_before(wn, wi, a, b) ==> !window_rate_ge(s, weights, a, b, wn, wi))
            } by {
            assert(considered(s, weights, min, max, n1, i1, a, b));
        }
    } else {
        assert forall|a: int, b: int| !#[trigger] considered(s, weights, min, max, n2, i2, a, b) by {
            assert(!considered(s, weights, min, max, n1, i1, a, b));
        }
    }
}

/// The final state is the search's result.
pub proof fn lemma_search_done(
    s: Seq<i64>,
    weights: Option<Seq<u64>>,
    min: int,
    max: int,
    found: bool,
    wn: int,
    wi: int,
    r: ComboWindow,
)
    requires
        state_ok(s, weights, min, max, s.len() as int, 0, found, wn, wi, r),
    ensures
        is_fastest(s, weights, min, max, r),
{
    if found {
        assert(considered(s, weights, min, max, s.len() as int, 0, wn, wi));
    }
}

/// The span of a window as an exact rate denominator, when it does not run backwards.
fn span_between(start: i64, end: i64) -> (r: Option<u64>)
    ensures
        r == (if end >= start {
            Some((end - start) as u64)
        } else {
            None::<u64>
        }),
{
    if end >= start {
        let d: i128 = end as i128 - start as i128;
        Some(d as u64)
    } else {
        None
    }
}

/// Finds the fastest run of `min_num_notes..=max_num_notes` steps in the note times
/// `seconds` (microseconds). Rates are steps per span; among equal rates the later, longer
/// window wins.
pub fn find_fastest_note_subset(seconds: &[i64], min_num_notes: u64, max_num_notes: u64) -> (r:
    ComboWindow)
    ensures
        is_fastest(seconds@, None, min_num_notes as int, max_num_notes as int, r),
{
    let ghost s = seconds@;
    let ghost min = min_num_notes as int;
    let ghost max = max_num_notes as int;
    let mut fastest = ComboWindow::none();
    let len = seconds.len();
    if len as u64 <= min_num_notes {
        proof {
            lemma_search_move(s, None, min, max, 0, 0, len as int, 0, false, 0, 0, fastest);
            lemma_search_done(s, None, min, max, false, 0, 0, fastest);
        }
        return fastest;
    }
    let end_n: usize = if max_num_notes < len as u64 {
        max_num_notes as usize + 1
    } else {
        len
    };
    let ghost mut found = false;
    let ghost mut wn: int = 0;
    let ghost mut wi: int = 0;
    assert(min < len);
    let mut n: usize = min_num_notes as usize;
    assert(n == min);
    proof {
        lemma_search_move(s, None, min, max, 0, 0, n as int, 0, found, wn, wi, fastest);
    }
    while n < end_n
        invariant
            s == seconds@,
            len == s.len(),
            min == min_num_notes as int,
            max == max_num_notes as int,
            min <= n,
            n <= end_n || n == min,
            end_n <= len,
            end_n as int == (if max < len { max + 1 } else { len as int }),
            state_ok(s, None, min, max, n as int, 0, found, wn, wi, fastest),
        decreases end_n - n,
    {
        let mut i: usize = 0;
        while i + n < len
            invariant
                s == seconds@,
                len == s.len(),
                min == min_num_notes as int,
                max == max_num_notes as int,
                min <= n < end_n,
                end_n <= len,
                end_n as int == (if max < len { max + 1 } else { len as int }),
                i + n <= len,
                state_ok(s, None, min, max, n as int, i as int, found, wn, wi, fastest),
            decreases len - i,
        {
            let end_i = i + n;
            proof {
                lemma_window_fits(s, None, n as int, i as int);
            }
            let span = span_between(seconds[i], seconds[end_i]);
            let mut take = false;
            if let Some(d) = span {
                if n > 0 || d > 0 {
                    let speed = Speed { count: n as u64, span: d };
                    take = speed.at_least(&fastest.speed);
                }
            }
            proof {
                lemma_search_step(
                    s,
                    None,
                    min,
                    max,
                    n as int,
                    i as int,
                    found,
                    wn,
                    wi,
                    fastest,
                    take,
                );
            }
            if take {
                fastest = ComboWindow {
                    start_time: seconds[i],
                    end_time: seconds[end_i],
                    length: n as u64,
                    speed: Speed { count: n as u64, span: (seconds[end_i] as i128 - seconds[i] as i128) as u64 },
                };
                proof {
                    found = true;
                    wn = n as int;
                    wi = i as int;
                }
            }
            i += 1;
        }
        proof {
            lemma_search_move(s, None, min, max, n as int, i as int, n + 1, 0, found, wn, wi, fastest);
        }
        n += 1;
    }
    proof {
        lemma_search_move(s, None, min, max, n as int, 0, len as int, 0, found, wn, wi, fastest);
        lemma_search_done(s, None, min, max, found, wn, wi, fastest);
    }
    fastest
}


/// Like `find_fastest_note_subset`, but a window's rate counts the weights (`wife_pts`) of
/// its first `n` notes instead of its `n` steps. The window sum is kept up to date as the
/// window slides, not recomputed.
pub fn find_fastest_note_subset_wife_pts(
    seconds: &[i64],
    min_num_notes: u64,
    max_num_notes: u64,
    wife_pts: &[u64],
) -> (r: ComboWindow)
    requires
        weights_fit(seconds@, Some(wife_pts@)),
    ensures
        is_fastest(seconds@, Some(wife_pts@), min_num_notes as int, max_num_notes as int, r),
{
    let ghost s = seconds@;
    let ghost w = Some(wife_pts@);
    let ghost ws = wife_pts@;
    let ghost min = min_num_notes as int;
    let ghost max = max_num_notes as int;
    let mut fastest = ComboWindow::none();
    let len = seconds.len();
    if len as u64 <= min_num_notes {
        proof {
            lemma_search_move(s, w, min, max, 0, 0, len as int, 0, false, 0, 0, fastest);
            lemma_search_done(s, w, min, max, false, 0, 0, fastest);
        }
        return fastest;
    }
    assert(min < len);
    let mut sum_start: u64 = 0;
    let mut k: usize = 0;
    while k < min_num_notes as usize
        invariant
            ws == wife_pts@,
            w == Some(ws),
            ws.len() == len,
            weights_fit(s, w),
            s == seconds@,
            len == s.len(),
            min < len,
            k <= min,
            min == min_num_notes as int,
            sum_start == weight_sum(ws, 0, k as int),
        decreases min - k,
    {
        proof {
            lemma_weight_sum_bound(ws, 0, k + 1);
        }
        sum_start = sum_start + wife_pts[k];
        k += 1;
    }
    let end_n: usize = if max_num_notes < len as u64 {
        max_num_notes as usize + 1
    } else {
        len
    };
    let ghost mut found = false;
    let ghost mut wn: int = 0;
    let ghost mut wi: int = 0;
    let mut n: usize = min_num_notes as usize;
    assert(n == min);
    proof {
        lemma_search_move(s, w, min, max, 0, 0, n as int, 0, found, wn, wi, fastest);
    }
    while n < end_n
        invariant
            ws == wife_pts@,
            w == Some(ws),
            weights_fit(s, w),
            s == seconds@,
            len == s.len(),
            min == min_num_notes as int,
            max == max_num_notes as int,
            min <= n,
            n <= end_n || n == min,
            end_n <= len,
            end_n as int == (if max < len { max + 1 } else { len as int }),
            sum_start == weight_sum(ws, 0, n as int),
            state_ok(s, w, min, max, n as int, 0, found, wn, wi, fastest),
        decreases end_n - n,
    {
        let mut wsum: u64 = sum_start;
        let mut i: usize = 0;
        while i + n < len
            invariant
                ws == wife_pts@,
                w == Some(ws),
                weights_fit(s, w),
                s == seconds@,
                len == s.len(),
                min == min_num_notes as int,
                max == max_num_notes as int,
                min <= n < end_n,
                end_n <= len,
                end_n as int == (if max < len { max + 1 } else { len as int }),
                i + n <= len,
                sum_start == weight_sum(ws, 0, n as int),
                i + n < len ==> wsum == weight_sum(ws, i as int, i + n),
                state_ok(s, w, min, max, n as int, i as int, found, wn, wi, fastest),
            decreases len - i,
        {
            let end_i = i + n;
            proof {
                lemma_window_fits(s, w, n as int, i as int);
                if found {
                    lemma_window_fits(s, w, wn, wi);
                }
            }
            let span = span_between(seconds[i], seconds[end_i]);
            let mut take = false;
            if let Some(d) = span {
                if wsum > 0 || d > 0 {
                    let speed = Speed { count: wsum, span: d };
                    take = speed.at_least(&fastest.speed);
                }
            }
            proof {
                lemma_search_step(s, w, min, max, n as int, i as int, found, wn, wi, fastest, take);
            }
            if take {
                fastest = ComboWindow {
                    start_time: seconds[i],
                    end_time: seconds[end_i],
                    length: n as u64,
                    speed: Speed {
                        count: wsum,
                        span: (seconds[end_i] as i128 - seconds[i] as i128) as u64,
                    },
                };
                proof {
                    found = true;
                    wn = n as int;
                    wi = i as int;
                }
            }
            proof {
                lemma_weight_sum_bound(ws, i as int, end_i + 1);
                lemma_weight_sum_split(ws, i as int, i + 1, end_i + 1);
                lemma_weight_sum_nonneg(ws, i + 1, end_i + 1);
                assert(weight_sum(ws, i as int, i as int) == 0);
                assert(weight_sum(ws, i as int, i + 1) == ws[i as int]);
                assert(weight_sum(ws, i as int, end_i + 1) == wsum + ws[end_i as int]);
            }
            wsum = wsum + wife_pts[end_i];
            wsum = wsum - wife_pts[i];
            i += 1;
        }
        proof {
            lemma_search_move(s, w, min, max, n as int, i as int, n + 1, 0, found, wn, wi, fastest);
            lemma_weight_sum_bound(ws, 0, n + 1);
        }
        sum_start = sum_start + wife_pts[n];
        n += 1;
    }
    proof {
        lemma_search_move(s, w, min, max, n as int, 0, len as int, 0, found, wn, wi, fastest);
        lemma_search_done(s, w, min, max, found, wn, wi, fastest);
    }
    fastest
}


/// The fastest window is unique: two results that both meet `is_fastest` are equal.
pub proof fn lemma_fastest_unique(
    s: Seq<i64>,
    weights: Option<Seq<u64>>,
    min: int,
    max: int,
    r1: ComboWindow,
    r2: ComboWindow,
)
    requires
        is_fastest(s, weights, min, max, r1),
        is_fastest(s, weights, min, max, r2),
    ensures
        r1 == r2,
{
    let end = s.len() as int;
    if !nothing_before(s, weights, min, max, end, 0) {
        let (n1, i1) = choose|n: int, i: int|
            wins_before(s, weights, min, max, end, 0, n, i) && r1 == window_at(s, weights, n, i);
        let (n2, i2) = choose|n: int, i: int|
            wins_before(s, weights, min, max, end, 0, n, i) && r2 == window_at(s, weights, n, i);
        assert(considered(s, weights, min, max, end, 0, n1, i1));
        assert(considered(s, weights, min, max, end, 0, n2, i2));
        assert(n1 == n2 && i1 == i2);
    }
}

proof fn lemma_unit_weight_sum(w: Seq<u64>, lo: int, hi: int)
    requires
        0 <= lo <= hi <= w.len(),
        forall|k: int| 0 <= k < w.len() ==> w[k] == 1,
    ensures
        weight_sum(w, lo, hi) == hi - lo,
    decreases hi - lo,
{
    if hi > lo {
        lemma_unit_weight_sum(w, lo, hi - 1);
    }
}

/// With every weight equal to one, the weighted search finds exactly the window that the
/// unweighted search finds, with the same speed.
pub proof fn law_unit_weights_agree(seconds: Seq<i64>, min: int, max: int, ones: Seq<u64>)
    requires
        0 <= min,
        ones.len() == seconds.len(),
        forall|k: int| 0 <= k < ones.len() ==> ones[k] == 1,
    ensures
        forall|r1: ComboWindow, r2: ComboWindow|
            is_fastest(seconds, None, min, max, r1) && is_fastest(seconds, Some(ones), min, max, r2)
                ==> r1 == r2,
{
    let s = seconds;
    let w = Some(ones);
    let end = s.len() as int;
    assert forall|n: int, i: int| is_candidate(end, min, max, n, i) && n >= 0 implies window_count(
        w,
        n,
        i,
    ) == window_count(None, n, i) by {
        lemma_unit_weight_sum(ones, i, i + n);
    }
    assert forall|r1: ComboWindow, r2: ComboWindow|
        is_fastest(s, None, min, max, r1) && is_fastest(s, w, min, max, r2) implies r1 == r2 by {
        assert forall|n: int, i: int| #[trigger]
            considered(s, w, min, max, end, 0, n, i) <==> considered(
                s,
                None,
                min,
                max,
                end,
                0,
                n,
                i,
            ) by {
            if is_candidate(end, min, max, n, i) {
                lemma_unit_weight_sum(ones, i, i + n);
            }
        }
        if nothing_before(s, w, min, max, end, 0) {
            assert forall|n: int, i: int| !#[trigger] considered(s, None, min, max, end, 0, n, i) by {
                assert(!considered(s, w, min, max, end, 0, n, i));
            }
        } else {
            let (n, i) = choose|n: int, i: int|
                wins_before(s, w, min, max, end, 0, n, i) && r2 == window_at(s, w, n, i);
            assert(considered(s, w, min, max, end, 0, n, i));
            assert forall|n2: int, i2: int| #[trigger]
                considered(s, None, min, max, end, 0, n2, i2) implies {
                    &&& window_rate_ge(s, None, n, i, n2, i2)
                    &&& (comes_before(n, i, n2, i2) ==> !window_rate_ge(s, None, n2, i2, n, i))
                } by {
                assert(considered(s, w, min, max, end, 0, n2, i2));
                lemma_unit_weight_sum(ones, i, i + n);
                lemma_unit_weight_sum(ones, i2, i2 + n2);
            }
            lemma_unit_weight_sum(ones, i, i + n);
            assert(wins_before(s, None, min, max, end, 0, n, i));
            assert(r2 == window_at(s, None, n, i));
        }
        lemma_fastest_unique(s, None, min, max, r1, r2);
    }
}


/// The result of the search on `s`.
pub open spec fn fastest_of(s: Seq<i64>, weights: Option<Seq<u64>>, min: int, max: int) -> ComboWindow {
    choose|r: ComboWindow| is_fastest(s, weights, min, max, r)
}

pub open spec fn sub_weights(weights: Option<Seq<u64>>, a: int, b: int) -> Option<Seq<u64>> {
    match weights {
        None => None,
        Some(w) => Some(w.subrange(a, b)),
    }
}

/// The fastest window inside the combo of notes `a..b`.
pub open spec fn segment_best(
    s: Seq<i64>,
    weights: Option<Seq<u64>>,
    min: int,
    max: int,
    a: int,
    b: int,
) -> ComboWindow {
    fastest_of(s.subrange(a, b), sub_weights(weights, a, b), min, max)
}

/// `x` replaces `acc` only when it is strictly faster.
pub open spec fn strictly_faster(x: ComboWindow, acc: ComboWindow) -> ComboWindow {
    if !acc.speed.spec_at_least(x.speed) {
        x
    } else {
        acc
    }
}

/// Scans the notes from `k`, where the current combo began at `start`: every combo
/// breaker ends a combo (and belongs to none), as does the end of the notes. The best
/// window of each combo is kept when strictly faster than the best so far.
pub open spec fn combo_scan(
    s: Seq<i64>,
    cbs: Seq<bool>,
    weights: Option<Seq<u64>>,
    min: int,
    max: int,
    k: int,
    start: int,
    acc: ComboWindow,
) -> ComboWindow
    decreases s.len() - k,
{
    if k >= s.len() {
        strictly_faster(segment_best(s, weights, min, max, start, s.len() as int), acc)
    } else if cbs[k] {
        combo_scan(
            s,
            cbs,
            weights,
            min,
            max,
            k + 1,
            k + 1,
            strictly_faster(segment_best(s, weights, min, max, start, k), acc),
        )
    } else {
        combo_scan(s, cbs, weights, min, max, k + 1, start, acc)
    }
}

/// The fastest window of any combo in `s`, as `combo_scan` finds it from the start.
pub open spec fn fastest_combo(
    s: Seq<i64>,
    cbs: Seq<bool>,
    weights: Option<Seq<u64>>,
    min: int,
    max: int,
) -> ComboWindow {
    combo_scan(s, cbs, weights, min, max, 0, 0, ComboWindow::spec_none())
}

proof fn lemma_weight_sum_subrange(w: Seq<u64>, a: int, b: int, lo: int, hi: int)
    requires
        0 <= a <= b <= w.len(),
        0 <= lo <= hi <= b - a,
    ensures
        weight_sum(w.subrange(a, b), lo, hi) == weight_sum(w, a + lo, a + hi),
    decreases hi - lo,
{
    if hi > lo {
        lemma_weight_sum_subrange(w, a, b, lo, hi - 1);
    }
}

pub open spec fn weights_view(wife_pts: Option<&[u64]>) -> Option<Seq<u64>> {
    match wife_pts {
        None => None,
        Some(w) => Some(w@),
    }
}

/// The search on the combo `a..b`, whose result is `segment_best`.
fn search_segment(
    seconds: &[i64],
    a: usize,
    b: usize,
    min_num_notes: u64,
    max_num_notes: u64,
    wife_pts: Option<&[u64]>,
) -> (r: ComboWindow)
    requires
        a <= b <= seconds@.len(),
        weights_fit(seconds@, weights_view(wife_pts)),
    ensures
        r == segment_best(
            seconds@,
            weights_view(wife_pts),
            min_num_notes as int,
            max_num_notes as int,
            a as int,
            b as int,
        ),
{
    let ghost ws = weights_view(wife_pts);
    let combo = vstd::slice::slice_subrange(seconds, a, b);
    let r = match wife_pts {
        None => find_fastest_note_subset(combo, min_num_notes, max_num_notes),
        Some(w) => {
            let part = vstd::slice::slice_subrange(w, a, b);
            proof {
                lemma_weight_sum_subrange(w@, a as int, b as int, 0, b - a);
                lemma_weight_sum_bound(w@, a as int, b as int);
            }
            find_fastest_note_subset_wife_pts(combo, min_num_notes, max_num_notes, part)
        },
    };
    proof {
        let sw = sub_weights(ws, a as int, b as int);
        assert(is_fastest(combo@, sw, min_num_notes as int, max_num_notes as int, r));
        lemma_fastest_unique(
            combo@,
            sw,
            min_num_notes as int,
            max_num_notes as int,
            r,
            fastest_of(combo@, sw, min_num_notes as int, max_num_notes as int),
        );
    }
    r
}

/// The fastest window within any combo of the note times `seconds`, where `are_cbs` marks
/// the combo breakers. With `wife_pts` the windows are rated by their weights. The result is
/// not scaled by the playback rate.
pub fn find_fastest_combo_in_score(
    seconds: &[i64],
    are_cbs: &[bool],
    min_num_notes: u64,
    max_num_notes: u64,
    wife_pts: Option<&[u64]>,
) -> (r: ComboWindow)
    requires
        are_cbs@.len() == seconds@.len(),
        weights_fit(seconds@, weights_view(wife_pts)),
    ensures
        r == fastest_combo(
            seconds@,
            are_cbs@,
            weights_view(wife_pts),
            min_num_notes as int,
            max_num_notes as int,
        ),
{
    let ghost ws = weights_view(wife_pts);
    let ghost min = min_num_notes as int;
    let ghost max = max_num_notes as int;
    let len = seconds.len();
    let mut fastest = ComboWindow::none();
    let mut start: usize = 0;
    let mut k: usize = 0;
    while k < len
        invariant
            len == seconds@.len(),
            are_cbs@.len() == len,
            ws == weights_view(wife_pts),
            min == min_num_notes as int,
            max == max_num_notes as int,
            weights_fit(seconds@, ws),
            start <= k <= len,
            combo_scan(seconds@, are_cbs@, ws, min, max, k as int, start as int, fastest)
                == fastest_combo(seconds@, are_cbs@, ws, min, max),
        decreases len - k,
    {
        let ghost old_start = start as int;
        let ghost old_fastest = fastest;
        if are_cbs[k] {
            let x = search_segment(seconds, start, k, min_num_notes, max_num_notes, wife_pts);
            if !fastest.speed.at_least(&x.speed) {
                fastest = x;
            }
            start = k + 1;
            assert(fastest == strictly_faster(
                segment_best(seconds@, ws, min, max, old_start, k as int),
                old_fastest,
            ));
        }
        assert(combo_scan(seconds@, are_cbs@, ws, min, max, k as int, old_start, old_fastest)
            == combo_scan(seconds@, are_cbs@, ws, min, max, k + 1, start as int, fastest));
        k += 1;
    }
    let x = search_segment(seconds, start, len, min_num_notes, max_num_notes, wife_pts);
    if !fastest.speed.at_least(&x.speed) {
        fastest = x;
    }
    fastest
}

} // verus!
