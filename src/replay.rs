use vstd::prelude::*;

verus! {

pub open spec fn is_digit(c: u8) -> bool {
    48 <= c <= 57
}

pub open spec fn all_digits(s: Seq<u8>) -> bool {
    forall|k: int| 0 <= k < s.len() ==> is_digit(#[trigger] s[k])
}

/// The number that a run of ASCII digits writes in base ten.
pub open spec fn digits_value(s: Seq<u8>) -> int
    decreases s.len(),
{
    if s.len() == 0 {
        0
    } else {
        digits_value(s.drop_last()) * 10 + (s.last() - 48)
    }
}

/// A non-empty run of digits whose value fits in a `u64`.
pub open spec fn is_u64_decimal(s: Seq<u8>) -> bool {
    s.len() > 0 && all_digits(s) && digits_value(s) <= u64::MAX
}

/// Relies on btoi::btou: it reads a non-empty run of ASCII digits in base ten, and fails on
/// an empty input, any other byte, or a value beyond `u64`.
#[verifier::external_body]
pub(crate) fn parse_decimal(b: &[u8]) -> (r: Option<u64>)
    ensures
        r == (if is_u64_decimal(b@) {
            Some(digits_value(b@) as u64)
        } else {
            None::<u64>
        }),
{
    btoi::btou::<u64>(b).ok()
}

/// The microseconds written by the digits after a decimal point: the first six, padded
/// with zeros, rounded half away from zero by the seventh.
pub open spec fn fraction_micros(f: Seq<u8>) -> int {
    let m = if f.len() < 6 {
        f.len() as int
    } else {
        6
    };
    digits_value(f.subrange(0, m)) * pow10((6 - m) as nat) + if f.len() > 6 && f[6] >= 53u8 {
        1int
    } else {
        0
    }
}

/// `<digits>` or `<digits>.<digits>` read as a number of microseconds.
pub open spec fn unsigned_micros(t: Seq<u8>) -> Option<int> {
    let n = t.len() as int;
    let p = next_byte(t, 0, 46u8);
    let whole = t.subrange(0, p);
    let frac = if p < n {
        t.subrange(p + 1, n)
    } else {
        Seq::<u8>::empty()
    };
    if is_u64_decimal(whole) && all_digits(frac) && (p < n ==> frac.len() > 0) {
        Some(digits_value(whole) * 1_000_000 + fraction_micros(frac))
    } else {
        None
    }
}

/// A time offset in seconds, a decimal number with an optional sign, as microseconds;
/// `None` if malformed or beyond `i64`.
pub open spec fn deviation_micros(t: Seq<u8>) -> Option<int> {
    let negative = t.len() > 0 && t[0] == 45u8;
    let body = if t.len() > 0 && (t[0] == 45u8 || t[0] == 43u8) {
        t.subrange(1, t.len() as int)
    } else {
        t
    };
    match unsigned_micros(body) {
        Some(v) => if v <= i64::MAX {
            Some(
                if negative {
                    -v
                } else {
                    v
                },
            )
        } else {
            None
        },
        None => None,
    }
}

proof fn lemma_digits_value_bound(s: Seq<u8>)
    requires
        all_digits(s),
    ensures
        0 <= digits_value(s) < pow10(s.len()),
    decreases s.len(),
{
    if s.len() > 0 {
        assert(all_digits(s.drop_last())) by {
            assert forall|k: int| 0 <= k < s.drop_last().len() implies is_digit(
                #[trigger] s.drop_last()[k],
            ) by {
                assert(s.drop_last()[k] == s[k]);
            }
        }
        lemma_digits_value_bound(s.drop_last());
        assert(is_digit(s[s.len() - 1]));
    }
}

proof fn lemma_pow10_six()
    ensures
        pow10(6) == 1_000_000,
{
    reveal_with_fuel(pow10, 7);
}

pub open spec fn pow10(k: nat) -> int
    decreases k,
{
    if k == 0 {
        1
    } else {
        10 * pow10((k - 1) as nat)
    }
}

fn all_digit_bytes(s: &[u8]) -> (r: bool)
    ensures
        r == all_digits(s@),
{
    let mut k: usize = 0;
    while k < s.len()
        invariant
            k <= s@.len(),
            forall|j: int| 0 <= j < k ==> is_digit(#[trigger] s@[j]),
        decreases s@.len() - k,
    {
        if s[k] < 48u8 || s[k] > 57u8 {
            assert(!is_digit(s@[k as int]));
            return false;
        }
        k += 1;
    }
    true
}

fn scale_to_micros(m: usize) -> (r: u64)
    requires
        m <= 6,
    ensures
        r == pow10((6 - m) as nat),
        r <= 1_000_000,
{
    proof {
        reveal_with_fuel(pow10, 7);
    }
    if m == 0 {
        1_000_000
    } else if m == 1 {
        100_000
    } else if m == 2 {
        10_000
    } else if m == 3 {
        1_000
    } else if m == 4 {
        100
    } else if m == 5 {
        10
    } else {
        1
    }
}

/// Parses a deviation field: an optional sign, digits, and optionally a dot and more
/// digits, read as microseconds.
pub fn parse_deviation(t: &[u8]) -> (r: Option<i64>)
    ensures
        r == (match deviation_micros(t@) {
            Some(v) => Some(v as i64),
            None => None::<i64>,
        }),
{
    let len = t.len();
    let negative = len > 0 && t[0] == 45u8;
    let from: usize = if len > 0 && (t[0] == 45u8 || t[0] == 43u8) {
        1
    } else {
        0
    };
    let body = vstd::slice::slice_subrange(t, from, len);
    let ghost b = body@;
    assert(b == (if t@.len() > 0 && (t@[0] == 45u8 || t@[0] == 43u8) {
        t@.subrange(1, t@.len() as int)
    } else {
        t@
    }));
    let n = body.len();
    let p = find_byte(body, 0, 46u8);
    let whole_bytes = vstd::slice::slice_subrange(body, 0, p);
    let whole = parse_decimal(whole_bytes);
    let frac = if p < n {
        vstd::slice::slice_subrange(body, p + 1, n)
    } else {
        vstd::slice::slice_subrange(body, n, n)
    };
    let ghost fs = if p < n {
        b.subrange(p + 1, n as int)
    } else {
        Seq::<u8>::empty()
    };
    assert(frac@ == fs);
    if p < n && frac.len() == 0 {
        return None;
    }
    if !all_digit_bytes(frac) {
        return None;
    }
    let w = match whole {
        Some(w) => w,
        None => {
            return None;
        },
    };
    let m: usize = if frac.len() < 6 {
        frac.len()
    } else {
        6
    };
    let head = vstd::slice::slice_subrange(frac, 0, m);
    proof {
        assert forall|j: int| 0 <= j < head@.len() implies is_digit(#[trigger] head@[j]) by {
            assert(head@[j] == fs[j]);
        }
        lemma_digits_value_bound(head@);
        lemma_digits_value_bound(whole_bytes@);
        assert(pow10(head@.len()) <= 1_000_000) by {
            reveal_with_fuel(pow10, 7);
        }
    }
    let head_value: u64 = if m == 0 {
        0
    } else {
        match parse_decimal(head) {
            Some(h) => h,
            None => {
                return None;
            },
        }
    };
    let round_up: u128 = if frac.len() > 6 && frac[6] >= 53u8 {
        1
    } else {
        0
    };
    let scale = scale_to_micros(m);
    proof {
        assert(head_value as int * scale as int <= 1_000_000 * 1_000_000) by (nonlinear_arith)
            requires
                head_value <= 1_000_000,
                scale <= 1_000_000,
        ;
        assert(unsigned_micros(b) == Some(
            w as int * 1_000_000 + head_value as int * scale as int + round_up as int,
        ));
    }
    let v: u128 = (w as u128) * 1_000_000u128 + (head_value as u128) * (scale as u128) + round_up;
    if v > i64::MAX as u128 {
        None
    } else if negative {
        Some(-(v as i64))
    } else {
        Some(v as i64)
    }
}

/// What one line of a replay records.
#[derive(Clone, Copy, Debug, PartialEq, Eq, Structural)]
pub enum LineKind {
    /// A tap or a hold head: its tick, its deviation in microseconds and its column.
    Note { tick: u64, deviation: i64, column: u8 },
    MineHit,
    HoldDrop,
    /// Empty, malformed, or a note type that is not counted.
    Skipped,
}

/// The first index at or after `from` that holds `c`, or the length.
pub open spec fn next_byte(s: Seq<u8>, from: int, c: u8) -> int
    decreases s.len() - from,
{
    if from >= s.len() {
        s.len() as int
    } else if s[from] == c {
        from
    } else {
        next_byte(s, from + 1, c)
    }
}

/// A line is `H` (a dropped hold) or `<tick> <deviation> <column>[ <note type>]`, fields
/// separated by single spaces. Note types 1 and 2 (taps and hold heads) are notes, 4 is a
/// mine hit; others, and lines whose fields do not parse, count for nothing.
pub open spec fn line_kind(line: Seq<u8>) -> LineKind {
    let len = line.len() as int;
    if len == 0 {
        LineKind::Skipped
    } else if line[0] == 72u8 {
        LineKind::HoldDrop
    } else {
        let p1 = next_byte(line, 0, 32u8);
        let p2 = next_byte(line, p1 + 1, 32u8);
        if p1 >= len || p2 >= len {
            LineKind::Skipped
        } else {
            let tick = line.subrange(0, p1);
            let deviation = deviation_micros(line.subrange(p1 + 1, p2));
            let rest = line.subrange(p2 + 1, len);
            if !is_u64_decimal(tick) || deviation is None || rest.len() == 0 || !is_digit(rest[0]) {
                LineKind::Skipped
            } else {
                let note_type = if rest.len() >= 3 {
                    rest[2]
                } else {
                    49u8
                };
                if note_type == 49u8 || note_type == 50u8 {
                    LineKind::Note {
                        tick: digits_value(tick) as u64,
                        deviation: deviation->Some_0 as i64,
                        column: (rest[0] - 48) as u8,
                    }
                } else if note_type == 52u8 {
                    LineKind::MineHit
                } else {
                    LineKind::Skipped
                }
            }
        }
    }
}

/// The kinds of the lines of `b` from index `i`, lines ending at each newline.
pub open spec fn line_kinds(b: Seq<u8>, i: int) -> Seq<LineKind>
    decreases b.len() + 1 - i,
{
    if i >= b.len() || i < 0 {
        Seq::empty()
    } else {
        let e = next_byte(b, i, 10u8);
        if e < i || e > b.len() {
            Seq::empty()
        } else {
            seq![line_kind(b.subrange(i, e))] + line_kinds(b, e + 1)
        }
    }
}

pub open spec fn note_ticks(ks: Seq<LineKind>) -> Seq<u64>
    decreases ks.len(),
{
    if ks.len() == 0 {
        Seq::empty()
    } else {
        match ks.last() {
            LineKind::Note { tick, .. } => note_ticks(ks.drop_last()).push(tick),
            _ => note_ticks(ks.drop_last()),
        }
    }
}

pub open spec fn note_deviations(ks: Seq<LineKind>) -> Seq<i64>
    decreases ks.len(),
{
    if ks.len() == 0 {
        Seq::empty()
    } else {
        match ks.last() {
            LineKind::Note { deviation, .. } => note_deviations(ks.drop_last()).push(deviation),
            _ => note_deviations(ks.drop_last()),
        }
    }
}

pub open spec fn note_columns(ks: Seq<LineKind>) -> Seq<u8>
    decreases ks.len(),
{
    if ks.len() == 0 {
        Seq::empty()
    } else {
        match ks.last() {
            LineKind::Note { column, .. } => note_columns(ks.drop_last()).push(column),
            _ => note_columns(ks.drop_last()),
        }
    }
}

pub open spec fn count_kind(ks: Seq<LineKind>, k: LineKind) -> int
    decreases ks.len(),
{
    if ks.len() == 0 {
        0
    } else {
        count_kind(ks.drop_last(), k) + if ks.last() == k {
            1int
        } else {
            0
        }
    }
}

/// A parsed replay: the notes in the order they were hit, and the counters.
pub struct ReplayData {
    pub ticks: Vec<u64>,
    pub deviations: Vec<i64>,
    pub columns: Vec<u8>,
    pub num_mine_hits: u64,
    pub num_hold_drops: u64,
}

impl ReplayData {
    /// The three note sequences line up.
    pub open spec fn wf(&self) -> bool {
        self.ticks@.len() == self.deviations@.len() && self.ticks@.len() == self.columns@.len()
    }

    /// `self` holds exactly what the lines `ks` record.
    pub open spec fn records(&self, ks: Seq<LineKind>) -> bool {
        &&& self.ticks@ == note_ticks(ks)
        &&& self.deviations@ == note_deviations(ks)
        &&& self.columns@ == note_columns(ks)
        &&& self.num_mine_hits == count_kind(ks, LineKind::MineHit)
        &&& self.num_hold_drops == count_kind(ks, LineKind::HoldDrop)
    }
}

fn find_byte(s: &[u8], from: usize, c: u8) -> (r: usize)
    requires
        from <= s@.len(),
    ensures
        r as int == next_byte(s@, from as int, c),
        from <= r <= s@.len(),
{
    let mut j = from;
    while j < s.len() && s[j] != c
        invariant
            from <= j <= s@.len(),
            next_byte(s@, j as int, c) == next_byte(s@, from as int, c),
        decreases s@.len() - j,
    {
        j += 1;
    }
    j
}

/// Classifies one line of a replay.
pub fn parse_line(line: &[u8]) -> (r: LineKind)
    ensures
        r == line_kind(line@),
{
    let len = line.len();
    if len == 0 {
        return LineKind::Skipped;
    }
    if line[0] == 72u8 {
        return LineKind::HoldDrop;
    }
    let p1 = find_byte(line, 0, 32u8);
    if p1 >= len {
        return LineKind::Skipped;
    }
    let p2 = find_byte(line, p1 + 1, 32u8);
    if p2 >= len {
        return LineKind::Skipped;
    }
    let tick = parse_decimal(vstd::slice::slice_subrange(line, 0, p1));
    let deviation = parse_deviation(vstd::slice::slice_subrange(line, p1 + 1, p2));
    let rest = vstd::slice::slice_subrange(line, p2 + 1, len);
    if rest.len() == 0 || rest[0] < 48u8 || rest[0] > 57u8 {
        return LineKind::Skipped;
    }
    match (tick, deviation) {
        (Some(tick), Some(deviation)) => {
            let note_type = if rest.len() >= 3 {
                rest[2]
            } else {
                49u8
            };
            if note_type == 49u8 || note_type == 50u8 {
                LineKind::Note { tick, deviation, column: rest[0] - 48 }
            } else if note_type == 52u8 {
                LineKind::MineHit
            } else {
                LineKind::Skipped
            }
        },
        _ => LineKind::Skipped,
    }
}

/// Parses a replay: one record per line, newline-separated. Lines that do not parse are
/// skipped; parsing as a whole never fails.
pub fn parse_replay(bytes: &[u8]) -> (r: ReplayData)
    ensures
        r.wf(),
        r.records(line_kinds(bytes@, 0)),
{
    let ghost b = bytes@;
    let len = bytes.len();
    let mut data = ReplayData {
        ticks: Vec::new(),
        deviations: Vec::new(),
        columns: Vec::new(),
        num_mine_hits: 0,
        num_hold_drops: 0,
    };
    let ghost mut done: Seq<LineKind> = Seq::empty();
    let mut i: usize = 0;
    while i < len
        invariant
            b == bytes@,
            len == b.len(),
            i <= len,
            line_kinds(b, 0) == done + line_kinds(b, i as int),
            data.wf(),
            data.records(done),
            done.len() <= i,
        decreases len - i,
    {
        let e = find_byte(bytes, i, 10u8);
        let kind = parse_line(vstd::slice::slice_subrange(bytes, i, e));
        proof {
            assert(line_kinds(b, i as int) == seq![kind] + line_kinds(b, e + 1));
            assert(done + line_kinds(b, i as int) == done.push(kind) + line_kinds(b, e + 1));
            assert(done.push(kind).drop_last() == done);
            lemma_count_kind_le(done, LineKind::MineHit);
            lemma_count_kind_le(done, LineKind::HoldDrop);
        }
        match kind {
            LineKind::Note { tick, deviation, column } => {
                data.ticks.push(tick);
                data.deviations.push(deviation);
                data.columns.push(column);
            },
            LineKind::MineHit => {
                data.num_mine_hits = data.num_mine_hits + 1;
            },
            LineKind::HoldDrop => {
                data.num_hold_drops = data.num_hold_drops + 1;
            },
            LineKind::Skipped => {},
        }
        proof {
            done = done.push(kind);
        }
        if e >= len {
            i = len;
            proof {
                assert(line_kinds(b, len as int) == Seq::<LineKind>::empty());
            }
        } else {
            i = e + 1;
        }
    }
    proof {
        assert(done + line_kinds(b, i as int) == done);
    }
    data
}

proof fn lemma_count_kind_le(ks: Seq<LineKind>, k: LineKind)
    ensures
        0 <= count_kind(ks, k) <= ks.len(),
    decreases ks.len(),
{
    if ks.len() > 0 {
        lemma_count_kind_le(ks.drop_last(), k);
    }
}

} // verus!
