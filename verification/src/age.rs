//! How old the ground is: the repository's own history as a table from growth
//! index to time.
use vstd::prelude::*;

use vstd::arithmetic::div_mod::{lemma_div_is_ordered, lemma_fundamental_div_mod_converse};

use crate::folds::{filter_none, filter_step, take_all};
use crate::time::WallTime;

verus! {

/// A year, in milliseconds.
pub const YEAR_MS: i64 = 31_556_952_000;

/// A day, in milliseconds.
pub const DAY_MS: i64 = 86_400_000;

/// The steps that the ramp has, from the oldest ground to the newest.
pub const RAMP_STEPS: u32 = 4_096;

/// Where the ground lies of a repository without history: in the middle.
pub const NO_HISTORY_STEP: u32 = 2_048;

/// How a repository's history is spread over the ramp.
#[derive(Debug, Clone, Copy, PartialEq, Eq, Structural)]
pub enum AgeRampKind {
    /// All files are the same age: no gradient.
    Uniform,
    /// Less than a year of history: a gradient of its own.
    Relative,
    /// A year or more: the first year is the old town.
    Calibrated,
}

impl AgeRampKind {
    /// The kind's name.
    pub fn label(self) -> (r: &'static str)
        ensures
            r@ == match self {
                AgeRampKind::Uniform => "uniform"@,
                AgeRampKind::Relative => "relative"@,
                AgeRampKind::Calibrated => "calibrated"@,
            },
    {
        match self {
            AgeRampKind::Uniform => "uniform",
            AgeRampKind::Relative => "relative",
            AgeRampKind::Calibrated => "calibrated",
        }
    }
}

/// The repository's history: a time for every growth index that a file has, none
/// before the one ahead of it.
#[derive(Debug)]
pub struct AgeRamp {
    /// The growth indices, ascending.
    pub keys: Vec<u32>,
    /// The time of each, in milliseconds.
    pub times: Vec<i64>,
    /// How the history is spread.
    pub kind: AgeRampKind,
    /// From the first time to the last, in milliseconds.
    pub span_ms: i64,
    /// The first time.
    pub first: WallTime,
    /// The last time.
    pub last: WallTime,
    /// How many of the times lie in the first year.
    pub old_town: usize,
}

/// The earliest time given for a growth index among the first `n` entries.
pub open spec fn earliest_at(entries: Seq<(u32, WallTime)>, key: u32, n: nat) -> Option<int>
    decreases n,
{
    if n == 0 || n > entries.len() {
        None
    } else {
        let before = earliest_at(entries, key, (n - 1) as nat);
        let here = entries[n - 1].1.millis as int;
        if entries[n - 1].0 != key || key == u32::MAX {
            before
        } else {
            match before {
                Some(t) => Some(
                    if here < t {
                        here
                    } else {
                        t
                    },
                ),
                None => Some(here),
            }
        }
    }
}

/// The earliest time given for a growth index.
pub open spec fn added_at(entries: Seq<(u32, WallTime)>, key: u32) -> Option<int> {
    earliest_at(entries, key, entries.len())
}

/// Do the keys ascend?
pub open spec fn ascending_keys(keys: Seq<u32>) -> bool {
    forall|i: int, j: int| 0 <= i < j < keys.len() ==> #[trigger] keys[i] < #[trigger] keys[j]
}

/// Are the keys the growth indices that a time is given for, in order?
pub open spec fn keys_of_history(entries: Seq<(u32, WallTime)>, keys: Seq<u32>) -> bool {
    &&& ascending_keys(keys)
    &&& forall|k: u32| #[trigger] keys.contains(k) <==> added_at(entries, k) is Some
}

/// The latest of the times of the first `n` keys.
pub open spec fn latest_upto(entries: Seq<(u32, WallTime)>, keys: Seq<u32>, n: nat) -> int
    decreases n,
{
    if n == 0 || n > keys.len() {
        i64::MIN as int
    } else {
        let before = latest_upto(entries, keys, (n - 1) as nat);
        match added_at(entries, keys[n - 1]) {
            Some(t) => if t > before {
                t
            } else {
                before
            },
            None => before,
        }
    }
}

/// A difference as far as a signed 64-bit count goes.
pub open spec fn since(a: int, b: int) -> int {
    if a - b > i64::MAX {
        i64::MAX as int
    } else if a - b < i64::MIN {
        i64::MIN as int
    } else {
        a - b
    }
}

/// How many of the first `n` times lie within a year of the first.
pub open spec fn within_year(times: Seq<i64>, n: nat) -> nat
    decreases n,
{
    if n == 0 || n > times.len() {
        0
    } else {
        within_year(times, (n - 1) as nat) + if since(times[n - 1] as int, times[0] as int)
            <= YEAR_MS {
            1nat
        } else {
            0nat
        }
    }
}

/// How a history of a length is spread.
pub open spec fn kind_of_span(span: int) -> AgeRampKind {
    if span <= 0 {
        AgeRampKind::Uniform
    } else if span >= YEAR_MS {
        AgeRampKind::Calibrated
    } else {
        AgeRampKind::Relative
    }
}

/// Which entry of a table a growth index is read at: its own, or the newest where the
/// table does not hold it.
pub open spec fn place_in(keys: Seq<u32>, index: u32) -> int {
    if keys.contains(index) {
        keys.index_of(index)
    } else {
        keys.len() - 1
    }
}

fn gap(a: i64, b: i64) -> (r: i64)
    ensures
        r == since(a as int, b as int),
{
    let d: i128 = a as i128 - b as i128;
    if d > 0x7fff_ffff_ffff_ffff {
        0x7fff_ffff_ffff_ffff
    } else if d < -0x8000_0000_0000_0000 {
        -0x8000_0000_0000_0000
    } else {
        d as i64
    }
}

/// The table is in order, and its parts agree.
pub open spec fn ramp_ok(r: AgeRamp) -> bool {
    &&& ascending_keys(r.keys@)
    &&& r.times@.len() == r.keys@.len()
    &&& forall|i: int, j: int|
        0 <= i <= j < r.times@.len() ==> (#[trigger] r.times@[i]) <= (#[trigger] r.times@[j])
    &&& r.keys@.len() > 0 ==> {
        &&& r.first.millis == r.times@[0]
        &&& r.last.millis == r.times@[r.times@.len() - 1]
        &&& r.span_ms == since(r.last.millis as int, r.first.millis as int)
        &&& r.kind == kind_of_span(r.span_ms as int)
    }
    &&& r.keys@.len() == 0 ==> r.span_ms == 0 && r.kind == AgeRampKind::Uniform
}

/// The whole number nearest to a fraction, the greater of two.
pub open spec fn nearest(num: int, den: int) -> int {
    (2 * num + den) / (2 * den)
}

/// How far up the ramp ground lies that was founded so long after the first file,
/// in a history of a length, in steps.
///
/// The first year owns two fifths of the ramp and what came after it the rest,
/// each by elapsed time. A history of less than seven eighths of a year is
/// stretched to the first 35 hundredths. One without length lies in the middle.
pub open spec fn age_steps(elapsed: int, span: int) -> int {
    if span <= 0 {
        NO_HISTORY_STEP as int
    } else if 8 * span < 7 * YEAR_MS {
        nearest(28_672 * elapsed, 20 * span)
    } else if span <= YEAR_MS || elapsed <= YEAR_MS {
        nearest(8_192 * elapsed, 5 * YEAR_MS)
    } else {
        nearest(
            4_096 * (2 * (span - YEAR_MS) + 3 * (elapsed - YEAR_MS)),
            5 * (span - YEAR_MS),
        )
    }
}

proof fn nearest_is_ordered(a: int, b: int, den: int)
    requires
        a <= b,
        den > 0,
    ensures
        nearest(a, den) <= nearest(b, den),
{
    lemma_div_is_ordered(2 * a + den, 2 * b + den, 2 * den);
}

/// The nearest number to a fraction with a factor in common.
proof fn nearest_share(num: int, den: int, whole: int, rest: int, m: int)
    requires
        m > 0,
        den > 0,
        2 * num + den == whole * (2 * den) + rest,
        0 <= rest < 2 * den,
    ensures
        nearest(num * m, den * m) == whole,
{
    assert(2 * (num * m) + den * m == whole * (2 * (den * m)) + rest * m) by (nonlinear_arith)
        requires
            2 * num + den == whole * (2 * den) + rest,
    ;
    assert(0 <= rest * m < 2 * (den * m)) by (nonlinear_arith)
        requires
            m > 0,
            0 <= rest < 2 * den,
    ;
    lemma_fundamental_div_mod_converse(
        2 * (num * m) + den * m,
        2 * (den * m),
        whole,
        rest * m,
    );
}

/// The first year lies in the first two fifths of the ramp, and what came after
/// it beyond them.
pub proof fn the_first_year_owns_the_old_town(elapsed: int, span: int)
    requires
        0 <= elapsed <= span,
        span >= YEAR_MS,
    ensures
        elapsed <= YEAR_MS ==> 0 <= age_steps(elapsed, span) <= 1638,
        elapsed > YEAR_MS ==> 1638 <= age_steps(elapsed, span) <= RAMP_STEPS,
        span > YEAR_MS ==> age_steps(span, span) == RAMP_STEPS,
        age_steps(0, span) == 0,
{
    let y = YEAR_MS as int;
    nearest_share(8_192, 5, 1638, 9, y);
    nearest_is_ordered(0, 8_192 * elapsed, 5 * y);
    lemma_fundamental_div_mod_converse(2 * 0 + 5 * y, 2 * (5 * y), 0, 5 * y);
    if elapsed <= y {
        nearest_is_ordered(8_192 * elapsed, 8_192 * y, 5 * y);
    }
    if span > y {
        let m = span - y;
        nearest_share(8_192, 5, 1638, 9, m);
        nearest_share(20_480, 5, 4_096, 5, m);
        if elapsed > y {
            let num = 4_096 * (2 * m + 3 * (elapsed - y));
            nearest_is_ordered(8_192 * m, num, 5 * m);
            nearest_is_ordered(num, 20_480 * m, 5 * m);
        }
    }
}

/// Later ground never lies further down the ramp, and all of it lies on the ramp.
pub proof fn the_ramp_only_rises(a: int, b: int, span: int)
    requires
        0 <= a <= b <= span,
    ensures
        0 <= age_steps(a, span) <= age_steps(b, span) <= RAMP_STEPS,
{
    let y = YEAR_MS as int;
    if span <= 0 {
    } else if 8 * span < 7 * y {
        nearest_is_ordered(0, 28_672 * a, 20 * span);
        nearest_is_ordered(28_672 * a, 28_672 * b, 20 * span);
        nearest_is_ordered(28_672 * b, 28_672 * span, 20 * span);
        nearest_share(28_672, 20, 1434, 4, span);
        lemma_fundamental_div_mod_converse(2 * 0 + 20 * span, 2 * (20 * span), 0, 20 * span);
    } else if span <= y {
        nearest_is_ordered(0, 8_192 * a, 5 * y);
        nearest_is_ordered(8_192 * a, 8_192 * b, 5 * y);
        nearest_is_ordered(8_192 * b, 8_192 * y, 5 * y);
        nearest_share(8_192, 5, 1638, 9, y);
        lemma_fundamental_div_mod_converse(2 * 0 + 5 * y, 2 * (5 * y), 0, 5 * y);
    } else {
        the_first_year_owns_the_old_town(a, span);
        the_first_year_owns_the_old_town(b, span);
        if b <= y {
            nearest_is_ordered(8_192 * a, 8_192 * b, 5 * y);
        } else if a > y {
            let m = span - y;
            nearest_is_ordered(
                4_096 * (2 * m + 3 * (a - y)),
                4_096 * (2 * m + 3 * (b - y)),
                5 * m,
            );
        }
    }
}

/// How far up the ramp ground lies.
fn steps_at(elapsed: i64, span: i64) -> (r: u32)
    requires
        0 <= elapsed <= span,
    ensures
        r == age_steps(elapsed as int, span as int),
{
    proof {
        the_ramp_only_rises(elapsed as int, elapsed as int, span as int);
    }
    if span <= 0 {
        return NO_HISTORY_STEP;
    }
    let e: i128 = elapsed as i128;
    let s: i128 = span as i128;
    let y: i128 = YEAR_MS as i128;
    let (num, den): (i128, i128) = if 8 * s < 7 * y {
        (28_672 * e, 20 * s)
    } else if s <= y || e <= y {
        (8_192 * e, 5 * y)
    } else {
        (4_096 * (2 * (s - y) + 3 * (e - y)), 5 * (s - y))
    };
    let q: i128 = (2 * num + den) / (2 * den);
    q as u32
}

/// Is it the table read off the files' growth indices and times?
pub open spec fn is_calibrated(entries: Seq<(u32, WallTime)>, r: AgeRamp) -> bool {
    &&& ramp_ok(r)
    &&& keys_of_history(entries, r.keys@)
    &&& forall|i: int|
        0 <= i < r.keys@.len() ==> #[trigger] r.times@[i] == latest_upto(
            entries,
            r.keys@,
            (i + 1) as nat,
        )
    &&& r.keys@.len() > 0 ==> {
        &&& r.first.millis == r.times@[0]
        &&& r.last.millis == r.times@[r.times@.len() - 1]
        &&& r.span_ms == since(r.last.millis as int, r.first.millis as int)
        &&& r.old_town == within_year(r.times@, r.times@.len())
        &&& r.kind == kind_of_span(r.span_ms as int)
    }
    &&& r.keys@.len() == 0 ==> {
        &&& r.first.millis == 0
        &&& r.last.millis == 0
        &&& r.span_ms == 0
        &&& r.old_town == 0
        &&& r.kind == AgeRampKind::Uniform
    }
}

/// Whole days of a span in milliseconds, as far as a counter goes.
pub open spec fn days_spanned(span: int) -> int {
    if span / (DAY_MS as int) > u32::MAX {
        u32::MAX as int
    } else {
        span / (DAY_MS as int)
    }
}

impl AgeRamp {
    /// A repository without history.
    pub fn unknown() -> (r: Self)
        ensures
            ramp_ok(r),
            r.keys@.len() == 0,
            r.kind == AgeRampKind::Uniform,
            r.span_ms == 0,
            r.first.millis == 0,
            r.last.millis == 0,
            r.old_town == 0,
    {
        AgeRamp {
            keys: Vec::new(),
            times: Vec::new(),
            kind: AgeRampKind::Uniform,
            span_ms: 0,
            first: WallTime::from_unix_millis(0),
            last: WallTime::from_unix_millis(0),
            old_town: 0,
        }
    }

    /// Reads the table off the files' growth indices and times. A file without a
    /// place in the history, the largest index, is left out.
    pub fn calibrate(entries: &Vec<(u32, WallTime)>) -> (r: Self)
        ensures
            is_calibrated(entries@, r),
    {
        let mut keys: Vec<u32> = Vec::new();
        let mut times: Vec<i64> = Vec::new();
        let mut i: usize = 0;
        while i < entries.len()
            invariant
                i <= entries@.len(),
                times@.len() == keys@.len(),
                ascending_keys(keys@),
                forall|k: u32| #[trigger]
                    keys@.contains(k) <==> earliest_at(entries@, k, i as nat) is Some,
                forall|p: int|
                    0 <= p < keys@.len() ==> earliest_at(entries@, #[trigger] keys@[p], i as nat)
                        == Some(times@[p] as int),
            decreases entries.len() - i,
        {
            let (key, at) = entries[i];
            let ms: i64 = at.unix_millis();
            let ghost had = keys@;
            let ghost had_times = times@;
            if key != 0xffff_ffff {
                let mut p: usize = 0;
                while p < keys.len() && keys[p] < key
                    invariant
                        p <= keys@.len(),
                        keys@ == had,
                        ascending_keys(keys@),
                        forall|k: int| 0 <= k < p ==> (#[trigger] keys@[k]) < key,
                    decreases keys.len() - p,
                {
                    p = p + 1;
                }
                if p < keys.len() && keys[p] == key {
                    if ms < times[p] {
                        times[p] = ms;
                    }
                    assert(had[p as int] == key);
                    assert(had.contains(key));
                } else {
                    keys.insert(p, key);
                    times.insert(p, ms);
                    proof {
                        assert(!had.contains(key)) by {
                            if had.contains(key) {
                                let q = had.index_of(key);
                                assert(had[q] == key);
                                if q > p {
                                    assert(had[p as int] < had[q]);
                                }
                            }
                        }
                        assert(keys@ =~= had.insert(p as int, key));
                        assert(times@ =~= had_times.insert(p as int, ms));
                        assert(keys@[p as int] == key);
                        assert forall|a: int, b: int| 0 <= a < b < keys@.len() implies #[trigger]
                            keys@[a] < #[trigger] keys@[b] by {
                            let x = if a < p {
                                a
                            } else {
                                a - 1
                            };
                            let y = if b < p {
                                b
                            } else {
                                b - 1
                            };
                            if a != p {
                                assert(keys@[a] == had[x]);
                            }
                            if b != p {
                                assert(keys@[b] == had[y]);
                            }
                            if a == p && y > p {
                                assert(had[p as int] < had[y]);
                            }
                        }
                    }
                }
                proof {
                    assert forall|k: u32| #[trigger] keys@.contains(k) <==> earliest_at(
                        entries@,
                        k,
                        (i + 1) as nat,
                    ) is Some by {
                        assert(had.contains(k) <==> earliest_at(entries@, k, i as nat) is Some);
                        if keys@.len() > had.len() {
                            if keys@.contains(k) && k != key {
                                let q = keys@.index_of(k);
                                let o = if q < p {
                                    q
                                } else {
                                    q - 1
                                };
                                assert(had[o] == k);
                            }
                            if had.contains(k) {
                                let o = had.index_of(k);
                                let q = if o < p {
                                    o
                                } else {
                                    o + 1
                                };
                                assert(keys@[q] == k);
                            }
                        }
                    }
                    assert forall|q: int| 0 <= q < keys@.len() implies earliest_at(
                        entries@,
                        #[trigger] keys@[q],
                        (i + 1) as nat,
                    ) == Some(times@[q] as int) by {
                        if keys@.len() > had.len() {
                            let o = if q < p {
                                q
                            } else {
                                q - 1
                            };
                            if q != p {
                                assert(keys@[q] == had[o]);
                                assert(earliest_at(entries@, had[o], i as nat) == Some(
                                    had_times[o] as int,
                                ));
                            } else {
                                assert(!had.contains(key));
                                assert(earliest_at(entries@, key, i as nat) is None);
                            }
                        } else {
                            assert(earliest_at(entries@, had[q], i as nat) == Some(
                                had_times[q] as int,
                            ));
                            if q != p {
                                assert(had[q] != key);
                            }
                        }
                    }
                }
            }
            i = i + 1;
        }
        if keys.len() == 0 {
            let r: Self = AgeRamp::unknown();
            assert(r.keys@ =~= keys@);
            return r;
        }
        let n: usize = keys.len();
        let ghost raw = times@;
        let mut high: i64 = -0x8000_0000_0000_0000;
        let mut i: usize = 0;
        while i < n
            invariant
                i <= n == keys@.len(),
                times@.len() == n,
                raw.len() == n,
                high == latest_upto(entries@, keys@, i as nat),
                forall|p: int|
                    0 <= p < n ==> added_at(entries@, #[trigger] keys@[p]) == Some(raw[p] as int),
                forall|p: int| i <= p < n ==> #[trigger] times@[p] == raw[p],
                forall|p: int|
                    0 <= p < i ==> #[trigger] times@[p] == latest_upto(
                        entries@,
                        keys@,
                        (p + 1) as nat,
                    ),
                forall|p: int, q: int|
                    0 <= p <= q < i ==> (#[trigger] times@[p]) <= (#[trigger] times@[q]),
                forall|p: int| 0 <= p < i ==> (#[trigger] times@[p]) <= high,
            decreases n - i,
        {
            assert(added_at(entries@, keys@[i as int]) == Some(raw[i as int] as int));
            if times[i] > high {
                high = times[i];
            }
            times[i] = high;
            i = i + 1;
        }
        let first_ms: i64 = times[0];
        let last_ms: i64 = times[n - 1];
        let span_ms: i64 = gap(last_ms, first_ms);
        let mut old_town: usize = 0;
        let mut i: usize = 0;
        while i < n
            invariant
                i <= n == times@.len(),
                first_ms == times@[0],
                old_town == within_year(times@, i as nat),
                old_town <= i,
            decreases n - i,
        {
            if gap(times[i], first_ms) <= YEAR_MS {
                old_town = old_town + 1;
            }
            i = i + 1;
        }
        let kind: AgeRampKind = if span_ms <= 0 {
            AgeRampKind::Uniform
        } else if span_ms >= YEAR_MS {
            AgeRampKind::Calibrated
        } else {
            AgeRampKind::Relative
        };
        AgeRamp {
            keys,
            times,
            kind,
            span_ms,
            first: WallTime::from_unix_millis(first_ms),
            last: WallTime::from_unix_millis(last_ms),
            old_town,
        }
    }

    /// Which entry of the table a growth index is read at: its own, or the newest where
    /// the table does not hold it. None where the table is empty.
    pub fn place(&self, growth_index: u32) -> (r: Option<usize>)
        requires
            ramp_ok(*self),
        ensures
            r is None <==> self.keys@.len() == 0,
            r matches Some(i) ==> i < self.keys@.len() && i == place_in(self.keys@, growth_index),
    {
        if self.keys.len() == 0 {
            return None;
        }
        let mut p: usize = 0;
        while p < self.keys.len()
            invariant
                ramp_ok(*self),
                p <= self.keys@.len(),
                forall|k: int| 0 <= k < p ==> (#[trigger] self.keys@[k]) != growth_index,
            decreases self.keys.len() - p,
        {
            if self.keys[p] == growth_index {
                proof {
                    let i = self.keys@.index_of(growth_index);
                    assert(self.keys@.contains(self.keys@[p as int]));
                    assert(self.keys@[i] == growth_index);
                    assert(i == p) by {
                        if i > p {
                            assert(self.keys@[p as int] < self.keys@[i]);
                        }
                    }
                }
                return Some(p);
            }
            p = p + 1;
        }
        Some(self.keys.len() - 1)
    }

    /// How far up the ramp the ground lies that a file of a growth index founded, in
    /// steps. An index that the table does not hold reads as the newest ground: that of a
    /// file without a place in the history, or of one that came later.
    pub fn at(&self, growth_index: u32) -> (r: u32)
        requires
            ramp_ok(*self),
        ensures
            r == age_at(*self, growth_index),
            r <= RAMP_STEPS,
    {
        proof {
            age_is_on_the_ramp(*self, growth_index);
        }
        match self.place(growth_index) {
            Some(i) => {
                assert(self.times@[0] <= self.times@[i as int]);
                assert(self.times@[i as int] <= self.times@[self.times@.len() - 1]);
                steps_at(gap(self.times[i], self.first.millis), self.span_ms)
            },
            None => NO_HISTORY_STEP,
        }
    }

    /// How far up the ramp the newest ground lies, in steps.
    pub fn newest(&self) -> (r: u32)
        requires
            ramp_ok(*self),
        ensures
            r == newest_age(*self),
    {
        if self.keys.len() == 0 {
            return NO_HISTORY_STEP;
        }
        assert(self.times@[0] <= self.times@[self.times@.len() - 1]);
        steps_at(self.span_ms, self.span_ms)
    }

    /// How the history is spread.
    pub fn kind(&self) -> (r: AgeRampKind)
        ensures
            r == self.kind,
    {
        self.kind
    }

    /// Whole days from the first time to the last, as far as a counter goes.
    pub fn span_days(&self) -> (r: u32)
        requires
            self.span_ms >= 0,
        ensures
            r == days_spanned(self.span_ms as int),
            r * 86_400_000 <= self.span_ms,
            r < u32::MAX ==> self.span_ms < (r + 1) * 86_400_000,
    {
        let days: i64 = self.span_ms / DAY_MS;
        if days > 0xffff_ffff {
            0xffff_ffff
        } else {
            days as u32
        }
    }

    /// How many of the times lie in the first year.
    pub fn old_town(&self) -> (r: usize)
        ensures
            r == self.old_town,
    {
        self.old_town
    }

    /// How many entries the table has.
    pub fn len(&self) -> (r: usize)
        ensures
            r == self.keys@.len(),
    {
        self.keys.len()
    }

    /// Is the table empty?
    pub fn is_empty(&self) -> (r: bool)
        ensures
            r == (self.keys@.len() == 0),
    {
        self.keys.len() == 0
    }

    /// The first time.
    pub fn first(&self) -> (r: WallTime)
        ensures
            r == self.first,
    {
        self.first
    }

    /// The last time.
    pub fn last(&self) -> (r: WallTime)
        ensures
            r == self.last,
    {
        self.last
    }
}

impl Default for AgeRamp {
    fn default() -> (r: Self)
        ensures
            ramp_ok(r),
            r.keys@.len() == 0,
            r.kind == AgeRampKind::Uniform,
            r.span_ms == 0,
            r.first.millis == 0,
            r.last.millis == 0,
            r.old_town == 0,
    {
        AgeRamp::unknown()
    }
}

/// The time that a table gives for a growth index.
pub open spec fn time_at(r: AgeRamp, index: u32) -> i64 {
    r.times@[place_in(r.keys@, index)]
}

/// How far up the ramp the ground of a growth index lies, in steps.
pub open spec fn age_at(r: AgeRamp, index: u32) -> int {
    if r.keys@.len() == 0 {
        NO_HISTORY_STEP as int
    } else {
        age_steps(since(time_at(r, index) as int, r.first.millis as int), r.span_ms as int)
    }
}

/// How far up the ramp the newest ground lies, in steps.
pub open spec fn newest_age(r: AgeRamp) -> int {
    age_steps(r.span_ms as int, r.span_ms as int)
}

proof fn age_is_on_the_ramp(r: AgeRamp, index: u32)
    requires
        ramp_ok(r),
    ensures
        0 <= age_at(r, index) <= RAMP_STEPS,
{
    if r.keys@.len() > 0 {
        let i = place_in(r.keys@, index);
        assert(r.times@[0] <= r.times@[i]);
        assert(r.times@[i] <= r.times@[r.times@.len() - 1]);
        let e = since(time_at(r, index) as int, r.first.millis as int);
        the_ramp_only_rises(e, e, r.span_ms as int);
    }
}

/// Of the files in the table a later growth index is never older ground, whatever order
/// the commit dates are in, and none is newer than the newest.
pub proof fn later_files_are_newer_ground(r: AgeRamp, a: u32, b: u32)
    requires
        ramp_ok(r),
        r.keys@.contains(a),
        a <= b,
    ensures
        age_at(r, a) <= age_at(r, b) <= newest_age(r),
{
    ramp_never_goes_back(r, a, b);
    let n = r.keys@.len();
    let (i, j) = (place_in(r.keys@, a), place_in(r.keys@, b));
    assert(r.times@[0] <= r.times@[i]);
    assert(r.times@[j] <= r.times@[n - 1]);
    the_ramp_only_rises(
        since(time_at(r, a) as int, r.first.millis as int),
        since(time_at(r, b) as int, r.first.millis as int),
        r.span_ms as int,
    );
    the_ramp_only_rises(
        since(time_at(r, b) as int, r.first.millis as int),
        r.span_ms as int,
        r.span_ms as int,
    );
}

/// A file that the table does not hold is on the newest ground: the table is not read
/// anew for what comes later.
pub proof fn unknown_files_are_the_newest_ground(r: AgeRamp, index: u32)
    requires
        ramp_ok(r),
        !r.keys@.contains(index),
    ensures
        age_at(r, index) == newest_age(r),
{
}

/// Of the files in the table a later growth index is never read at an earlier time,
/// whatever order the commit dates are in.
pub proof fn ramp_never_goes_back(r: AgeRamp, a: u32, b: u32)
    requires
        ramp_ok(r),
        r.keys@.contains(a),
        a <= b,
    ensures
        time_at(r, a) <= time_at(r, b),
{
    let (i, j) = (place_in(r.keys@, a), place_in(r.keys@, b));
    assert(r.keys@[i] == a);
    if r.keys@.contains(b) {
        assert(r.keys@[j] == b);
        assert(i <= j) by {
            if j < i {
                assert(r.keys@[j] < r.keys@[i]);
            }
        }
    }
    assert(r.times@[i] <= r.times@[j]);
}

/// The time given for a growth index does not depend on the order of the entries:
/// it is the least of them.
pub proof fn added_at_is_least(entries: Seq<(u32, WallTime)>, key: u32, n: nat)
    requires
        n <= entries.len(),
        key != u32::MAX,
    ensures
        earliest_at(entries, key, n) is Some <==> exists|i: int|
            0 <= i < n && (#[trigger] entries[i]).0 == key,
        earliest_at(entries, key, n) matches Some(t) ==> (exists|i: int|
            0 <= i < n && (#[trigger] entries[i]).0 == key && entries[i].1.millis == t) && (forall|
            i: int,
        |
            0 <= i < n && (#[trigger] entries[i]).0 == key ==> t <= entries[i].1.millis),
    decreases n,
{
    if n > 0 {
        added_at_is_least(entries, key, (n - 1) as nat);
        if entries[n - 1].0 == key {
            assert(entries[n - 1].0 == key);
        }
    }
}

proof fn same_history(
    a: Seq<(u32, WallTime)>,
    b: Seq<(u32, WallTime)>,
    key: u32,
)
    requires
        a.to_multiset() == b.to_multiset(),
    ensures
        added_at(a, key) == added_at(b, key),
{
    if key == u32::MAX {
        no_place_no_time(a, a.len());
        no_place_no_time(b, b.len());
    } else {
        added_at_is_least(a, key, a.len());
        added_at_is_least(b, key, b.len());
        same_entries(a, b);
        same_entries(b, a);
    }
}

proof fn no_place_no_time(entries: Seq<(u32, WallTime)>, n: nat)
    ensures
        earliest_at(entries, u32::MAX, n) is None,
    decreases n,
{
    if n > 0 && n <= entries.len() {
        no_place_no_time(entries, (n - 1) as nat);
    }
}

proof fn same_entries(a: Seq<(u32, WallTime)>, b: Seq<(u32, WallTime)>)
    requires
        a.to_multiset() == b.to_multiset(),
    ensures
        forall|i: int| 0 <= i < a.len() ==> b.contains(#[trigger] a[i]),
{
    broadcast use vstd::seq_lib::group_to_multiset_ensures;

    assert forall|i: int| 0 <= i < a.len() implies b.contains(#[trigger] a[i]) by {
        assert(a.contains(a[i]));
        assert(a.to_multiset().count(a[i]) > 0);
        assert(b.contains(a[i]));
    }
}

/// Two ascending sequences of the same members are the same.
proof fn same_keys(a: Seq<u32>, b: Seq<u32>)
    requires
        ascending_keys(a),
        ascending_keys(b),
        forall|k: u32| #[trigger] a.contains(k) <==> b.contains(k),
    ensures
        a == b,
    decreases a.len(),
{
    if a.len() == 0 {
        if b.len() > 0 {
            assert(b.contains(b[0]));
            assert(a.contains(b[0]));
        }
        assert(a =~= b);
    } else {
        assert(a.contains(a.last()));
        let j = b.index_of(a.last());
        assert(b.contains(b.last()));
        assert(a.contains(b.last()));
        let i = a.index_of(b.last());
        assert(a[i] == b.last() && b[j] == a.last());
        if i < a.len() - 1 {
            assert(a[i] < a[a.len() - 1]);
        }
        if j < b.len() - 1 {
            assert(b[j] < b[b.len() - 1]);
        }
        assert(a.last() == b.last());
        assert forall|k: u32| #[trigger] a.drop_last().contains(k) <==> b.drop_last().contains(
            k,
        ) by {
            if a.drop_last().contains(k) {
                let p = a.drop_last().index_of(k);
                assert(a[p] == k && a[p] < a[a.len() - 1]);
                assert(a.contains(k));
                let q = b.index_of(k);
                assert(b.drop_last()[q] == k);
            }
            if b.drop_last().contains(k) {
                let p = b.drop_last().index_of(k);
                assert(b[p] == k && b[p] < b[b.len() - 1]);
                assert(b.contains(k));
                assert(a.contains(k));
                let q = a.index_of(k);
                assert(a.drop_last()[q] == k);
            }
        }
        same_keys(a.drop_last(), b.drop_last());
        assert(a =~= a.drop_last().push(a.last()));
        assert(b =~= b.drop_last().push(b.last()));
    }
}

proof fn same_latest(
    a: Seq<(u32, WallTime)>,
    b: Seq<(u32, WallTime)>,
    keys: Seq<u32>,
    n: nat,
)
    requires
        a.to_multiset() == b.to_multiset(),
    ensures
        latest_upto(a, keys, n) == latest_upto(b, keys, n),
    decreases n,
{
    if n > 0 && n <= keys.len() {
        same_latest(a, b, keys, (n - 1) as nat);
        same_history(a, b, keys[n - 1]);
    }
}

/// The order in which the files are given cannot move the table: the same
/// entries in any order have the same growth indices and the same times.
pub proof fn input_order_cannot_move_the_ramp(
    a: Seq<(u32, WallTime)>,
    b: Seq<(u32, WallTime)>,
    keys: Seq<u32>,
    other: Seq<u32>,
)
    requires
        a.to_multiset() == b.to_multiset(),
        keys_of_history(a, keys),
        keys_of_history(b, other),
    ensures
        keys == other,
        forall|n: nat| latest_upto(a, keys, n) == #[trigger] latest_upto(b, other, n),
{
    assert forall|k: u32| #[trigger] keys.contains(k) <==> other.contains(k) by {
        same_history(a, b, k);
    }
    same_keys(keys, other);
    assert forall|n: nat| latest_upto(a, keys, n) == #[trigger] latest_upto(b, other, n) by {
        same_latest(a, b, keys, n);
    }
}

/// Whole days from one time to another, as far as a counter goes; none where the
/// other is not later.
pub open spec fn days_between(from: int, to: int) -> int {
    if to <= from {
        0
    } else if (to - from) / (DAY_MS as int) > u32::MAX {
        u32::MAX as int
    } else {
        (to - from) / (DAY_MS as int)
    }
}

/// Whole days from one time to another, as far as a counter goes.
pub fn days_until(from: WallTime, to: WallTime) -> (r: u32)
    ensures
        r == days_between(from.millis as int, to.millis as int),
        to.millis <= from.millis ==> r == 0,
        to.millis > from.millis && r < u32::MAX ==> r * 86_400_000 <= to.millis - from.millis < (r
            + 1) * 86_400_000,
        to.millis > from.millis && r == u32::MAX ==> r * 86_400_000 <= to.millis - from.millis,
{
    if to.millis <= from.millis {
        return 0;
    }
    let days: i128 = (to.millis as i128 - from.millis as i128) / DAY_MS as i128;
    if days > 0xffff_ffff {
        0xffff_ffff
    } else {
        days as u32
    }
}

/// Days without a change after which a building begins to be overgrown.
pub const OVERGROWTH_ONSET_DAYS: u32 = 90;

/// Days without a change after which a building is overgrown altogether.
pub const OVERGROWTH_FULL_DAYS: u32 = 270;

/// How overgrown a building is after so many days without a change, as a fraction:
/// not at all before the onset, altogether at the full number of days, and evenly
/// between the two.
pub open spec fn overgrown(days: int, onset: int, full: int) -> (int, int) {
    if full <= onset {
        (
            if days >= onset {
                1
            } else {
                0
            },
            1,
        )
    } else if days <= onset {
        (0, full - onset)
    } else if days >= full {
        (full - onset, full - onset)
    } else {
        (days - onset, full - onset)
    }
}

/// How overgrown a building is that was last touched at a time, as a fraction, over
/// a window of days.
pub fn overgrowth_over(last_touched: WallTime, now: WallTime, onset: u32, full: u32) -> (r: (
    u32,
    u32,
))
    ensures
        r.1 > 0,
        r.0 <= r.1,
        (r.0 as int, r.1 as int) == overgrown(
            days_between(last_touched.millis as int, now.millis as int),
            onset as int,
            full as int,
        ),
        ({
            let days = days_between(last_touched.millis as int, now.millis as int);
            &&& full <= onset ==> (r.0 == 1 && r.1 == 1 && days >= onset) || (r.0 == 0 && days
                < onset)
            &&& full > onset ==> r.1 == full - onset
            &&& full > onset && onset <= days <= full ==> r.0 == days - onset
            &&& full > onset && days < onset ==> r.0 == 0
            &&& full > onset && days > full ==> r.0 == r.1
        }),
{
    let days: u32 = days_until(last_touched, now);
    if full <= onset {
        return if days >= onset {
            (1, 1)
        } else {
            (0, 1)
        };
    }
    let span: u32 = full - onset;
    if days <= onset {
        (0, span)
    } else if days >= full {
        (span, span)
    } else {
        (days - onset, span)
    }
}

/// How overgrown a building is that was last touched at a time, as a fraction.
pub fn overgrowth(last_touched: WallTime, now: WallTime) -> (r: (u32, u32))
    ensures
        r.1 > 0,
        r.0 <= r.1,
        (r.0 as int, r.1 as int) == overgrown(
            days_between(last_touched.millis as int, now.millis as int),
            OVERGROWTH_ONSET_DAYS as int,
            OVERGROWTH_FULL_DAYS as int,
        ),
        r.1 == 180,
        ({
            let days = days_between(last_touched.millis as int, now.millis as int);
            r.0 == if days <= 90 {
                0
            } else if days >= 270 {
                180
            } else {
                days - 90
            }
        }),
{
    overgrowth_over(last_touched, now, OVERGROWTH_ONSET_DAYS, OVERGROWTH_FULL_DAYS)
}

/// A building never grows back into use by being left alone: the longer it is not
/// touched, the more it is overgrown.
pub proof fn neglect_only_grows(last: int, now: int, later: int, onset: int, full: int)
    requires
        now <= later,
    ensures
        overgrown(days_between(last, now), onset, full).0 <= overgrown(
            days_between(last, later),
            onset,
            full,
        ).0,
        overgrown(days_between(last, now), onset, full).1 == overgrown(
            days_between(last, later),
            onset,
            full,
        ).1,
{
    lemma_div_is_ordered(now - last, later - last, DAY_MS as int);
    if now > last {
        lemma_div_is_ordered(0, now - last, DAY_MS as int);
    }
    if later > last {
        lemma_div_is_ordered(0, later - last, DAY_MS as int);
    }
}

/// Ground lies at the step nearest to its share of the ramp. In a history of less than
/// seven eighths of a year that is its share of the whole in the first 35 hundredths; in
/// any other its share of a year in the first two fifths, and beyond the first year
/// its share of the rest in the other three.
pub proof fn ground_lies_at_the_nearest_step(elapsed: int, span: int)
    requires
        0 <= elapsed <= span,
    ensures
        ({
            let s = age_steps(elapsed, span);
            let year = 31_556_952_000int;
            &&& span == 0 ==> s == 2_048
            &&& 0 < span && 8 * span < 7 * year ==> -(20 * span) <= 2 * (28_672 * elapsed - s * (20
                * span)) < 20 * span
            &&& 8 * span >= 7 * year && elapsed <= year ==> -(5 * year) <= 2 * (8_192 * elapsed - s
                * (5 * year)) < 5 * year
            &&& elapsed > year ==> {
                let rest = span - year;
                let late = elapsed - year;
                -(5 * rest) <= 2 * (8_192 * rest + 12_288 * late - s * (5 * rest)) < 5 * rest
            }
        }),
{
    let s = age_steps(elapsed, span);
    let year = 31_556_952_000int;
    if 0 < span && 8 * span < 7 * year {
        nearest_is_near(28_672 * elapsed, 20 * span);
    } else if span > 0 && elapsed <= year {
        nearest_is_near(8_192 * elapsed, 5 * year);
    } else if span > 0 {
        let rest = span - year;
        let late = elapsed - year;
        assert(4_096 * (2 * rest + 3 * late) == 8_192 * rest + 12_288 * late);
        nearest_is_near(8_192 * rest + 12_288 * late, 5 * rest);
    }
}

proof fn nearest_is_near(num: int, den: int)
    requires
        den > 0,
    ensures
        -den <= 2 * (num - nearest(num, den) * den) < den,
{
    let s = nearest(num, den);
    vstd::arithmetic::div_mod::lemma_fundamental_div_mod(2 * num + den, 2 * den);
    vstd::arithmetic::div_mod::lemma_mod_bound(2 * num + den, 2 * den);
    assert((2 * den) * s == 2 * (s * den)) by (nonlinear_arith);
}

proof fn latest_is_greatest(entries: Seq<(u32, WallTime)>, keys: Seq<u32>, n: nat)
    requires
        0 < n <= keys.len(),
        forall|i: int|
            0 <= i < keys.len() ==> (#[trigger] added_at(entries, keys[i])) is Some && i64::MIN
                <= added_at(entries, keys[i])->0,
    ensures
        forall|j: int|
            0 <= j < n ==> (#[trigger] added_at(entries, keys[j]))->0 <= latest_upto(
                entries,
                keys,
                n,
            ),
        exists|j: int|
            0 <= j < n && #[trigger] added_at(entries, keys[j]) == Some(
                latest_upto(entries, keys, n),
            ),
    decreases n,
{
    assert(added_at(entries, keys[n - 1]) is Some);
    if n > 1 {
        latest_is_greatest(entries, keys, (n - 1) as nat);
        let before = latest_upto(entries, keys, (n - 1) as nat);
        let j = choose|j: int|
            0 <= j < n - 1 && #[trigger] added_at(entries, keys[j]) == Some(before);
        assert(added_at(entries, keys[j]) == Some(before));
    } else {
        assert(latest_upto(entries, keys, 0) == i64::MIN);
    }
}

proof fn year_upto(times: Seq<i64>, n: nat)
    requires
        n <= times.len(),
        forall|i: int| 0 <= i < times.len() ==> times[0] <= #[trigger] times[i],
    ensures
        within_year(times, n) == times.take(n as int).filter(
            |t: i64| t - times[0] <= 31_556_952_000,
        ).len(),
    decreases n,
{
    let test = |t: i64| t - times[0] <= 31_556_952_000;
    if n == 0 {
        filter_none(times, test);
    } else {
        year_upto(times, (n - 1) as nat);
        filter_step(times, test, n);
        assert(times[0] <= times[n - 1]);
    }
}

/// What a history is read as. The growth indices are those that a file has, each once and
/// in order; the largest number stands for none. Each is given the latest of the times
/// by which it and those before it were first there. The first and last times are those
/// of the ends, the old town is what came within a year of the first, and a history
/// is calibrated from a year on and uniform without length.
pub proof fn a_history_is_read_in_growth_order(entries: Seq<(u32, WallTime)>, r: AgeRamp)
    requires
        is_calibrated(entries, r),
    ensures
        forall|i: int, j: int|
            0 <= i < j < r.keys@.len() ==> (#[trigger] r.keys@[i]) < (#[trigger] r.keys@[j]),
        forall|k: u32| #[trigger]
            r.keys@.contains(k) <==> k != u32::MAX && exists|i: int|
                0 <= i < entries.len() && (#[trigger] entries[i]).0 == k,
        r.times@.len() == r.keys@.len(),
        forall|i: int, e: int|
            0 <= i < r.keys@.len() && 0 <= e < entries.len() && (#[trigger] entries[e]).0
                == r.keys@[i] ==> exists|f: int|
                0 <= f < entries.len() && (#[trigger] entries[f]).0 == r.keys@[i]
                    && entries[f].1.millis <= entries[e].1.millis && entries[f].1.millis
                    <= #[trigger] r.times@[i],
        forall|i: int|
            0 <= i < r.keys@.len() ==> exists|e: int|
                0 <= e < entries.len() && (#[trigger] entries[e]).0 <= r.keys@[i]
                    && entries[e].1.millis == #[trigger] r.times@[i],
        forall|i: int, j: int|
            0 <= i <= j < r.times@.len() ==> (#[trigger] r.times@[i]) <= (#[trigger] r.times@[j]),
        r.keys@.len() > 0 ==> {
            &&& r.first.millis == r.times@[0]
            &&& r.last.millis == r.times@.last()
            &&& r.last.millis - r.first.millis <= i64::MAX ==> r.span_ms == r.last.millis
                - r.first.millis
            &&& r.old_town == r.times@.filter(
                |t: i64| t - r.times@[0] <= 31_556_952_000,
            ).len()
            &&& r.kind == AgeRampKind::Uniform <==> r.last.millis == r.first.millis
            &&& r.kind == AgeRampKind::Calibrated <==> r.last.millis - r.first.millis
                >= 31_556_952_000
        },
        r.keys@.len() == 0 ==> r.first.millis == 0 && r.last.millis == 0 && r.span_ms == 0
            && r.old_town == 0 && r.kind == AgeRampKind::Uniform,
{
    let keys = r.keys@;
    assert forall|k: u32| #[trigger] keys.contains(k) <==> k != u32::MAX && exists|i: int|
        0 <= i < entries.len() && (#[trigger] entries[i]).0 == k by {
        if k == u32::MAX {
            no_place_no_time(entries, entries.len());
        } else {
            added_at_is_least(entries, k, entries.len());
        }
    }
    assert forall|i: int| 0 <= i < keys.len() implies (#[trigger] added_at(entries, keys[i])) is Some
        && i64::MIN <= added_at(entries, keys[i])->0 by {
        assert(keys.contains(keys[i]));
        added_at_is_least(entries, keys[i], entries.len());
    }
    assert forall|i: int, e: int|
        0 <= i < keys.len() && 0 <= e < entries.len() && (#[trigger] entries[e]).0
            == keys[i] implies exists|f: int|
        0 <= f < entries.len() && (#[trigger] entries[f]).0 == keys[i] && entries[f].1.millis
            <= entries[e].1.millis && entries[f].1.millis <= #[trigger] r.times@[i] by {
        assert(keys.contains(keys[i]));
        added_at_is_least(entries, keys[i], entries.len());
        latest_is_greatest(entries, keys, (i + 1) as nat);
        let t = added_at(entries, keys[i])->0;
        assert(r.times@[i] == latest_upto(entries, keys, (i + 1) as nat));
        let f = choose|f: int|
            0 <= f < entries.len() && (#[trigger] entries[f]).0 == keys[i] && entries[f].1.millis
                == t;
        assert(entries[f].1.millis <= r.times@[i]);
    }
    assert forall|i: int| 0 <= i < keys.len() implies exists|e: int|
        0 <= e < entries.len() && (#[trigger] entries[e]).0 <= keys[i] && entries[e].1.millis
            == #[trigger] r.times@[i] by {
        latest_is_greatest(entries, keys, (i + 1) as nat);
        assert(r.times@[i] == latest_upto(entries, keys, (i + 1) as nat));
        let j = choose|j: int|
            0 <= j < i + 1 && #[trigger] added_at(entries, keys[j]) == Some(
                latest_upto(entries, keys, (i + 1) as nat),
            );
        assert(keys.contains(keys[j]));
        added_at_is_least(entries, keys[j], entries.len());
        let t = added_at(entries, keys[j])->0;
        let e = choose|e: int|
            0 <= e < entries.len() && (#[trigger] entries[e]).0 == keys[j] && entries[e].1.millis
                == t;
        if j < i {
            assert(keys[j] < keys[i]);
        }
        assert(entries[e].0 <= keys[i]);
    }
    if keys.len() > 0 {
        assert forall|i: int| 0 <= i < r.times@.len() implies r.times@[0]
            <= #[trigger] r.times@[i] by {}
        year_upto(r.times@, r.times@.len());
        take_all(r.times@);
        assert(r.times@[0] <= r.times@[r.times@.len() - 1]);
    }
}

/// A growth index is read at its own place in the table, by how long after the first file
/// it was there; an empty table puts all ground in the middle.
pub proof fn ground_is_read_off_the_table(r: AgeRamp, i: int)
    requires
        ramp_ok(r),
    ensures
        r.keys@.len() == 0 ==> forall|k: u32| #[trigger] age_at(r, k) == 2_048,
        0 <= i < r.keys@.len() && r.times@[i] - r.times@[0] <= i64::MAX ==> age_at(r, r.keys@[i])
            == age_steps(r.times@[i] - r.times@[0], r.span_ms as int),
        newest_age(r) == age_steps(r.span_ms as int, r.span_ms as int),
{
    if 0 <= i < r.keys@.len() {
        let k = r.keys@[i];
        assert(r.keys@.contains(k));
        let j = r.keys@.index_of(k);
        assert(r.keys@[j] == k);
        if i < j {
            assert(r.keys@[i] < r.keys@[j]);
        }
        if j < i {
            assert(r.keys@[j] < r.keys@[i]);
        }
        assert(r.times@[0] <= r.times@[i]);
    }
}

} // verus!
