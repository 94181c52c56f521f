//! Wall-clock times: reading them from text, and placing old records on the
//! clock of the process.
use vstd::prelude::*;
use vstd::string::StringSliceAdditionalSpecFns;

verus! {

/// A moment of the wall clock, in milliseconds since 1970 in UTC.
#[derive(Debug, Clone, Copy, PartialEq, Eq, PartialOrd, Ord, Hash, Structural)]
pub struct WallTime {
    /// Milliseconds since 1970 in UTC.
    pub millis: i64,
}

impl WallTime {
    /// The moment so many milliseconds after 1970.
    pub fn from_unix_millis(millis: i64) -> (r: WallTime)
        ensures
            r.millis == millis,
    {
        WallTime { millis }
    }

    /// Milliseconds since 1970.
    pub fn unix_millis(self) -> (r: i64)
        ensures
            r == self.millis,
    {
        self.millis
    }
}

/// Is the byte an ASCII digit?
pub open spec fn is_digit(b: u8) -> bool {
    48 <= b <= 57
}

/// Is every byte an ASCII digit?
pub open spec fn all_digits(b: Seq<u8>) -> bool {
    forall|i: int| 0 <= i < b.len() ==> is_digit(#[trigger] b[i])
}

/// The number that a run of digits writes.
pub open spec fn digits_value(b: Seq<u8>) -> int
    decreases b.len(),
{
    if b.len() == 0 {
        0
    } else {
        digits_value(b.drop_last()) * 10 + (b.last() - 48)
    }
}

/// A run of digits has no negative value, and no prefix of it a larger one.
proof fn digits_value_grows(b: Seq<u8>, n: int)
    requires
        all_digits(b),
        0 <= n <= b.len(),
    ensures
        0 <= digits_value(b.subrange(0, n)) <= digits_value(b),
    decreases b.len(),
{
    if b.len() == 0 {
        assert(b.subrange(0, n) =~= b);
    } else {
        assert(all_digits(b.drop_last()));
        assert(is_digit(b.last()));
        digits_value_grows(b.drop_last(), 0);
        assert(b.drop_last().subrange(0, 0) =~= Seq::<u8>::empty());
        if n == b.len() {
            assert(b.subrange(0, n) =~= b);
        } else {
            digits_value_grows(b.drop_last(), n);
            assert(b.drop_last().subrange(0, n) =~= b.subrange(0, n));
        }
    }
}

/// The number that a run of bytes writes, where every one is a digit and it fits.
pub open spec fn number_of(b: Seq<u8>) -> Option<int> {
    if b.len() > 0 && all_digits(b) && digits_value(b) <= i64::MAX {
        Some(digits_value(b))
    } else {
        None
    }
}

/// An optional integer, as a number.
pub open spec fn opt_int(n: Option<i64>) -> Option<int> {
    match n {
        Some(v) => Some(v as int),
        None => None,
    }
}

/// The number that a run of bytes writes, where every one is a digit and it fits.
pub fn ascii_num(b: &[u8]) -> (r: Option<i64>)
    ensures
        opt_int(r) == number_of(b@),
{
    if b.len() == 0 {
        return None;
    }
    let mut n: i64 = 0;
    let mut i: usize = 0;
    while i < b.len()
        invariant
            i <= b.len(),
            all_digits(b@.subrange(0, i as int)),
            n == digits_value(b@.subrange(0, i as int)),
            0 <= n,
        decreases b.len() - i,
    {
        if !(48 <= b[i] && b[i] <= 57) {
            assert(!is_digit(b@[i as int]));
            return None;
        }
        let ghost next = b@.subrange(0, i + 1);
        assert(next.drop_last() =~= b@.subrange(0, i as int));
        assert(all_digits(next)) by {
            assert forall|k: int| 0 <= k < next.len() implies is_digit(#[trigger] next[k]) by {
                if k < i {
                    assert(b@.subrange(0, i as int)[k] == next[k]);
                }
            }
        }
        let d: i64 = (b[i] - 48) as i64;
        if n > (0x7fff_ffff_ffff_ffff - d) / 10 {
            proof {
                assert(digits_value(next) > i64::MAX);
                if all_digits(b@) {
                    digits_value_grows(b@, i + 1);
                }
            }
            return None;
        }
        n = n * 10 + d;
        i = i + 1;
    }
    assert(b@.subrange(0, b@.len() as int) =~= b@);
    Some(n)
}

/// How many leading bytes are digits.
pub open spec fn digit_run(b: Seq<u8>) -> int
    decreases b.len(),
{
    if b.len() > 0 && is_digit(b[0]) {
        1 + digit_run(b.drop_first())
    } else {
        0
    }
}

/// A run of digits lies within its text.
pub proof fn digit_run_bounds(b: Seq<u8>)
    ensures
        0 <= digit_run(b) <= b.len(),
        forall|i: int| 0 <= i < digit_run(b) ==> is_digit(#[trigger] b[i]),
        digit_run(b) < b.len() ==> !is_digit(b[digit_run(b)]),
    decreases b.len(),
{
    if b.len() > 0 && is_digit(b[0]) {
        digit_run_bounds(b.drop_first());
        assert forall|i: int| 0 <= i < digit_run(b) implies is_digit(#[trigger] b[i]) by {
            if i > 0 {
                assert(b.drop_first()[i - 1] == b[i]);
            }
        }
    }
}

/// The digit at a place of a fraction; zero past its end.
pub open spec fn fraction_digit(b: Seq<u8>, i: int) -> int {
    if i < digit_run(b) {
        b[i] - 48
    } else {
        0
    }
}

/// The milliseconds of a fraction of a second: its first three digits.
pub open spec fn fraction_millis(b: Seq<u8>) -> int {
    fraction_digit(b, 0) * 100 + fraction_digit(b, 1) * 10 + fraction_digit(b, 2)
}

/// The milliseconds that a text opens with, where it opens with a point, and
/// what follows the fraction.
pub open spec fn fraction_of(b: Seq<u8>) -> (int, Seq<u8>) {
    if b.len() > 0 && b[0] == 46 {
        let digits = b.drop_first();
        (fraction_millis(digits), digits.skip(digit_run(digits)))
    } else {
        (0, b)
    }
}

/// The milliseconds that a text opens with, and what follows the fraction.
pub fn fractional_millis(b: &[u8]) -> (r: (i64, &[u8]))
    ensures
        r.0 == fraction_of(b@).0,
        r.1@ == fraction_of(b@).1,
        0 <= r.0 <= 999,
{
    if b.len() == 0 || b[0] != 46 {
        return (0, b);
    }
    let ghost digits = b@.drop_first();
    proof {
        digit_run_bounds(digits);
    }
    let mut millis: i64 = 0;
    let mut scale: i64 = 100;
    let mut i: usize = 1;
    while i < b.len() && 48 <= b[i] && b[i] <= 57
        invariant
            1 <= i <= b.len(),
            digits == b@.drop_first(),
            0 <= digit_run(digits) <= digits.len(),
            i - 1 <= digit_run(digits),
            digit_run(digits) < digits.len() ==> !is_digit(digits[digit_run(digits)]),
            forall|k: int| 0 <= k < digit_run(digits) ==> is_digit(#[trigger] digits[k]),
            i == 1 ==> scale == 100 && millis == 0,
            i == 2 ==> scale == 10 && millis == fraction_digit(digits, 0) * 100,
            i == 3 ==> scale == 1 && millis == fraction_digit(digits, 0) * 100 + fraction_digit(
                digits,
                1,
            ) * 10,
            i > 3 ==> scale == 0 && millis == fraction_millis(digits),
        decreases b.len() - i,
    {
        assert(digits[i - 1] == b@[i as int]);
        if i <= 4 {
            assert(i - 1 < digit_run(digits));
        }
        if scale > 0 {
            millis = millis + ((b[i] - 48) as i64) * scale;
            scale = scale / 10;
        }
        i = i + 1;
    }
    proof {
        if i < b.len() {
            assert(digits[i - 1] == b@[i as int]);
        }
        assert(i - 1 == digit_run(digits));
        assert(digits.skip(digit_run(digits)) =~= b@.subrange(i as int, b@.len() as int));
    }
    (millis, vstd::slice::slice_subrange(b, i, b.len()))
}

/// The offset that a sign and two numbers of two digits give, in seconds.
pub open spec fn offset_of(sign: u8, hours: Seq<u8>, minutes: Seq<u8>) -> Option<int> {
    if !all_digits(hours) || !all_digits(minutes) {
        None
    } else {
        let seconds = digits_value(hours) * 3600 + digits_value(minutes) * 60;
        Some(
            if sign == 45 {
                -seconds
            } else {
                seconds
            },
        )
    }
}

/// The zone at the end of a time, in seconds east of UTC: nothing and `Z` are UTC, and
/// a sign is followed by hours and minutes, two digits each, with a colon between them
/// or nothing.
pub open spec fn zone_of(b: Seq<u8>) -> Option<int> {
    if b.len() == 0 {
        Some(0)
    } else if (b[0] == 90 || b[0] == 122) && b.len() == 1 {
        Some(0)
    } else if b[0] != 43 && b[0] != 45 {
        None
    } else if b.len() == 5 {
        offset_of(b[0], b.subrange(1, 3), b.subrange(3, 5))
    } else if b.len() == 6 && b[3] == 58 {
        offset_of(b[0], b.subrange(1, 3), b.subrange(4, 6))
    } else {
        None
    }
}

proof fn two_digits(d: Seq<u8>, i: int)
    requires
        0 <= i,
        i + 2 <= d.len(),
        is_digit(d[i]),
        is_digit(d[i + 1]),
    ensures
        all_digits(d.subrange(i, i + 2)),
        digits_value(d.subrange(i, i + 2)) == (d[i] - 48) * 10 + (d[i + 1] - 48),
{
    let s = d.subrange(i, i + 2);
    reveal_with_fuel(digits_value, 3);
    assert(s.drop_last().drop_last() =~= Seq::<u8>::empty());
    assert(s.drop_last() =~= seq![d[i]]);
}

/// The zone at the end of a time, in seconds east of UTC.
pub fn zone_offset_seconds(b: &[u8]) -> (r: Option<i64>)
    ensures
        opt_int(r) == zone_of(b@),
        r matches Some(s) ==> -400_000 <= s <= 400_000,
{
    if b.len() == 0 {
        return Some(0);
    }
    if (b[0] == 90 || b[0] == 122) && b.len() == 1 {
        return Some(0);
    }
    if b[0] != 43 && b[0] != 45 {
        return None;
    }
    let at: usize = if b.len() == 5 {
        3
    } else if b.len() == 6 && b[3] == 58 {
        4
    } else {
        return None;
    };
    if !is_digit_byte(b[1]) || !is_digit_byte(b[2]) {
        assert(!is_digit(b@.subrange(1, 3)[0]) || !is_digit(b@.subrange(1, 3)[1]));
        return None;
    }
    if !is_digit_byte(b[at]) || !is_digit_byte(b[at + 1]) {
        assert(!is_digit(b@.subrange(at as int, at + 2)[0]) || !is_digit(
            b@.subrange(at as int, at + 2)[1],
        ));
        return None;
    }
    proof {
        two_digits(b@, 1);
        two_digits(b@, at as int);
    }
    let h: i64 = (b[1] - 48) as i64 * 10 + (b[2] - 48) as i64;
    let m: i64 = (b[at] - 48) as i64 * 10 + (b[at + 1] - 48) as i64;
    let seconds: i64 = h * 3600 + m * 60;
    if b[0] == 45 {
        Some(-seconds)
    } else {
        Some(seconds)
    }
}

fn is_digit_byte(x: u8) -> (r: bool)
    ensures
        r == is_digit(x),
{
    48 <= x && x <= 57
}

/// A leap year of the Gregorian calendar.
pub open spec fn is_leap(y: int) -> bool {
    y % 4 == 0 && (y % 100 != 0 || y % 400 == 0)
}

/// Days of the year that lie before a month begins.
pub open spec fn days_before_month(y: int, m: int) -> int {
    let leap = if is_leap(y) {
        1int
    } else {
        0
    };
    if m == 1 {
        0
    } else if m == 2 {
        31
    } else if m == 3 {
        59 + leap
    } else if m == 4 {
        90 + leap
    } else if m == 5 {
        120 + leap
    } else if m == 6 {
        151 + leap
    } else if m == 7 {
        181 + leap
    } else if m == 8 {
        212 + leap
    } else if m == 9 {
        243 + leap
    } else if m == 10 {
        273 + leap
    } else if m == 11 {
        304 + leap
    } else {
        334 + leap
    }
}

/// Days from the first of January of year one to that of a year.
pub open spec fn days_before_year(y: int) -> int {
    365 * (y - 1) + (y - 1) / 4 - (y - 1) / 100 + (y - 1) / 400
}

/// The day of the Gregorian calendar, counted from the first of January 1970.
pub open spec fn civil_day(y: int, m: int, d: int) -> int {
    days_before_year(y) + days_before_month(y, m) + (d - 1) - days_before_year(1970)
}

/// A quotient grows by one where the next number is a multiple.
proof fn quotient_step(y: int, d: int)
    requires
        d == 4 || d == 100 || d == 400,
    ensures
        y / d - (y - 1) / d == if y % d == 0 {
            1int
        } else {
            0
        },
{
    if d == 4 {
        assert(y / 4 - (y - 1) / 4 == if y % 4 == 0 { 1int } else { 0 });
    } else if d == 100 {
        assert(y / 100 - (y - 1) / 100 == if y % 100 == 0 { 1int } else { 0 });
    } else {
        assert(y / 400 - (y - 1) / 400 == if y % 400 == 0 { 1int } else { 0 });
    }
}

/// A multiple of a product is a multiple of its factors.
proof fn leap_multiples(y: int)
    ensures
        y % 100 == 0 ==> y % 4 == 0,
        y % 400 == 0 ==> y % 100 == 0,
{
}

/// A year is as long as the calendar says.
pub proof fn year_length(y: int)
    ensures
        days_before_year(y + 1) - days_before_year(y) == 365 + if is_leap(y) {
            1int
        } else {
            0
        },
{
    quotient_step(y, 4);
    quotient_step(y, 100);
    quotient_step(y, 400);
    leap_multiples(y);
    let (a, b, c) = (y / 4, y / 100, y / 400);
    let (p, q, r) = ((y - 1) / 4, (y - 1) / 100, (y - 1) / 400);
    assert(days_before_year(y + 1) == 365 * y + a - b + c);
    assert(days_before_year(y) == 365 * (y - 1) + p - q + r);
}

proof fn era_days(y: int, era: int, yoe: int)
    requires
        y == 400 * era + yoe,
        0 <= yoe < 400,
    ensures
        days_before_year(y + 1) == 146_097 * era + 365 * yoe + yoe / 4 - yoe / 100,
{
    assert(y / 4 == 100 * era + yoe / 4);
    assert(y / 100 == 4 * era + yoe / 100);
    assert(y / 400 == era);
}

/// The months of a year that begins in March.
proof fn month_days(y: int, m: int)
    requires
        1 <= m <= 12,
    ensures
        m >= 3 ==> (153 * ((m + 9) % 12) + 2) / 5 == days_before_month(y, m) - days_before_month(
            y,
            3,
        ),
        m <= 2 ==> (153 * ((m + 9) % 12) + 2) / 5 == 306 + days_before_month(y, m),
{
    assert(m == 1 || m == 2 || m == 3 || m == 4 || m == 5 || m == 6 || m == 7 || m == 8 || m == 9
        || m == 10 || m == 11 || m == 12);
}

/// A quotient, rounded towards zero.
pub open spec fn quotient(a: int, b: int) -> int {
    if a >= 0 {
        a / b
    } else {
        -((-a) / b)
    }
}

/// What a quotient that is rounded towards zero leaves over.
pub open spec fn leftover(a: int, b: int) -> int {
    a - b * quotient(a, b)
}

/// The day that a year, a month and a day name, counted from the first of January 1970,
/// for any numbers: the months are counted in a year that begins in March, and those
/// outside the calendar wrap round without moving the year.
pub open spec fn day_number(y: int, m: int, d: int) -> int {
    let year = if m <= 2 {
        y - 1
    } else {
        y
    };
    let month = leftover(m + 9, 12);
    days_before_year(year + 1) + quotient(153 * month + 2, 5) + (d - 1) - 719_468
}

/// A count of days, as far as a number of its width goes.
pub open spec fn clamped(n: int) -> int {
    if n > i64::MAX {
        i64::MAX as int
    } else if n < i64::MIN {
        i64::MIN as int
    } else {
        n
    }
}

/// For the months of the calendar the day is that of the calendar.
pub proof fn months_follow_the_calendar(y: int, m: int, d: int)
    requires
        1 <= m <= 12,
    ensures
        day_number(y, m, d) == civil_day(y, m, d),
{
    month_days(y, m);
    year_length(y);
    assert(leftover(m + 9, 12) == (m + 9) % 12);
}

/// The day that a year, a month and a day name, counted from the first of January 1970,
/// as far as a number goes. Every input has one.
pub fn days_from_civil(year: i64, month: i64, day: i64) -> (r: i64)
    ensures
        r == clamped(day_number(year as int, month as int, day as int)),
        1 <= month <= 12 ==> r == clamped(civil_day(year as int, month as int, day as int)),
{
    let y: i128 = if month <= 2 {
        year as i128 - 1
    } else {
        year as i128
    };
    let era: i128 = if y >= 0 {
        y / 400
    } else {
        -((399 - y) / 400)
    };
    assert(era == (y as int) / 400);
    let yoe: i128 = y - era * 400;
    assert(0 <= yoe < 400);
    let ahead: i128 = month as i128 + 9;
    let mp: i128 = if ahead >= 0 {
        ahead % 12
    } else {
        -((-ahead) % 12)
    };
    assert(mp == leftover(month + 9, 12));
    let before: i128 = 153 * mp + 2;
    let months: i128 = if before >= 0 {
        before / 5
    } else {
        -((-before) / 5)
    };
    let n: i128 = era * 146_097 + yoe * 365 + yoe / 4 - yoe / 100 + months + (day as i128 - 1)
        - 719_468;
    proof {
        era_days(y as int, era as int, yoe as int);
        if 1 <= month <= 12 {
            months_follow_the_calendar(year as int, month as int, day as int);
        }
        assert(n == day_number(year as int, month as int, day as int));
    }
    if n > 0x7fff_ffff_ffff_ffff {
        i64::MAX
    } else if n < -0x8000_0000_0000_0000 {
        i64::MIN
    } else {
        n as i64
    }
}

/// Bytes `i` up to `j` as a number.
pub open spec fn part(b: Seq<u8>, i: int, j: int) -> Option<int> {
    number_of(b.subrange(i, j))
}

/// Is the text laid out as a date and a time?
pub open spec fn stamp_laid_out(b: Seq<u8>) -> bool {
    &&& b.len() >= 19
    &&& b[4] == 45 && b[7] == 45 && b[13] == 58 && b[16] == 58
    &&& b[10] == 84 || b[10] == 116 || b[10] == 32
    &&& part(b, 0, 4) is Some && part(b, 5, 7) is Some && part(b, 8, 10) is Some
    &&& part(b, 11, 13) is Some && part(b, 14, 16) is Some && part(b, 17, 19) is Some
    &&& 1 <= part(b, 5, 7)->0 <= 12
    &&& 1 <= part(b, 8, 10)->0 <= 31
    &&& part(b, 11, 13)->0 <= 23
    &&& part(b, 14, 16)->0 <= 59
    &&& part(b, 17, 19)->0 <= 60
    &&& zone_of(fraction_of(b.skip(19)).1) is Some
}

/// The moment that a text laid out as `YYYY-MM-DDThh:mm:ss`, with an optional
/// fraction and zone, names, in milliseconds since 1970.
pub open spec fn stamp_millis(b: Seq<u8>) -> Option<int> {
    if stamp_laid_out(b) {
        let seconds = civil_day(part(b, 0, 4)->0, part(b, 5, 7)->0, part(b, 8, 10)->0) * 86_400
            + part(b, 11, 13)->0 * 3600 + part(b, 14, 16)->0 * 60 + part(b, 17, 19)->0 - zone_of(
            fraction_of(b.skip(19)).1,
        )->0;
        Some(seconds * 1000 + fraction_of(b.skip(19)).0)
    } else {
        None
    }
}

/// The moment that a text names, if it is laid out as one.
pub open spec fn stamp_of(text: Seq<char>) -> Option<int> {
    stamp_millis(vstd::utf8::encode_utf8(text))
}

/// An optional moment, in milliseconds.
pub open spec fn opt_millis(w: Option<WallTime>) -> Option<int> {
    match w {
        Some(t) => Some(t.millis as int),
        None => None,
    }
}

proof fn number_small(b: Seq<u8>)
    requires
        number_of(b) is Some,
        b.len() <= 4,
    ensures
        0 <= number_of(b)->0 <= 9999,
{
    reveal_with_fuel(digits_value, 6);
    assert forall|i: int| 0 <= i < b.len() implies is_digit(#[trigger] b[i]) by {}
    digits_value_grows(b, 0);
    assert(b.subrange(0, 0) =~= Seq::<u8>::empty());
    if b.len() == 4 {
        let c = b.drop_last();
        let d = c.drop_last();
        let e = d.drop_last();
        assert(e.drop_last() =~= Seq::<u8>::empty());
        assert(is_digit(b[3]) && is_digit(b[2]) && is_digit(b[1]) && is_digit(b[0]));
    } else if b.len() == 3 {
        let c = b.drop_last();
        let d = c.drop_last();
        assert(d.drop_last() =~= Seq::<u8>::empty());
        assert(is_digit(b[2]) && is_digit(b[1]) && is_digit(b[0]));
    } else if b.len() == 2 {
        assert(b.drop_last().drop_last() =~= Seq::<u8>::empty());
        assert(is_digit(b[1]) && is_digit(b[0]));
    } else if b.len() == 1 {
        assert(b.drop_last() =~= Seq::<u8>::empty());
        assert(is_digit(b[0]));
    }
}

fn part_of(b: &[u8], i: usize, j: usize) -> (r: Option<i64>)
    requires
        i <= j <= b.len(),
        j - i <= 4,
    ensures
        opt_int(r) == part(b@, i as int, j as int),
        r matches Some(n) ==> 0 <= n <= 9999,
{
    let r: Option<i64> = ascii_num(vstd::slice::slice_subrange(b, i, j));
    proof {
        if r is Some {
            number_small(b@.subrange(i as int, j as int));
        }
    }
    r
}

/// The moment that a text names, if it is laid out as one.
pub fn parse_timestamp(text: &str) -> (r: Option<WallTime>)
    ensures
        opt_millis(r) == stamp_of(text@),
{
    let b: &[u8] = text.as_bytes();
    if b.len() < 19 || b[4] != 45 || b[7] != 45 || b[13] != 58 || b[16] != 58 {
        return None;
    }
    if b[10] != 84 && b[10] != 116 && b[10] != 32 {
        return None;
    }
    let year: i64 = match part_of(b, 0, 4) {
        Some(n) => n,
        None => return None,
    };
    let month: i64 = match part_of(b, 5, 7) {
        Some(n) => n,
        None => return None,
    };
    let day: i64 = match part_of(b, 8, 10) {
        Some(n) => n,
        None => return None,
    };
    let hour: i64 = match part_of(b, 11, 13) {
        Some(n) => n,
        None => return None,
    };
    let minute: i64 = match part_of(b, 14, 16) {
        Some(n) => n,
        None => return None,
    };
    let second: i64 = match part_of(b, 17, 19) {
        Some(n) => n,
        None => return None,
    };
    if month < 1 || month > 12 || day < 1 || day > 31 {
        return None;
    }
    if hour > 23 || minute > 59 || second > 60 {
        return None;
    }
    let (millis, rest) = fractional_millis(vstd::slice::slice_subrange(b, 19, b.len()));
    assert(b@.skip(19) =~= b@.subrange(19, b@.len() as int));
    let zone: i64 = match zone_offset_seconds(rest) {
        Some(n) => n,
        None => return None,
    };
    let days: i64 = days_from_civil(year, month, day);
    assert(-800_000 <= days <= 4_000_000);
    let seconds: i64 = days * 86_400 + (hour * 3600 + minute * 60 + second) - zone;
    Some(WallTime::from_unix_millis(seconds * 1000 + millis))
}

proof fn digits_fold(b: Seq<u8>)
    ensures
        digits_value(b) == b.fold_left(0int, |n: int, x: u8| n * 10 + (x - 48)),
    decreases b.len(),
{
    if b.len() > 0 {
        digits_fold(b.drop_last());
    }
}

/// A number is one or more digits and nothing else, read from the left, ten times what
/// came before and the digit; one that does not fit is none.
pub proof fn numbers_are_read_from_the_left(b: Seq<u8>)
    ensures
        ({
            let value = b.fold_left(0int, |n: int, x: u8| n * 10 + (x - 48));
            number_of(b) == if b.len() > 0 && (forall|i: int|
                0 <= i < b.len() ==> 48 <= #[trigger] b[i] <= 57) && value
                <= 9_223_372_036_854_775_807 {
                Some(value)
            } else {
                None
            }
        }),
{
    digits_fold(b);
    if forall|i: int| 0 <= i < b.len() ==> 48 <= #[trigger] b[i] <= 57 {
        assert(all_digits(b));
    }
    if all_digits(b) {
        assert forall|i: int| 0 <= i < b.len() implies 48 <= #[trigger] b[i] <= 57 by {
            assert(is_digit(b[i]));
        }
    }
}

proof fn run_of_digits(b: Seq<u8>, n: int)
    requires
        0 <= n <= b.len(),
        forall|i: int| 0 <= i < n ==> 48 <= #[trigger] b[i] <= 57,
        n < b.len() ==> !(48 <= b[n] <= 57),
    ensures
        digit_run(b) == n,
    decreases n,
{
    if n > 0 {
        let rest = b.drop_first();
        assert forall|i: int| 0 <= i < n - 1 implies 48 <= #[trigger] rest[i] <= 57 by {
            assert(rest[i] == b[i + 1]);
        }
        assert(48 <= b[0] <= 57);
        run_of_digits(rest, n - 1);
    }
}

/// A fraction is a point and the digits behind it: the first three are milliseconds, a
/// place that is missing counts as zero, further digits count for nothing, and all of
/// them are passed over. Without a point there is no fraction and nothing is passed over.
pub proof fn fractions_are_read_to_the_millisecond(b: Seq<u8>, n: int)
    requires
        b.len() > 0 && b[0] == 46 ==> {
            &&& 0 <= n < b.len()
            &&& forall|i: int| 1 <= i <= n ==> 48 <= #[trigger] b[i] <= 57
            &&& n + 1 < b.len() ==> !(48 <= b[n + 1] <= 57)
        },
    ensures
        b.len() > 0 && b[0] == 46 ==> {
            let place = |i: int|
                if i <= n {
                    b[i] - 48
                } else {
                    0
                };
            &&& fraction_of(b).0 == place(1) * 100 + place(2) * 10 + place(3)
            &&& fraction_of(b).1 == b.skip(n + 1)
        },
        b.len() == 0 || b[0] != 46 ==> fraction_of(b).0 == 0 && fraction_of(b).1 == b,
{
    if b.len() > 0 && b[0] == 46 {
        let digits = b.drop_first();
        assert forall|i: int| 0 <= i < n implies 48 <= #[trigger] digits[i] <= 57 by {
            assert(digits[i] == b[i + 1]);
        }
        if n < digits.len() {
            assert(digits[n] == b[n + 1]);
        }
        run_of_digits(digits, n);
        assert(digits.skip(n) =~= b.skip(n + 1));
        assert forall|i: int| 0 <= i < n implies #[trigger] digits[i] == b[i + 1] by {}
    }
}

/// A zone is nothing or a `Z` for UTC, or a sign, two digits of hours and two of minutes
/// with a colon between them or not; a zone west of Greenwich lies behind. Anything
/// else is none.
pub proof fn zones_are_hours_and_minutes(b: Seq<u8>)
    ensures
        ({
            let digit = |i: int| 48 <= b[i] <= 57;
            let two = |i: int| (b[i] - 48) * 10 + (b[i + 1] - 48);
            let signed = |s: int|
                if b[0] == 45 {
                    0 - s
                } else {
                    s
                };
            let sign = b[0] == 43 || b[0] == 45;
            zone_of(b) == if b.len() == 0 || (b.len() == 1 && (b[0] == 90 || b[0] == 122)) {
                Some(0int)
            } else if b.len() == 5 && sign && digit(1) && digit(2) && digit(3) && digit(4) {
                Some(signed(two(1) * 3600 + two(3) * 60))
            } else if b.len() == 6 && sign && b[3] == 58 && digit(1) && digit(2) && digit(4)
                && digit(5) {
                Some(signed(two(1) * 3600 + two(4) * 60))
            } else {
                None
            }
        }),
{
    if b.len() == 5 {
        pair_of_digits(b, 1);
        pair_of_digits(b, 3);
    }
    if b.len() == 6 {
        pair_of_digits(b, 1);
        pair_of_digits(b, 4);
    }
}

proof fn pair_of_digits(b: Seq<u8>, i: int)
    requires
        0 <= i,
        i + 2 <= b.len(),
    ensures
        all_digits(b.subrange(i, i + 2)) <==> 48 <= b[i] <= 57 && 48 <= b[i + 1] <= 57,
        digits_value(b.subrange(i, i + 2)) == (b[i] - 48) * 10 + (b[i + 1] - 48),
{
    let p = b.subrange(i, i + 2);
    assert(p[0] == b[i] && p[1] == b[i + 1]);
    if all_digits(p) {
        assert(is_digit(p[0]) && is_digit(p[1]));
    }
    assert(p.drop_last().drop_last().len() == 0);
    assert(digits_value(p.drop_last().drop_last()) == 0);
    assert(digits_value(p.drop_last()) == p[0] - 48);
}

/// The calendar goes day by day: a day follows the one before, the first of a month follows
/// the last of the month before, the first of January the last of December, and the
/// count begins on the first of January 1970. Months have their thirty or thirty-one
/// days and February has twenty-eight, one more in every fourth year but for three
/// centuries in four.
pub proof fn days_follow_one_another(y: int, m: int, d: int)
    requires
        1 <= m <= 12,
    ensures
        civil_day(1970, 1, 1) == 0,
        civil_day(y, m, d + 1) == civil_day(y, m, d) + 1,
        m < 12 ==> civil_day(y, m + 1, 1) == civil_day(y, m, 1) + if m == 2 {
            if y % 4 == 0 && (y % 100 != 0 || y % 400 == 0) {
                29int
            } else {
                28
            }
        } else if m == 4 || m == 6 || m == 9 || m == 11 {
            30
        } else {
            31
        },
        civil_day(y + 1, 1, 1) == civil_day(y, 12, 31) + 1,
{
    year_length(y);
}

/// A month beyond the twelfth is counted in the same year as the one twelve before it, and
/// one before the first in the year before as the one twelve behind it. A count past
/// what its number holds stands at the end of it.
pub proof fn other_months_wrap_round(y: int, m: int, d: int, n: int)
    ensures
        m >= 3 ==> day_number(y, m + 12, d) == day_number(y, m, d),
        -9 <= m <= 0 ==> day_number(y, m, d) == day_number(y - 1, m + 12, d),
        clamped(n) == if n > 9_223_372_036_854_775_807 {
            9_223_372_036_854_775_807
        } else if n < -9_223_372_036_854_775_808 {
            -9_223_372_036_854_775_808
        } else {
            n
        },
{
    if m >= 3 {
        let a = m + 9;
        vstd::arithmetic::div_mod::lemma_fundamental_div_mod(a, 12);
        vstd::arithmetic::div_mod::lemma_fundamental_div_mod(a + 12, 12);
        vstd::arithmetic::div_mod::lemma_mod_add_multiples_vanish(a, 12);
    }
}

/// A moment is a date, a `T`, a `t` or a space, and a time of day, each part in its place
/// and within the calendar; a fraction and a zone may follow. It is counted from 1970 in
/// milliseconds, less what the zone is ahead of UTC.
pub proof fn a_moment_is_its_parts(text: Seq<char>)
    ensures
        ({
            let b = vstd::utf8::encode_utf8(text);
            let year = number_of(b.subrange(0, 4));
            let month = number_of(b.subrange(5, 7));
            let day = number_of(b.subrange(8, 10));
            let hour = number_of(b.subrange(11, 13));
            let minute = number_of(b.subrange(14, 16));
            let second = number_of(b.subrange(17, 19));
            let (millis, zone) = (fraction_of(b.skip(19)).0, zone_of(fraction_of(b.skip(19)).1));
            stamp_of(text) == if b.len() >= 19 && b[4] == 45 && b[7] == 45 && b[13] == 58 && b[16]
                == 58 && (b[10] == 84 || b[10] == 116 || b[10] == 32) && year is Some
                && month is Some && day is Some && hour is Some && minute is Some && second is Some
                && 1 <= month->0 <= 12 && 1 <= day->0 <= 31 && hour->0 < 24 && minute->0 < 60
                && second->0 <= 60 && zone is Some {
                Some(
                    civil_day(year->0, month->0, day->0) * 86_400_000 + hour->0 * 3_600_000
                        + minute->0 * 60_000 + second->0 * 1_000 + millis - zone->0 * 1_000,
                )
            } else {
                None
            }
        }),
{
}

/// An optional moment is shown as its milliseconds.
pub proof fn moments_are_shown_in_milliseconds(w: Option<WallTime>)
    ensures
        w is None ==> opt_millis(w) is None,
        w is Some ==> opt_millis(w) == Some(w->0.millis as int),
{
}

} // verus!
