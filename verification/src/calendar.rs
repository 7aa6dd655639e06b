//! Proleptic Gregorian calendar arithmetic: turning a count of days since the
//! Unix epoch into a `(year, month, day)` date, and rendering UTC dates.

use vstd::prelude::*;

verus! {

// ---------------------------------------------------------------------------
// The calendar, stated directly
// ---------------------------------------------------------------------------

/// Whether `year` (astronomical numbering: year 0 is 1 BC) is a leap year.
pub open spec fn is_leap_year(year: int) -> bool {
    (year % 4 == 0 && year % 100 != 0) || year % 400 == 0
}

/// The number of days in `month` (1 = January) of `year`.
pub open spec fn days_in_month(year: int, month: int) -> int {
    if month == 2 {
        if is_leap_year(year) { 29 } else { 28 }
    } else if month == 4 || month == 6 || month == 9 || month == 11 {
        30
    } else {
        31
    }
}

/// Whether `(year, month, day)` names a day of the proleptic Gregorian calendar.
pub open spec fn is_valid_date(year: int, month: int, day: int) -> bool {
    &&& 1 <= month <= 12
    &&& 1 <= day <= days_in_month(year, month)
}

/// Days from 0000-01-01 to the first of January of `year`: 365 per year plus
/// one for each leap year in between.
pub open spec fn days_before_year(year: int) -> int {
    365 * year + (year + 3) / 4 - (year + 99) / 100 + (year + 399) / 400
}

/// Days from the first of January of `year` to the first day of `month`.
pub open spec fn days_before_month(year: int, month: int) -> int {
    (if month == 1 {
        0int
    } else if month == 2 {
        31
    } else if month == 3 {
        59
    } else if month == 4 {
        90
    } else if month == 5 {
        120
    } else if month == 6 {
        151
    } else if month == 7 {
        181
    } else if month == 8 {
        212
    } else if month == 9 {
        243
    } else if month == 10 {
        273
    } else if month == 11 {
        304
    } else {
        334
    }) + (if month > 2 && is_leap_year(year) { 1int } else { 0int })
}

/// The signed number of days from 1970-01-01 to `(year, month, day)`.
pub open spec fn days_since_unix_epoch(year: int, month: int, day: int) -> int {
    days_before_year(year) + days_before_month(year, month) + day - 1 - 719528
}

/// The date that lies `days` days after 1970-01-01 (before it, if negative).
pub open spec fn date_of_unix_day(days: int) -> (int, int, int) {
    choose|date: (int, int, int)|
        is_valid_date(date.0, date.1, date.2) && days_since_unix_epoch(date.0, date.1, date.2)
            == days
}

// ---------------------------------------------------------------------------
// March-based years, in which the leap day is the last day of the year
// ---------------------------------------------------------------------------

/// Days from 0000-03-01 to the first of March of `year`.
spec fn march_year_start(year: int) -> int {
    365 * year + year / 4 - year / 100 + year / 400
}

/// Days from the first of March to the first day of the `mp`-th month after
/// March (0 = March, 11 = February).
spec fn march_month_start(mp: int) -> int {
    (153 * mp + 2) / 5
}

proof fn lemma_year_of_era(doe: int)
    requires
        0 <= doe <= 146096,
    ensures
        ({
            let yoe = (doe - doe / 1460 + doe / 36524 - doe / 146096) / 365;
            &&& 0 <= yoe <= 399
            &&& march_year_start(yoe) <= doe < march_year_start(yoe + 1)
        }),
{
    let d: u32 = doe as u32;
    assert({
        let yoe = (d - d / 1460 + d / 36524 - d / 146096) / 365;
        &&& yoe <= 399
        &&& 365 * yoe + yoe / 4 - yoe / 100 + yoe / 400 <= d
        &&& d < 365 * (yoe + 1) + (yoe + 1) / 4 - (yoe + 1) / 100 + (yoe + 1) / 400
    }) by (bit_vector)
        requires
            d <= 146096,
    ;
}

proof fn lemma_month_of_year(doy: int)
    requires
        0 <= doy <= 365,
    ensures
        ({
            let mp = (5 * doy + 2) / 153;
            &&& 0 <= mp <= 11
            &&& march_month_start(mp) <= doy < march_month_start(mp + 1)
        }),
{
    let d: u32 = doy as u32;
    assert({
        let mp = (5 * d + 2) / 153;
        &&& mp <= 11
        &&& (153 * mp + 2) / 5 <= d
        &&& d < (153 * (mp + 1) + 2) / 5
    }) by (bit_vector)
        requires
            d <= 365,
    ;
}

proof fn lemma_era_shift(era: int, yoe: int)
    requires
        0 <= yoe <= 400,
    ensures
        march_year_start(400 * era + yoe) == 146097 * era + march_year_start(yoe),
{
    let y = 400 * era + yoe;
    assert(y / 4 == 100 * era + yoe / 4);
    assert(y / 100 == 4 * era + yoe / 100);
    assert(y / 400 == era + yoe / 400);
}

/// Going from `x` to `x + 1` adds one to `x / k` exactly when `k` divides `x + 1`.
proof fn lemma_divisor_steps(x: int)
    ensures
        (x + 1) / 4 - x / 4 == if (x + 1) % 4 == 0 { 1int } else { 0int },
        (x + 1) / 100 - x / 100 == if (x + 1) % 100 == 0 { 1int } else { 0int },
        (x + 1) / 400 - x / 400 == if (x + 1) % 400 == 0 { 1int } else { 0int },
        (x + 1) % 400 == 0 ==> (x + 1) % 100 == 0,
        (x + 1) % 100 == 0 ==> (x + 1) % 4 == 0,
{
    let y = x + 1;
    if y % 400 == 0 {
        assert(y == 400 * (y / 400));
        assert(y == 100 * (4 * (y / 400)));
    }
    if y % 100 == 0 {
        assert(y == 100 * (y / 100));
        assert(y == 4 * (25 * (y / 100)));
    }
}

proof fn lemma_march_year_length(year: int)
    ensures
        march_year_start(year + 1) - march_year_start(year) == if is_leap_year(year + 1) {
            366int
        } else {
            365int
        },
{
    lemma_divisor_steps(year);
}

proof fn lemma_year_starts(year: int)
    ensures
        days_before_year(year) + 59 + (if is_leap_year(year) { 1int } else { 0int }) == 60
            + march_year_start(year),
        days_before_year(year + 1) == 366 + march_year_start(year),
{
}

/// The steps of the conversion below, over mathematical integers: `era` counts
/// whole 400-year cycles since 0000-03-01, `doe` is the day within the cycle,
/// `yoe` the March-based year within the cycle, `doy` the day within that year
/// and `mp` the month counted from March.
proof fn lemma_civil_steps(days: int, era: int, doe: int, yoe: int, doy: int, mp: int)
    requires
        era == (days + 719468) / 146097,
        doe == days + 719468 - era * 146097,
        yoe == (doe - doe / 1460 + doe / 36524 - doe / 146096) / 365,
        doy == doe - (365 * yoe + yoe / 4 - yoe / 100),
        mp == (5 * doy + 2) / 153,
    ensures
        0 <= doe <= 146096,
        0 <= yoe <= 399,
        0 <= doy <= 365,
        0 <= mp <= 11,
        ({
            let month = if mp < 10 { mp + 3 } else { mp - 9 };
            let day = doy - (153 * mp + 2) / 5 + 1;
            let year = yoe + 400 * era + if month <= 2 { 1int } else { 0int };
            &&& is_valid_date(year, month, day)
            &&& days_since_unix_epoch(year, month, day) == days
        }),
{
    lemma_year_of_era(doe);
    let y = yoe + 400 * era;
    assert(yoe / 400 == 0);
    assert(doy == doe - march_year_start(yoe));
    lemma_era_shift(era, yoe);
    lemma_era_shift(era, yoe + 1);
    lemma_march_year_length(y);
    assert(y + 1 == 400 * era + (yoe + 1));
    // the day of the March-based year `y`, within that year's length
    assert(doy < if is_leap_year(y + 1) { 366int } else { 365int });
    lemma_month_of_year(doy);
    lemma_year_starts(y);
    assert(march_month_start(0) == 0);
    assert(march_month_start(1) == 31);
    assert(march_month_start(2) == 61);
    assert(march_month_start(3) == 92);
    assert(march_month_start(4) == 122);
    assert(march_month_start(5) == 153);
    assert(march_month_start(6) == 184);
    assert(march_month_start(7) == 214);
    assert(march_month_start(8) == 245);
    assert(march_month_start(9) == 275);
    assert(march_month_start(10) == 306);
    assert(march_month_start(11) == 337);
    assert(march_month_start(12) == 367);
    // the first of March of `y` is day `march_year_start(y)` counted from 0000-03-01
    assert(days + 719468 == march_year_start(y) + doy);
}

// ---------------------------------------------------------------------------
// Ordering of dates
// ---------------------------------------------------------------------------

proof fn lemma_days_before_year_monotone(a: int, b: int)
    requires
        a <= b,
    ensures
        days_before_year(a) + 365 * (b - a) <= days_before_year(b),
    decreases b - a,
{
    if a < b {
        lemma_days_before_year_monotone(a, b - 1);
        lemma_year_starts(b - 1);
    }
}

/// Within a year, a valid date falls on a day `0 <= k < length of the year`
/// counted from the first of January, and later months come later.
proof fn lemma_day_of_year_bounds(year: int, month: int, day: int)
    requires
        is_valid_date(year, month, day),
    ensures
        0 <= days_before_month(year, month) + day - 1,
        days_before_year(year) + days_before_month(year, month) + day - 1 < days_before_year(
            year + 1,
        ),
        forall|later: int|
            month < later <= 12 ==> days_before_month(year, month) + day <= #[trigger] days_before_month(
                year,
                later,
            ),
{
    lemma_year_starts(year);
}

/// Distinct valid dates fall on distinct days.
proof fn lemma_unix_day_injective(y1: int, m1: int, d1: int, y2: int, m2: int, d2: int)
    requires
        is_valid_date(y1, m1, d1),
        is_valid_date(y2, m2, d2),
        days_since_unix_epoch(y1, m1, d1) == days_since_unix_epoch(y2, m2, d2),
    ensures
        y1 == y2 && m1 == m2 && d1 == d2,
{
    lemma_day_of_year_bounds(y1, m1, d1);
    lemma_day_of_year_bounds(y2, m2, d2);
    if y1 < y2 {
        lemma_days_before_year_monotone(y1 + 1, y2);
    } else if y2 < y1 {
        lemma_days_before_year_monotone(y2 + 1, y1);
    } else if m1 < m2 {
        assert(days_before_month(y1, m1) + d1 <= days_before_month(y1, m2));
    } else if m2 < m1 {
        assert(days_before_month(y2, m2) + d2 <= days_before_month(y2, m1));
    }
}

/// Every valid date is the date of its own day count: counting days from the
/// epoch and reading the date back gives the date one started from.
pub proof fn lemma_date_of_unix_day_roundtrip(year: int, month: int, day: int)
    requires
        is_valid_date(year, month, day),
    ensures
        date_of_unix_day(days_since_unix_epoch(year, month, day)) == (year, month, day),
{
    let days = days_since_unix_epoch(year, month, day);
    let witness = (year, month, day);
    assert(is_valid_date(witness.0, witness.1, witness.2) && days_since_unix_epoch(
        witness.0,
        witness.1,
        witness.2,
    ) == days);
    let chosen = date_of_unix_day(days);
    lemma_unix_day_injective(chosen.0, chosen.1, chosen.2, year, month, day);
}

/// Every day count has a date: `date_of_unix_day` names a valid date with
/// that day count.
pub proof fn lemma_date_of_unix_day_exists(days: int)
    ensures
        ({
            let date = date_of_unix_day(days);
            &&& is_valid_date(date.0, date.1, date.2)
            &&& days_since_unix_epoch(date.0, date.1, date.2) == days
        }),
{
    let era = (days + 719468) / 146097;
    let doe = days + 719468 - era * 146097;
    let yoe = (doe - doe / 1460 + doe / 36524 - doe / 146096) / 365;
    let doy = doe - (365 * yoe + yoe / 4 - yoe / 100);
    let mp = (5 * doy + 2) / 153;
    lemma_civil_steps(days, era, doe, yoe, doy, mp);
    let month = if mp < 10 { mp + 3 } else { mp - 9 };
    let day = doy - (153 * mp + 2) / 5 + 1;
    let year = yoe + 400 * era + if month <= 2 { 1int } else { 0int };
    let witness = (year, month, day);
    assert(is_valid_date(witness.0, witness.1, witness.2) && days_since_unix_epoch(
        witness.0,
        witness.1,
        witness.2,
    ) == days);
}

/// The calendar repeats every 400 years, which hold exactly 146097 days.
pub proof fn lemma_gregorian_cycle(year: int, month: int, day: int)
    requires
        is_valid_date(year, month, day),
    ensures
        is_valid_date(year + 400, month, day),
        days_since_unix_epoch(year + 400, month, day) == days_since_unix_epoch(year, month, day)
            + 146097,
{
    assert((year + 400) % 4 == year % 4);
    assert((year + 400) % 100 == year % 100);
    assert((year + 400) % 400 == year % 400);
    assert(is_leap_year(year + 400) == is_leap_year(year));
    assert(days_in_month(year + 400, month) == days_in_month(year, month));
    assert(days_before_month(year + 400, month) == days_before_month(year, month));
    assert((year + 403) / 4 == (year + 3) / 4 + 100);
    assert((year + 499) / 100 == (year + 99) / 100 + 4);
    assert((year + 799) / 400 == (year + 399) / 400 + 1);
    assert(days_before_year(year + 400) == days_before_year(year) + 146097);
}

/// Consecutive dates are one day apart: the day after a valid date is the
/// next day of its month, else the first of the next month, else New Year's
/// Day of the next year, and its day count is one more.
pub proof fn lemma_next_day(year: int, month: int, day: int)
    requires
        is_valid_date(year, month, day),
    ensures
        ({
            let next = if day < days_in_month(year, month) {
                (year, month, day + 1)
            } else if month < 12 {
                (year, month + 1, 1)
            } else {
                (year + 1, 1, 1)
            };
            &&& is_valid_date(next.0, next.1, next.2)
            &&& days_since_unix_epoch(next.0, next.1, next.2) == days_since_unix_epoch(
                year,
                month,
                day,
            ) + 1
        }),
{
    lemma_year_starts(year);
}

/// 1970-01-01 is day zero.
pub proof fn lemma_unix_epoch_is_day_zero()
    ensures
        days_since_unix_epoch(1970, 1, 1) == 0,
        date_of_unix_day(0) == (1970int, 1int, 1int),
{
    lemma_date_of_unix_day_roundtrip(1970, 1, 1);
}

/// A date on or after the epoch lies in 1970 or later.
proof fn lemma_year_from_epoch(year: int, month: int, day: int)
    requires
        is_valid_date(year, month, day),
        days_since_unix_epoch(year, month, day) >= 0,
    ensures
        year >= 1970,
{
    lemma_day_of_year_bounds(year, month, day);
    if year < 1970 {
        lemma_days_before_year_monotone(year + 1, 1970);
    }
}

// ---------------------------------------------------------------------------
// Days to date
// ---------------------------------------------------------------------------

/// Convert a count of days since the Unix epoch into a `(year, month, day)`
/// Gregorian date. Howard Hinnant's `civil_from_days` algorithm.
pub fn civil_from_days(days: i64) -> (date: (i64, u32, u32))
    requires
        days <= i64::MAX - 719_468,
    ensures
        is_valid_date(date.0 as int, date.1 as int, date.2 as int),
        days_since_unix_epoch(date.0 as int, date.1 as int, date.2 as int) == days,
        (date.0 as int, date.1 as int, date.2 as int) == date_of_unix_day(days as int),
{
    let z = days + 719_468;
    let era = if z >= 0 { z } else { z - 146_096 } / 146_097;
    assert(era == z / 146_097);
    let doe = z - era * 146_097;  // [0, 146096]
    proof {
        lemma_year_of_era(doe as int);
    }
    let yoe = (doe - doe / 1460 + doe / 36_524 - doe / 146_096) / 365;  // [0, 399]
    let y = yoe + era * 400;
    let doy = doe - (365 * yoe + yoe / 4 - yoe / 100);  // [0, 365]
    let mp = (5 * doy + 2) / 153;  // [0, 11]
    proof {
        lemma_civil_steps(days as int, era as int, doe as int, yoe as int, doy as int, mp as int);
    }
    let d = (doy - (153 * mp + 2) / 5 + 1) as u32;  // [1, 31]
    let m = (if mp < 10 { mp + 3 } else { mp - 9 }) as u32;  // [1, 12]
    let date = (y + if m <= 2 { 1 } else { 0 }, m, d);
    proof {
        lemma_date_of_unix_day_roundtrip(date.0 as int, date.1 as int, date.2 as int);
    }
    date
}

// ---------------------------------------------------------------------------
// Rendering dates as text
// ---------------------------------------------------------------------------

/// The character that writes the decimal digit `d` (`0 <= d < 10`).
pub open spec fn digit_char(d: nat) -> char {
    if d == 0 {
        '0'
    } else if d == 1 {
        '1'
    } else if d == 2 {
        '2'
    } else if d == 3 {
        '3'
    } else if d == 4 {
        '4'
    } else if d == 5 {
        '5'
    } else if d == 6 {
        '6'
    } else if d == 7 {
        '7'
    } else if d == 8 {
        '8'
    } else {
        '9'
    }
}

/// The decimal digits of `n`, most significant first, without leading zeros.
pub open spec fn decimal_digits(n: nat) -> Seq<char>
    decreases n,
{
    if n < 10 {
        seq![digit_char(n)]
    } else {
        decimal_digits(n / 10).push(digit_char(n % 10))
    }
}

/// `n` in decimal, with zeros in front up to at least `width` characters.
pub open spec fn zero_padded(n: nat, width: nat) -> Seq<char> {
    let digits = decimal_digits(n);
    let zeros: nat = if digits.len() < width { (width - digits.len()) as nat } else { 0 };
    Seq::new(zeros, |_i: int| '0') + digits
}

/// A date written `YYYY-MM-DD`.
pub open spec fn iso_date_text(year: nat, month: nat, day: nat) -> Seq<char> {
    zero_padded(year, 4) + seq!['-'] + zero_padded(month, 2) + seq!['-'] + zero_padded(day, 2)
}

fn digit_text(d: u64) -> (text: &'static str)
    requires
        d < 10,
    ensures
        text@ == seq![digit_char(d as nat)],
{
    proof {
        reveal_strlit("0");
        reveal_strlit("1");
        reveal_strlit("2");
        reveal_strlit("3");
        reveal_strlit("4");
        reveal_strlit("5");
        reveal_strlit("6");
        reveal_strlit("7");
        reveal_strlit("8");
        reveal_strlit("9");
    }
    if d == 0 {
        "0"
    } else if d == 1 {
        "1"
    } else if d == 2 {
        "2"
    } else if d == 3 {
        "3"
    } else if d == 4 {
        "4"
    } else if d == 5 {
        "5"
    } else if d == 6 {
        "6"
    } else if d == 7 {
        "7"
    } else if d == 8 {
        "8"
    } else {
        "9"
    }
}

fn decimal_len(n: u64) -> (len: u64)
    ensures
        len == decimal_digits(n as nat).len(),
        1 <= len <= n + 1,
    decreases n,
{
    if n < 10 {
        1
    } else {
        decimal_len(n / 10) + 1
    }
}

fn push_decimal(out: &mut String, n: u64)
    ensures
        final(out)@ == old(out)@ + decimal_digits(n as nat),
    decreases n,
{
    if n >= 10 {
        push_decimal(out, n / 10);
    }
    out.append(digit_text(n % 10));
    assert(final(out)@ =~= old(out)@ + decimal_digits(n as nat));
}

fn push_zero_padded(out: &mut String, n: u64, width: u64)
    ensures
        final(out)@ == old(out)@ + zero_padded(n as nat, width as nat),
{
    let len = decimal_len(n);
    let mut written = len;
    while written < width
        invariant
            len <= written,
            written <= width || written == len,
            out@ == old(out)@ + Seq::new((written - len) as nat, |_i: int| '0'),
        decreases width - written,
    {
        proof {
            reveal_strlit("0");
        }
        out.append("0");
        written = written + 1;
        assert(out@ =~= old(out)@ + Seq::new((written - len) as nat, |_i: int| '0'));
    }
    push_decimal(out, n);
    assert(out@ =~= old(out)@ + zero_padded(n as nat, width as nat));
}

/// The UTC date, as `YYYY-MM-DD`, of the instant `unix_secs` seconds after
/// 1970-01-01T00:00:00Z.
pub fn utc_date_from_unix_secs(unix_secs: u64) -> (text: String)
    ensures
        ({
            let date = date_of_unix_day((unix_secs / 86400) as int);
            &&& date.0 >= 1970
            &&& text@ == iso_date_text(date.0 as nat, date.1 as nat, date.2 as nat)
        }),
{
    let days = (unix_secs / 86_400) as i64;
    let (y, m, d) = civil_from_days(days);
    proof {
        lemma_year_from_epoch(y as int, m as int, d as int);
        reveal_strlit("-");
    }
    let mut text = String::new();
    push_zero_padded(&mut text, y as u64, 4);
    text.append("-");
    push_zero_padded(&mut text, m as u64, 2);
    text.append("-");
    push_zero_padded(&mut text, d as u64, 2);
    assert(text@ =~= iso_date_text(y as nat, m as nat, d as nat));
    text
}

} // verus!

verus! {

// ---------------------------------------------------------------------------
// Dates in text order
// ---------------------------------------------------------------------------

/// Lexicographic order on text, as `str` compares: `a` comes before `b` when
/// `a` is a proper prefix of `b`, or when at the first position where they
/// differ the character of `a` is the smaller.
pub open spec fn text_lt(a: Seq<char>, b: Seq<char>) -> bool {
    exists|i: int|
        #![trigger a.take(i), b.take(i)]
        0 <= i <= a.len() && i <= b.len() && a.take(i) == b.take(i) && ((i < a.len() && i
            < b.len() && (a[i] as int) < (b[i] as int)) || (i == a.len() && i < b.len()))
}

/// Whether `(y1, m1, d1)` comes strictly before `(y2, m2, d2)`, comparing
/// year, then month, then day.
spec fn date_lt(y1: int, m1: int, d1: int, y2: int, m2: int, d2: int) -> bool {
    y1 < y2 || (y1 == y2 && (m1 < m2 || (m1 == m2 && d1 < d2)))
}

spec fn four_digits(n: nat) -> Seq<char> {
    seq![
        digit_char(n / 1000),
        digit_char((n / 100) % 10),
        digit_char((n / 10) % 10),
        digit_char(n % 10),
    ]
}

spec fn two_digits(n: nat) -> Seq<char> {
    seq![digit_char(n / 10), digit_char(n % 10)]
}

proof fn lemma_digit_chars_ordered(a: nat, b: nat)
    requires
        a < b < 10,
    ensures
        (digit_char(a) as int) < (digit_char(b) as int),
{
    assert(('0' as int) == 48 && ('1' as int) == 49 && ('2' as int) == 50 && ('3' as int) == 51
        && ('4' as int) == 52 && ('5' as int) == 53 && ('6' as int) == 54 && ('7' as int) == 55
        && ('8' as int) == 56 && ('9' as int) == 57);
}

proof fn lemma_four_digits(n: nat)
    requires
        1000 <= n <= 9999,
    ensures
        zero_padded(n, 4) == four_digits(n),
{
    let d = decimal_digits(n);
    assert(decimal_digits(n / 1000) == seq![digit_char(n / 1000)]);
    assert(n / 100 / 10 == n / 1000);
    assert(decimal_digits(n / 100) == seq![digit_char(n / 1000), digit_char((n / 100) % 10)]);
    assert(n / 10 / 10 == n / 100);
    assert(decimal_digits(n / 10) =~= seq![
        digit_char(n / 1000),
        digit_char((n / 100) % 10),
        digit_char((n / 10) % 10),
    ]);
    assert(d =~= four_digits(n));
    assert(zero_padded(n, 4) =~= four_digits(n));
}

proof fn lemma_two_digits(n: nat)
    requires
        n <= 99,
    ensures
        zero_padded(n, 2) == two_digits(n),
{
    if n < 10 {
        assert(zero_padded(n, 2) =~= two_digits(n));
    } else {
        assert(decimal_digits(n / 10) == seq![digit_char(n / 10)]);
        assert(zero_padded(n, 2) =~= two_digits(n));
    }
}

/// Between two numbers of `4` digits, the smaller is written first in text
/// order: some position has equal text before it and a smaller digit at it.
#[verifier::spinoff_prover]
#[verifier::rlimit(40)]
proof fn lemma_four_digits_ordered(a: nat, b: nat) -> (i: int)
    requires
        a < b <= 9999,
    ensures
        0 <= i < 4,
        four_digits(a).take(i) == four_digits(b).take(i),
        (four_digits(a)[i] as int) < (four_digits(b)[i] as int),
{
    let (x, y) = (four_digits(a), four_digits(b));
    if a / 1000 != b / 1000 {
        lemma_digit_chars_ordered(a / 1000, b / 1000);
        assert(x.take(0) =~= y.take(0));
        0
    } else if (a / 100) % 10 != (b / 100) % 10 {
        lemma_digit_chars_ordered((a / 100) % 10, (b / 100) % 10);
        assert(x.take(1) =~= y.take(1));
        1
    } else if (a / 10) % 10 != (b / 10) % 10 {
        lemma_digit_chars_ordered((a / 10) % 10, (b / 10) % 10);
        assert(x.take(2) =~= y.take(2));
        2
    } else {
        lemma_digit_chars_ordered(a % 10, b % 10);
        assert(x.take(3) =~= y.take(3));
        3
    }
}

proof fn lemma_two_digits_ordered(a: nat, b: nat) -> (i: int)
    requires
        a < b <= 99,
    ensures
        0 <= i < 2,
        two_digits(a).take(i) == two_digits(b).take(i),
        (two_digits(a)[i] as int) < (two_digits(b)[i] as int),
{
    if a / 10 != b / 10 {
        lemma_digit_chars_ordered(a / 10, b / 10);
        assert(two_digits(a).take(0) =~= two_digits(b).take(0));
        0
    } else {
        lemma_digit_chars_ordered(a % 10, b % 10);
        assert(two_digits(a).take(1) =~= two_digits(b).take(1));
        1
    }
}

/// Text order between texts of equal length is kept when the same text is put
/// before both and anything after each.
pub proof fn lemma_text_lt_framed(
    p: Seq<char>,
    a: Seq<char>,
    b: Seq<char>,
    s: Seq<char>,
    t: Seq<char>,
)
    requires
        text_lt(a, b),
        a.len() == b.len(),
    ensures
        text_lt(p + a + s, p + b + t),
{
    let i = choose|i: int|
        #![trigger a.take(i), b.take(i)]
        0 <= i <= a.len() && i <= b.len() && a.take(i) == b.take(i) && ((i < a.len() && i
            < b.len() && (a[i] as int) < (b[i] as int)) || (i == a.len() && i < b.len()));
    let (x, y) = (p + a + s, p + b + t);
    let j = p.len() + i;
    assert(x.take(j) =~= p + a.take(i));
    assert(y.take(j) =~= p + b.take(i));
    assert(x[j] == a[i] && y[j] == b[i]);
}

/// Dates in `YYYY-MM-DD` text, for years of four digits, sort as the dates do.
proof fn lemma_iso_text_ordered(y1: int, m1: int, d1: int, y2: int, m2: int, d2: int)
    requires
        1000 <= y1 <= 9999,
        1000 <= y2 <= 9999,
        1 <= m1 <= 12,
        1 <= m2 <= 12,
        1 <= d1 <= 31,
        1 <= d2 <= 31,
        date_lt(y1, m1, d1, y2, m2, d2),
    ensures
        text_lt(
            iso_date_text(y1 as nat, m1 as nat, d1 as nat),
            iso_date_text(y2 as nat, m2 as nat, d2 as nat),
        ),
{
    lemma_four_digits(y1 as nat);
    lemma_four_digits(y2 as nat);
    lemma_two_digits(m1 as nat);
    lemma_two_digits(m2 as nat);
    lemma_two_digits(d1 as nat);
    lemma_two_digits(d2 as nat);
    let t1 = iso_date_text(y1 as nat, m1 as nat, d1 as nat);
    let t2 = iso_date_text(y2 as nat, m2 as nat, d2 as nat);
    let (ya, yb) = (four_digits(y1 as nat), four_digits(y2 as nat));
    let (ma, mb) = (two_digits(m1 as nat), two_digits(m2 as nat));
    let (da, db) = (two_digits(d1 as nat), two_digits(d2 as nat));
    let dash = seq!['-'];
    let empty = Seq::<char>::empty();
    if y1 < y2 {
        let i = lemma_four_digits_ordered(y1 as nat, y2 as nat);
        assert(ya.take(i) == yb.take(i));
        assert(text_lt(ya, yb));
        let (r1, r2) = (dash + ma + dash + da, dash + mb + dash + db);
        lemma_text_lt_framed(empty, ya, yb, r1, r2);
        assert(t1 =~= empty + ya + r1);
        assert(t2 =~= empty + yb + r2);
    } else if m1 < m2 {
        let i = lemma_two_digits_ordered(m1 as nat, m2 as nat);
        assert(ma.take(i) == mb.take(i));
        assert(text_lt(ma, mb));
        let p = ya + dash;
        let (r1, r2) = (dash + da, dash + db);
        lemma_text_lt_framed(p, ma, mb, r1, r2);
        assert(t1 =~= p + ma + r1);
        assert(t2 =~= p + mb + r2);
    } else {
        let i = lemma_two_digits_ordered(d1 as nat, d2 as nat);
        assert(da.take(i) == db.take(i));
        assert(text_lt(da, db));
        let p = ya + dash + ma + dash;
        lemma_text_lt_framed(p, da, db, empty, empty);
        assert(t1 =~= p + da + empty);
        assert(t2 =~= p + db + empty);
    }
}

proof fn lemma_iso_text_len(year: int, month: int, day: int)
    requires
        1000 <= year <= 9999,
        1 <= month <= 12,
        1 <= day <= 31,
    ensures
        iso_date_text(year as nat, month as nat, day as nat).len() == 10,
{
    lemma_four_digits(year as nat);
    lemma_two_digits(month as nat);
    lemma_two_digits(day as nat);
}

/// Of two valid dates, the one on the earlier day comes first.
proof fn lemma_earlier_day_earlier_date(y1: int, m1: int, d1: int, y2: int, m2: int, d2: int)
    requires
        is_valid_date(y1, m1, d1),
        is_valid_date(y2, m2, d2),
        days_since_unix_epoch(y1, m1, d1) < days_since_unix_epoch(y2, m2, d2),
    ensures
        date_lt(y1, m1, d1, y2, m2, d2),
{
    lemma_day_of_year_bounds(y1, m1, d1);
    lemma_day_of_year_bounds(y2, m2, d2);
    if y2 < y1 {
        lemma_days_before_year_monotone(y2 + 1, y1);
    } else if y1 == y2 && m2 < m1 {
        assert(days_before_month(y2, m2) + d2 <= days_before_month(y2, m1));
    }
}

/// The daily shard names sort in time order: for instants `secs1 <= secs2`
/// whose dates have four-digit years, the `YYYY-MM-DD` texts are equal
/// exactly when both instants fall on the same UTC day, and otherwise the
/// earlier instant's text comes first.
pub proof fn lemma_utc_dates_sort_by_instant(secs1: u64, secs2: u64)
    requires
        secs1 <= secs2,
        date_of_unix_day((secs2 / 86400) as int).0 <= 9999,
    ensures
        ({
            let a = date_of_unix_day((secs1 / 86400) as int);
            let b = date_of_unix_day((secs2 / 86400) as int);
            let ta = iso_date_text(a.0 as nat, a.1 as nat, a.2 as nat);
            let tb = iso_date_text(b.0 as nat, b.1 as nat, b.2 as nat);
            &&& (ta == tb <==> secs1 / 86400 == secs2 / 86400)
            &&& secs1 / 86400 != secs2 / 86400 ==> text_lt(ta, tb)
            &&& ta.len() == 10
            &&& tb.len() == 10
        }),
{
    let (day1, day2) = ((secs1 / 86400) as int, (secs2 / 86400) as int);
    let a = date_of_unix_day(day1);
    let b = date_of_unix_day(day2);
    lemma_date_of_unix_day_exists(day1);
    lemma_date_of_unix_day_exists(day2);
    lemma_year_from_epoch(a.0, a.1, a.2);
    lemma_year_from_epoch(b.0, b.1, b.2);
    let ta = iso_date_text(a.0 as nat, a.1 as nat, a.2 as nat);
    let tb = iso_date_text(b.0 as nat, b.1 as nat, b.2 as nat);
    if day1 < day2 {
        lemma_earlier_day_earlier_date(a.0, a.1, a.2, b.0, b.1, b.2);
    }
    lemma_iso_text_len(a.0, a.1, a.2);
    lemma_iso_text_len(b.0, b.1, b.2);
    if day1 != day2 {
        lemma_earlier_day_earlier_date(a.0, a.1, a.2, b.0, b.1, b.2);
        lemma_iso_text_ordered(a.0, a.1, a.2, b.0, b.1, b.2);
        let i = choose|i: int|
            #![trigger ta.take(i), tb.take(i)]
            0 <= i <= ta.len() && i <= tb.len() && ta.take(i) == tb.take(i) && ((i < ta.len() && i
                < tb.len() && (ta[i] as int) < (tb[i] as int)) || (i == ta.len() && i < tb.len()));
        if ta == tb {
            assert(ta.len() == tb.len());
        }
    }
}

} // verus!
