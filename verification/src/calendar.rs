//! Dates on the results screen.

use vstd::prelude::*;

use crate::text::{padded, push_padded};

verus! {

/// Ticks of 100 ns from the start of the year 1 to the start of 1970.
pub const UNIX_EPOCH_TICKS: i64 = 621_355_968_000_000_000;

/// Whether a year of the Gregorian calendar has a leap day.
pub open spec fn is_leap(y: int) -> bool {
    y % 4 == 0 && (y % 100 != 0 || y % 400 == 0)
}

/// How many days a month has.
pub open spec fn month_length(y: int, m: int) -> int {
    if m == 2 {
        if is_leap(y) {
            29
        } else {
            28
        }
    } else if m == 4 || m == 6 || m == 9 || m == 11 {
        30
    } else {
        31
    }
}

/// How many days of a year come before a month.
pub open spec fn days_before_month(y: int, m: int) -> int
    decreases m,
{
    if m <= 1 {
        0
    } else {
        days_before_month(y, m - 1) + month_length(y, m - 1)
    }
}

/// How many days lie between the start of the year 1 and the start of year `y`.
pub open spec fn days_before_year(y: int) -> int {
    365 * (y - 1) + (y - 1) / 4 - (y - 1) / 100 + (y - 1) / 400
}

/// Whether a date is one of the calendar.
pub open spec fn valid_date(y: int, m: int, d: int) -> bool {
    1 <= m <= 12 && 1 <= d <= month_length(y, m)
}

/// The number of days from the start of 1970 to a date.
pub open spec fn day_number(y: int, m: int, d: int) -> int {
    days_before_year(y) + days_before_month(y, m) + (d - 1) - 719_162
}

/// Days before the year after `s`, which is where a year that starts in March
/// splits.
spec fn days_through(s: int) -> int {
    365 * s + s / 4 - s / 100 + s / 400
}

/// Year, month and day of a day, counted from the start of 1970.
pub fn civil_date(days: i64) -> (date: (i64, i64, i64))
    requires
        -20_000_000 <= days <= 20_000_000,
    ensures
        valid_date(date.0 as int, date.1 as int, date.2 as int),
        day_number(date.0 as int, date.1 as int, date.2 as int) == days,
        -60_000 < date.0 < 60_000,
{
    // Eras of 400 years, which start on the first of March. The shift keeps the
    // dividend positive.
    let z: i64 = days + 719_468 + 146_097 * 200;
    let era: i64 = z / 146_097 - 200;
    let doe: i64 = z % 146_097;
    let yoe: i64 = (doe - doe / 1460 + doe / 36_524 - doe / 146_096) / 365;
    let doy: i64 = doe - (365 * yoe + yoe / 4 - yoe / 100);
    proof {
        lemma_year_of_era(doe as u32, yoe as u32, doy as u32);
    }
    let mp: i64 = (5 * doy + 2) / 153;
    let d: i64 = doy - (153 * mp + 2) / 5 + 1;
    let m: i64 = if mp < 10 {
        mp + 3
    } else {
        mp - 9
    };
    let s: i64 = yoe + era * 400;
    let y: i64 = if m <= 2 {
        s + 1
    } else {
        s
    };
    proof {
        lemma_era(era as int, yoe as int);
        lemma_date(s as int, doy as int, yoe as int, era as int);
    }
    (y, m, d)
}

proof fn lemma_year_of_era(doe: u32, yoe: u32, doy: u32)
    requires
        doe < 146_097,
        yoe == (doe - doe / 1460 + doe / 36_524 - doe / 146_096) / 365,
        doy == doe - (365 * yoe + yoe / 4 - yoe / 100),
    ensures
        yoe <= 399,
        doy <= 365,
        doy == 365 ==> (yoe + 1) % 4 == 0 && ((yoe + 1) % 100 != 0 || yoe == 399),
{
    assert(doe < 146_097 ==> {
        let y = ((((doe - doe / 1460) as u32 + doe / 36_524) as u32 - doe / 146_096) as u32
            / 365) as u32;
        let s = (365 * y + y / 4 - y / 100) as u32;
        &&& y <= 399
        &&& s <= doe
        &&& doe - s <= 365
        &&& doe - s == 365 ==> (y + 1) % 4 == 0 && ((y + 1) % 100 != 0 || y == 399)
    }) by (bit_vector);
}

/// An era of 400 years has 146097 days.
proof fn lemma_era(era: int, yoe: int)
    requires
        0 <= yoe <= 399,
    ensures
        days_through(yoe + 400 * era) == 365 * yoe + yoe / 4 - yoe / 100 + 146_097 * era,
{
}

/// A year has 365 days, or 366 with a leap day.
proof fn lemma_year_length(s: int)
    ensures
        days_through(s) - days_through(s - 1) == 365 + if is_leap(s) {
            1int
        } else {
            0int
        },
{
}

proof fn lemma_months(y: int)
    ensures
        days_before_month(y, 1) == 0,
        days_before_month(y, 2) == 31,
        ({
            let leap = if is_leap(y) {
                1int
            } else {
                0int
            };
            &&& days_before_month(y, 3) == 59 + leap
            &&& days_before_month(y, 4) == 90 + leap
            &&& days_before_month(y, 5) == 120 + leap
            &&& days_before_month(y, 6) == 151 + leap
            &&& days_before_month(y, 7) == 181 + leap
            &&& days_before_month(y, 8) == 212 + leap
            &&& days_before_month(y, 9) == 243 + leap
            &&& days_before_month(y, 10) == 273 + leap
            &&& days_before_month(y, 11) == 304 + leap
            &&& days_before_month(y, 12) == 334 + leap
        }),
{
    reveal_with_fuel(days_before_month, 13);
}

/// The date of day `doy` of the year that starts in March of year `s`.
proof fn lemma_date(s: int, doy: int, yoe: int, era: int)
    requires
        s == yoe + 400 * era,
        0 <= yoe <= 399,
        0 <= doy <= 365,
        doy == 365 ==> (yoe + 1) % 4 == 0 && ((yoe + 1) % 100 != 0 || yoe == 399),
    ensures
        ({
            let mp = (5 * doy + 2) / 153;
            let d = doy - (153 * mp + 2) / 5 + 1;
            let m = if mp < 10 {
                mp + 3
            } else {
                mp - 9
            };
            let y = if m <= 2 {
                s + 1
            } else {
                s
            };
            &&& valid_date(y, m, d)
            &&& day_number(y, m, d) == days_through(s) + doy - 719_468
        }),
{
    let mp = (5 * doy + 2) / 153;
    let d = doy - (153 * mp + 2) / 5 + 1;
    lemma_year_length(s);
    if mp < 10 {
        lemma_months(s);
        assert(days_before_year(s) == days_through(s - 1));
    } else {
        lemma_months(s + 1);
        assert(days_before_year(s + 1) == days_through(s));
        if doy == 365 {
            assert(is_leap(s + 1));
        }
    }
}

/// Two valid dates with the same day number are the same date.
pub proof fn law_date_is_unique(y1: int, m1: int, d1: int, y2: int, m2: int, d2: int)
    requires
        valid_date(y1, m1, d1),
        valid_date(y2, m2, d2),
        day_number(y1, m1, d1) == day_number(y2, m2, d2),
    ensures
        y1 == y2,
        m1 == m2,
        d1 == d2,
{
    lemma_within_year(y1, m1, d1);
    lemma_within_year(y2, m2, d2);
    if y1 < y2 {
        lemma_years_grow(y1 + 1, y2);
    } else if y2 < y1 {
        lemma_years_grow(y2 + 1, y1);
    }
    lemma_months(y1);
}

proof fn lemma_within_year(y: int, m: int, d: int)
    requires
        valid_date(y, m, d),
    ensures
        days_before_year(y) <= day_number(y, m, d) + 719_162 < days_before_year(y + 1),
{
    lemma_months(y);
    lemma_year_length(y);
    assert(days_before_year(y + 1) == days_through(y));
    assert(days_before_year(y) == days_through(y - 1));
}

proof fn lemma_years_grow(a: int, b: int)
    requires
        a <= b,
    ensures
        days_before_year(a) <= days_before_year(b),
    decreases b - a,
{
    if a < b {
        lemma_years_grow(a, b - 1);
        lemma_year_length(b - 1);
        assert(days_before_year(b) == days_through(b - 1));
        assert(days_before_year(b - 1) == days_through(b - 2));
    }
}

/// A year in at least four characters, the sign of an early one among them.
pub open spec fn year_text(y: int) -> Seq<char> {
    if y < 0 {
        seq!['-'] + padded((-y) as nat, 3)
    } else {
        padded(y as nat, 4)
    }
}

/// `MM/DD/YYYY HH:MM:SS`.
pub open spec fn moment_text(y: int, m: int, d: int, second_of_day: int) -> Seq<char> {
    padded(m as nat, 2) + seq!['/'] + padded(d as nat, 2) + seq!['/'] + year_text(y) + seq![' ']
        + padded((second_of_day / 3600) as nat, 2) + seq![':'] + padded(
        (second_of_day / 60 % 60) as nat,
        2,
    ) + seq![':'] + padded((second_of_day % 60) as nat, 2)
}

/// Whole seconds since the start of 1970, cut towards it.
pub open spec fn unix_seconds(ticks: int) -> int {
    let t = ticks - UNIX_EPOCH_TICKS;
    if t >= 0 {
        t / 10_000_000
    } else {
        -((-t) / 10_000_000)
    }
}

/// Whether a text shows the moment of a tick count.
pub open spec fn shows_moment(text: Seq<char>, ticks: int) -> bool {
    exists|y: int, m: int, d: int|
        {
            &&& #[trigger] valid_date(y, m, d)
            &&& day_number(y, m, d) == unix_seconds(ticks) / 86_400
            &&& text == moment_text(y, m, d, unix_seconds(ticks) % 86_400)
        }
}

/// Converts a timestamp in ticks of 100 ns since the year 1 to
/// `MM/DD/YYYY HH:MM:SS`, as the results screen shows it.
pub fn format_ticks(ticks: i64) -> (s: String)
    requires
        ticks - UNIX_EPOCH_TICKS >= i64::MIN,
    ensures
        shows_moment(s@, ticks as int),
{
    let t: i64 = ticks - UNIX_EPOCH_TICKS;
    // Division that cuts towards zero, on the magnitude.
    let secs: i64 = if t >= 0 {
        t / 10_000_000
    } else {
        -(((-(t as i128)) / 10_000_000) as i64)
    };
    proof {
        assert(secs == unix_seconds(ticks as int));
    }
    // Floor division by a shift of whole days.
    let shifted: i64 = secs + 86_400 * 20_000_000;
    let days: i64 = shifted / 86_400 - 20_000_000;
    let tod: i64 = shifted % 86_400;
    let (y, m, d) = civil_date(days);
    let mut out: String = String::new();
    push_padded(&mut out, m as u128, 2);
    out.push('/');
    push_padded(&mut out, d as u128, 2);
    out.push('/');
    if y < 0 {
        out.push('-');
        push_padded(&mut out, (-y) as u128, 3);
    } else {
        push_padded(&mut out, y as u128, 4);
    }
    out.push(' ');
    push_padded(&mut out, (tod / 3600) as u128, 2);
    out.push(':');
    push_padded(&mut out, (tod / 60 % 60) as u128, 2);
    out.push(':');
    push_padded(&mut out, (tod % 60) as u128, 2);
    proof {
        assert(out@ =~= moment_text(y as int, m as int, d as int, tod as int));
        assert(valid_date(y as int, m as int, d as int));
    }
    out
}

/// Days follow each other: the first of a month comes after the last of the one before it, the first
/// of a year after the last of the one before it, and the count starts with the year 1970.
pub proof fn law_days_follow_each_other(y: int, m: int, d: int)
    requires
        valid_date(y, m, d),
        y > 0,
    ensures
        day_number(1970, 1, 1) == 0,
        d < month_length(y, m) ==> day_number(y, m, d + 1) == day_number(y, m, d) + 1,
        d == month_length(y, m) && m < 12 ==> day_number(y, m + 1, 1) == day_number(y, m, d) + 1,
        d == month_length(y, m) && m == 12 ==> day_number(y + 1, 1, 1) == day_number(y, m, d) + 1,
{
    if m == 12 {
        assert(days_before_month(y, 12) == 334 + if is_leap(y) {
            1int
        } else {
            0int
        }) by {
            reveal_with_fuel(days_before_month, 13);
        }
        lemma_year_length(y - 1);
    }
}

/// A year has 365 days and a leap year one more, in February; four hundred years have 146097 days.
pub proof fn law_leap_years_have_a_day_more(y: int)
    requires
        y > 0,
    ensures
        days_before_year(y + 1) - days_before_year(y) == (if is_leap(y) {
            366int
        } else {
            365int
        }),
        days_before_year(y + 400) - days_before_year(y) == 146_097,
        is_leap(y) <==> month_length(y, 2) == 29,
{
    lemma_year_length(y - 1);
    let s = y - 1;
    assert(y + 400 - 1 == s + 400);
    assert((s + 400) / 4 == s / 4 + 100);
    assert((s + 400) / 100 == s / 100 + 4);
    assert((s + 400) / 400 == s / 400 + 1);
}

/// Ticks are ten millions to the second and count from the first day of the year 1.
pub proof fn law_ticks_count_from_the_first_year(secs: int, part: int)
    requires
        secs >= 0,
        0 <= part < 10_000_000,
    ensures
        UNIX_EPOCH_TICKS == days_before_year(1970) * 86_400 * 10_000_000,
        unix_seconds(UNIX_EPOCH_TICKS + secs * 10_000_000 + part) == secs,
        unix_seconds(UNIX_EPOCH_TICKS - secs * 10_000_000 - part) == -secs,
{
}

/// A moment is written as month, day and year and then hours, minutes and seconds.
pub proof fn law_moments_are_written_in_order(
    y: int,
    m: int,
    d: int,
    hour: int,
    minute: int,
    second: int,
)
    requires
        0 <= hour < 24,
        0 <= minute < 60,
        0 <= second < 60,
        0 <= y,
    ensures
        moment_text(y, m, d, 3600 * hour + 60 * minute + second) == padded(m as nat, 2) + seq!['/']
            + padded(d as nat, 2) + seq!['/'] + padded(y as nat, 4) + seq![' '] + padded(
            hour as nat,
            2,
        ) + seq![':'] + padded(minute as nat, 2) + seq![':'] + padded(second as nat, 2),
{
    let t = 3600 * hour + 60 * minute + second;
    assert(t / 3600 == hour);
    assert(t / 60 % 60 == minute);
    assert(t % 60 == second);
}

} // verus!
