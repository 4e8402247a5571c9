//! UTC timestamps.

use vstd::prelude::*;
use vstd::string::*;
use crate::text::chars_of;
use crate::text::dec;
use crate::text::push_dec;

verus! {

/// Whether a year of the Gregorian calendar has 366 days.
pub open spec fn is_leap(y: int) -> bool {
    y % 4 == 0 && (y % 100 != 0 || y % 400 == 0)
}

/// How many days a month has.
pub open spec fn month_days(y: int, m: int) -> int {
    if m == 2 {
        if is_leap(y) {
            29
        } else {
            28
        }
    } else if m == 4 || m == 6 || m == 9 || m == 11 {
        30
    } else {
        31
    }
}

/// How many days the months before `m` have.
pub open spec fn days_before_month(y: int, m: int) -> int
    decreases m,
{
    if m <= 1 {
        0
    } else {
        days_before_month(y, m - 1) + month_days(y, m - 1)
    }
}

/// How many days lie between the start of year 0 and that of year `y`.
pub open spec fn days_before_year(y: int) -> int {
    if y <= 0 {
        0
    } else {
        365 * y + (y - 1) / 4 - (y - 1) / 100 + (y - 1) / 400 + 1
    }
}

/// How many days lie between 1970-01-01 and a date.
pub open spec fn day_number(y: int, m: int, d: int) -> int {
    days_before_year(y) + days_before_month(y, m) + d - 1 - 719528
}

/// Whether a date exists.
pub open spec fn is_date(y: int, m: int, d: int) -> bool {
    1 <= m <= 12 && 1 <= d <= month_days(y, m)
}

/// The days before a year are those of the years before it.
#[verifier::spinoff_prover]
#[verifier::rlimit(50)]
pub proof fn days_before_year_counts_years(y: int)
    requires
        y >= 0,
    ensures
        days_before_year(0) == 0,
        days_before_year(y + 1) == days_before_year(y) + if is_leap(y) {
            366int
        } else {
            365int
        },
{
}

/// How many days of a 400-year era, counted from March, lie before its year
/// `n`.
spec fn era_days(n: int) -> int {
    365 * n + n / 4 - n / 100
}

/// Finds the year of an era that holds a day.
#[verifier::spinoff_prover]
#[verifier::rlimit(60)]
proof fn lemma_year_of_era(doe: int)
    requires
        0 <= doe < 146097,
    ensures
        ({
            let yoe = (doe - doe / 1460 + doe / 36524 - doe / 146096) / 365;
            let doy = doe - era_days(yoe);
            &&& 0 <= yoe < 400
            &&& 0 <= doy <= 365
            &&& doy == 365 ==> yoe == 399 || ((yoe + 1) % 4 == 0 && (yoe + 1) % 100 != 0)
        }),
{
    let a = doe / 1460;
    let b = doe / 36524;
    let c = doe / 146096;
    let yoe = (doe - a + b - c) / 365;
    assert(0 <= b <= 4);
    if b == 4 {
        assert(doe == 146096);
        assert(yoe == 399);
    } else {
        assert(c == 0);
        let r = doe - 36524 * b;
        assert(0 <= r < 36524);
        // Inside a century: a is the number of whole four-year spans, give or
        // take what the centuries before lack.
        let k = yoe - 100 * b;
        assert(0 <= k < 100) by {
            assert(1460 * a <= doe < 1460 * a + 1460);
        }
        assert(yoe / 100 == b);
        assert(yoe / 4 == 25 * b + k / 4);
    }
}

/// Finds the month, counted from March, that holds a day of the year.
#[verifier::spinoff_prover]
#[verifier::rlimit(60)]
proof fn lemma_month_of_year(doy: int)
    requires
        0 <= doy <= 365,
    ensures
        ({
            let mp = (5 * doy + 2) / 153;
            let start = (153 * mp + 2) / 5;
            &&& 0 <= mp <= 11
            &&& start <= doy
            &&& mp < 11 ==> doy < (153 * (mp + 1) + 2) / 5
        }),
{
}

/// The date of a month counted from March in a year counted from March.
#[verifier::spinoff_prover]
#[verifier::rlimit(60)]
proof fn lemma_date(year: int, doy: int)
    requires
        year >= 0,
        0 <= doy <= 365,
        doy == 365 ==> is_leap(year + 1),
    ensures
        ({
            let mp = (5 * doy + 2) / 153;
            let d = doy - (153 * mp + 2) / 5 + 1;
            let m = if mp < 10 {
                mp + 3
            } else {
                mp - 9
            };
            let y = if m <= 2 {
                year + 1
            } else {
                year
            };
            &&& is_date(y, m, d)
            &&& days_before_year(y) + days_before_month(y, m) + d - 1 == 365 * year + year / 4
                - year / 100 + year / 400 + doy + 60
        }),
{
    lemma_month_of_year(doy);
    reveal_with_fuel(days_before_month, 13);
    let mp = (5 * doy + 2) / 153;
    assert(mp == 0 || mp == 1 || mp == 2 || mp == 3 || mp == 4 || mp == 5 || mp == 6 || mp == 7
        || mp == 8 || mp == 9 || mp == 10 || mp == 11);
    days_before_year_counts_years(year);
    assert(days_before_year(year + 1) == 365 * (year + 1) + year / 4 - year / 100 + year / 400
        + 1);
}

/// The date (year, month, day) of a day counted from 1970-01-01.
#[verifier::spinoff_prover]
#[verifier::rlimit(60)]
pub fn days_to_ymd(days: u64) -> (r: (u64, u64, u64))
    requires
        days <= u64::MAX - 719468,
    ensures
        is_date(r.0 as int, r.1 as int, r.2 as int),
        day_number(r.0 as int, r.1 as int, r.2 as int) == days,
{
    // Howard Hinnant's civil-from-days algorithm.
    let n: u64 = days + 719468;
    let era: u64 = n / 146097;
    let doe: u64 = n % 146097;
    proof {
        lemma_year_of_era(doe as int);
    }
    let yoe: u64 = (doe - doe / 1460 + doe / 36524 - doe / 146096) / 365;
    let y: u64 = yoe + era * 400;
    let doy: u64 = doe - (365 * yoe + yoe / 4 - yoe / 100);
    proof {
        let year = y as int;
        assert(year / 4 == 100 * era + yoe / 4);
        assert(year / 100 == 4 * era + yoe / 100);
        assert(year / 400 == era);
        assert(doy == 365 ==> is_leap(year + 1));
        lemma_month_of_year(doy as int);
        lemma_date(year, doy as int);
    }
    let mp: u64 = (5 * doy + 2) / 153;
    let d: u64 = doy - (153 * mp + 2) / 5 + 1;
    let m: u64 = if mp < 10 {
        mp + 3
    } else {
        mp - 9
    };
    (
        if m <= 2 {
            y + 1
        } else {
            y
        },
        m,
        d,
    )
}

/// `n` in decimal with zeros in front, at least `w` digits.
pub open spec fn padded(n: nat, w: nat) -> Seq<char> {
    let d = dec(n);
    Seq::new(
        if d.len() < w {
            (w - d.len()) as nat
        } else {
            0
        },
        |i: int| '0',
    ) + d
}

/// Appends `n` in decimal with zeros in front, at least `w` digits.
fn push_padded(s: &mut String, n: u64, w: usize)
    ensures
        final(s)@ == old(s)@ + padded(n as nat, w as nat),
{
    let mut d: String = String::new();
    push_dec(&mut d, n);
    assert(d@ =~= dec(n as nat));
    let have: usize = chars_of(d.as_str()).len();
    let mut i: usize = have;
    let ghost zeros = |k: int| Seq::new(k as nat, |i: int| '0');
    assert(s@ =~= old(s)@ + zeros(0));
    while i < w
        invariant
            have <= i,
            have == d@.len(),
            i <= w || i == have,
            zeros == |k: int| Seq::new(k as nat, |i: int| '0'),
            s@ == old(s)@ + zeros(i - have),
        decreases w - i,
    {
        s.push('0');
        i = i + 1;
        assert(s@ =~= old(s)@ + zeros(i - have));
    }
    s.append(d.as_str());
    assert(s@ =~= old(s)@ + padded(n as nat, w as nat));
}

/// The text of a UTC time on a given date.
pub open spec fn time_text(y: nat, mo: nat, d: nat, rem: nat) -> Seq<char> {
    padded(y, 4) + "-"@ + padded(mo, 2) + "-"@ + padded(d, 2) + " "@ + padded(rem / 3600, 2)
        + ":"@ + padded((rem % 3600) / 60, 2) + ":"@ + padded(rem % 60, 2) + "Z"@
}

/// The UTC timestamp of a second counted from 1970-01-01, as
/// `YYYY-MM-DD hh:mm:ssZ`.
#[verifier::spinoff_prover]
#[verifier::rlimit(60)]
pub fn chrono_ts(secs: u64) -> (r: String)
    ensures
        exists|y: int, mo: int, d: int|
            is_date(y, mo, d) && y >= 0 && #[trigger] day_number(y, mo, d) == secs as int / 86400
                && r@ == time_text(y as nat, mo as nat, d as nat, (secs % 86400) as nat) && r@
                == padded(y as nat, 4) + "-"@ + padded(mo as nat, 2) + "-"@ + padded(d as nat, 2)
                + " "@ + padded((secs % 86400) as nat / 3600, 2) + ":"@ + padded(
                ((secs % 86400) as nat % 3600) / 60,
                2,
            ) + ":"@ + padded((secs % 86400) as nat % 60, 2) + "Z"@,
{
    let days: u64 = secs / 86400;
    let rem: u64 = secs % 86400;
    let (y, mo, d) = days_to_ymd(days);
    let mut s: String = String::new();
    push_padded(&mut s, y, 4);
    s.append("-");
    push_padded(&mut s, mo, 2);
    s.append("-");
    push_padded(&mut s, d, 2);
    s.append(" ");
    push_padded(&mut s, rem / 3600, 2);
    s.append(":");
    push_padded(&mut s, (rem % 3600) / 60, 2);
    s.append(":");
    push_padded(&mut s, rem % 60, 2);
    s.append("Z");
    assert(s@ =~= time_text(y as nat, mo as nat, d as nat, rem as nat));
    assert(day_number(y as int, mo as int, d as int) == secs as int / 86400);
    s
}

/// A day has one date: dates with the same number are equal.
#[verifier::spinoff_prover]
#[verifier::rlimit(60)]
pub proof fn day_has_one_date(y: int, m: int, d: int, y2: int, m2: int, d2: int)
    requires
        y >= 0,
        y2 >= 0,
        is_date(y, m, d),
        is_date(y2, m2, d2),
        day_number(y, m, d) == day_number(y2, m2, d2),
    ensures
        y == y2 && m == m2 && d == d2,
{
    lemma_within_year(y, m, d);
    lemma_within_year(y2, m2, d2);
    if y < y2 {
        lemma_years_ascend(y, y2);
    } else if y2 < y {
        lemma_years_ascend(y2, y);
    } else if m < m2 {
        lemma_months_ascend(y, m, m2);
    } else if m2 < m {
        lemma_months_ascend(y, m2, m);
    }
}

proof fn lemma_years_ascend(y: int, z: int)
    requires
        0 <= y < z,
    ensures
        days_before_year(y) + if is_leap(y) {
            366int
        } else {
            365int
        } <= days_before_year(z),
    decreases z - y,
{
    days_before_year_counts_years(y);
    if y + 1 < z {
        lemma_years_ascend(y + 1, z);
    }
}

proof fn lemma_months_ascend(y: int, m: int, n: int)
    requires
        1 <= m < n <= 12,
    ensures
        days_before_month(y, m) + month_days(y, m) <= days_before_month(y, n),
    decreases n - m,
{
    if m + 1 < n {
        lemma_months_ascend(y, m, n - 1);
    }
}

proof fn lemma_within_year(y: int, m: int, d: int)
    requires
        is_date(y, m, d),
    ensures
        0 <= days_before_month(y, m) + d - 1 < if is_leap(y) {
            366int
        } else {
            365int
        },
{
    reveal_with_fuel(days_before_month, 13);
    assert(m == 1 || m == 2 || m == 3 || m == 4 || m == 5 || m == 6 || m == 7 || m == 8 || m == 9
        || m == 10 || m == 11 || m == 12);
}

/// The calendar: day zero is the first of January 1970, each day is followed by
/// the next of its month, or by the first of the next month, or by New Year's
/// Day; every fourth year has a 29th of February, but for the hundreds that are
/// not four hundreds; and after four hundred years it begins again.
#[verifier::spinoff_prover]
#[verifier::rlimit(60)]
pub proof fn days_follow_each_other(y: int, m: int, d: int)
    requires
        y >= 0,
        is_date(y, m, d),
    ensures
        day_number(1970, 1, 1) == 0,
        is_date(y, m, d + 1) ==> day_number(y, m, d + 1) == day_number(y, m, d) + 1,
        !is_date(y, m, d + 1) && m < 12 ==> is_date(y, m + 1, 1) && day_number(y, m + 1, 1)
            == day_number(y, m, d) + 1,
        !is_date(y, m, d + 1) && m == 12 ==> d == 31 && is_date(y + 1, 1, 1) && day_number(
            y + 1,
            1,
            1,
        ) == day_number(y, m, d) + 1,
        is_date(y, 2, 29) <==> y % 4 == 0 && !(y % 100 == 0 && y % 400 != 0),
        !is_date(y, 2, 30),
        is_date(y, 2, 28),
{
    days_before_year_counts_years(y);
    reveal_with_fuel(days_before_month, 14);
    assert(days_before_month(y, 1) == 0);
    assert(days_before_month(1970, 1) == 0);
    assert(days_before_month(y + 1, 1) == 0);
    assert(days_before_month(y, 12) + 31 == if is_leap(y) {
        366int
    } else {
        365int
    });
}

/// A number with zeros in front is the number, in at least as many digits as
/// are asked for, and in no more than it needs.
pub proof fn padding_keeps_the_number(n: nat, w: nat)
    ensures
        padded(n, w).len() == if dec(n).len() < w {
            w
        } else {
            dec(n).len()
        },
        padded(n, w).skip(padded(n, w).len() - dec(n).len()) == dec(n),
        forall|i: int|
            0 <= i < padded(n, w).len() - dec(n).len() ==> #[trigger] padded(n, w)[i] == '0',
{
    assert(padded(n, w).skip(padded(n, w).len() - dec(n).len()) =~= dec(n));
}

} // verus!
