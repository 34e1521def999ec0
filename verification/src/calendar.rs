//! Calendar dates of Unix times.
use crate::number::padded;
use crate::number::padded_text;
use vstd::arithmetic::div_mod::lemma_hoist_over_denominator;
use vstd::arithmetic::div_mod::lemma_mod_multiples_vanish;
use vstd::prelude::*;
use vstd::string::StringExecFns;

verus! {

/// A leap year of the Gregorian calendar.
pub open spec fn is_leap_year(year: int) -> bool {
    year % 4 == 0 && (year % 100 != 0 || year % 400 == 0)
}

/// How many days a month has; months count from 1.
pub open spec fn days_in_month(year: int, month: int) -> int {
    if month == 2 {
        if is_leap_year(year) {
            29
        } else {
            28
        }
    } else if month == 4 || month == 6 || month == 9 || month == 11 {
        30
    } else {
        31
    }
}

/// How many days lie between the first of January 1970 and that of `year`.
pub open spec fn days_before_year(year: int) -> int
    decreases year - 1970,
{
    if year <= 1970 {
        0
    } else {
        days_before_year(year - 1) + (if is_leap_year(year - 1) {
            366int
        } else {
            365int
        })
    }
}

/// How many days of `year` lie before the first of `month`.
pub open spec fn days_before_month(year: int, month: int) -> int
    decreases month,
{
    if month <= 1 {
        0
    } else {
        days_before_month(year, month - 1) + days_in_month(year, month - 1)
    }
}

/// A day of the calendar, from 1970 on.
pub struct Date {
    pub year: int,
    pub month: int,
    pub day: int,
}

/// There is such a day, and it does not lie before 1970.
pub open spec fn is_date(date: Date) -> bool {
    &&& 1970 <= date.year
    &&& 1 <= date.month <= 12
    &&& 1 <= date.day <= days_in_month(date.year, date.month)
}

/// How many days lie between the first of January 1970 and `date`.
pub open spec fn day_number(date: Date) -> int {
    days_before_year(date.year) + days_before_month(date.year, date.month) + (date.day - 1)
}

/// The date that lies `days` days after the first of January 1970.
pub open spec fn date_of_day(days: int) -> Date {
    choose|date: Date| is_date(date) && #[trigger] day_number(date) == days
}

/// A date as year, month and day, with four, two and two digits or more.
pub open spec fn date_text(date: Date) -> Seq<char> {
    padded(date.year as nat, 4) + seq!['-'] + padded(date.month as nat, 2) + seq!['-'] + padded(
        date.day as nat,
        2,
    )
}

// ---------------------------------------------------------------------------
// Facts about days
// ---------------------------------------------------------------------------

proof fn lemma_leap_step(year: int)
    requires
        1 <= year,
    ensures
        year / 4 - year / 100 + year / 400 == (year - 1) / 4 - (year - 1) / 100 + (year - 1) / 400
            + (if is_leap_year(year) {
            1int
        } else {
            0int
        }),
{
    assert(year % 400 == 0 ==> year % 100 == 0);
    assert(year % 100 == 0 ==> year % 4 == 0);
}

proof fn lemma_days_before_year(year: int)
    requires
        1970 <= year,
    ensures
        days_before_year(year) == 365 * year + (year - 1) / 4 - (year - 1) / 100 + (year - 1) / 400
            - 719527,
    decreases year,
{
    if year > 1970 {
        lemma_days_before_year(year - 1);
        lemma_leap_step(year - 1);
    }
}

#[verifier::rlimit(40)]
#[verifier::spinoff_prover]
proof fn lemma_year_of_era(doe: int)
    requires
        0 <= doe <= 146096,
    ensures
        ({
            let yoe = (doe - doe / 1460 + doe / 36524 - doe / 146096) / 365;
            let doy = doe - (365 * yoe + yoe / 4 - yoe / 100);
            let next = yoe + 1;
            &&& 0 <= yoe <= 399
            &&& 0 <= doy <= 365
            &&& doy == 365 ==> next % 4 == 0 && (next % 100 != 0 || next == 400)
        }),
{
}

/// A year has 365 days, a leap year 366.
proof fn lemma_days_of_year(year: int)
    ensures
        days_before_month(year, 13) == (if is_leap_year(year) {
            366int
        } else {
            365int
        }),
{
    reveal_with_fuel(days_before_month, 13);
}

proof fn lemma_days_before_month_grows(year: int, from: int, to: int)
    requires
        1 <= from <= to,
    ensures
        days_before_month(year, from) <= days_before_month(year, to),
    decreases to,
{
    if from < to {
        lemma_days_before_month_grows(year, from, to - 1);
    }
}

proof fn lemma_days_before_year_grows(from: int, to: int)
    requires
        from <= to,
    ensures
        days_before_year(from) <= days_before_year(to),
    decreases to - from,
{
    if from < to {
        lemma_days_before_year_grows(from, to - 1);
    }
}

/// A date of an earlier year or of an earlier month of the same year has a smaller day number.
proof fn lemma_earlier_date(a: Date, b: Date)
    requires
        is_date(a),
        is_date(b),
        a.year < b.year || (a.year == b.year && a.month < b.month),
    ensures
        day_number(a) < day_number(b),
{
    if a.year < b.year {
        lemma_days_of_year(a.year);
        lemma_days_before_month_grows(a.year, a.month + 1, 13);
        lemma_days_before_year_grows(a.year + 1, b.year);
        lemma_days_before_month_grows(b.year, 1, b.month);
    } else {
        lemma_days_before_month_grows(a.year, a.month + 1, b.month);
    }
}

/// No two dates are the same day.
pub proof fn law_one_date_per_day(a: Date, b: Date)
    requires
        is_date(a),
        is_date(b),
        day_number(a) == day_number(b),
    ensures
        a == b,
{
    if a.year < b.year || (a.year == b.year && a.month < b.month) {
        lemma_earlier_date(a, b);
    } else if b.year < a.year || (b.year == a.year && b.month < a.month) {
        lemma_earlier_date(b, a);
    }
}

/// The day of a year that starts in March tells month and day.
proof fn lemma_month_of_year(start: int, doy: int)
    requires
        1969 <= start,
        0 <= doy <= 365,
        doy == 365 ==> is_leap_year(start + 1),
        start == 1969 ==> doy >= 306,
    ensures
        ({
            let mp = (5 * doy + 2) / 153;
            let month = if mp < 10 {
                mp + 3
            } else {
                mp - 9
            };
            let year = if month <= 2 {
                start + 1
            } else {
                start
            };
            let date = Date { year, month, day: doy - (153 * mp + 2) / 5 + 1 };
            &&& 0 <= mp <= 11
            &&& is_date(date)
            &&& day_number(date) == 365 * start + start / 4 - start / 100 + start / 400 + doy
                - 719468
        }),
{
    let mp = (5 * doy + 2) / 153;
    let month = if mp < 10 {
        mp + 3
    } else {
        mp - 9
    };
    let year = if month <= 2 {
        start + 1
    } else {
        start
    };
    reveal_with_fuel(days_before_month, 13);
    lemma_days_before_year(year);
    lemma_leap_step(start);
    assert(0 <= mp <= 11);
    assert(mp == 0 || mp == 1 || mp == 2 || mp == 3 || mp == 4 || mp == 5 || mp == 6 || mp == 7
        || mp == 8 || mp == 9 || mp == 10 || mp == 11);
}

/// What the years of an era have in common with those of the first.
proof fn lemma_era(era: int, yoe: int)
    requires
        0 <= yoe <= 399,
        0 <= era,
    ensures
        ({
            let start = yoe + era * 400;
            &&& start / 4 - start / 100 + start / 400 == yoe / 4 - yoe / 100 + era * 97
            &&& is_leap_year(start + 1) == ((yoe + 1) % 4 == 0 && ((yoe + 1) % 100 != 0 || yoe + 1
                == 400))
        }),
{
    let start = yoe + era * 400;
    let next = yoe + 1;
    lemma_hoist_over_denominator(yoe, era * 100, 4);
    lemma_hoist_over_denominator(yoe, era * 4, 100);
    lemma_hoist_over_denominator(yoe, era, 400);
    lemma_mod_multiples_vanish(era * 100, next, 4);
    lemma_mod_multiples_vanish(era * 4, next, 100);
    lemma_mod_multiples_vanish(era, next, 400);
    assert(yoe / 400 == 0);
    assert(next % 400 == 0 <==> next == 400);
    assert(start + 1 == 4 * (era * 100) + next);
    assert(start + 1 == 100 * (era * 4) + next);
    assert(start + 1 == 400 * era + next);
}

/// The date of a day, reckoned in eras of 400 years that start in March.
proof fn lemma_date_of_day(days: int)
    requires
        0 <= days,
    ensures
        ({
            let era = (days + 719468) / 146097;
            let doe = (days + 719468) % 146097;
            let yoe = (doe - doe / 1460 + doe / 36524 - doe / 146096) / 365;
            let doy = doe - (365 * yoe + yoe / 4 - yoe / 100);
            let mp = (5 * doy + 2) / 153;
            let month = if mp < 10 {
                mp + 3
            } else {
                mp - 9
            };
            let year = if month <= 2 {
                yoe + era * 400 + 1
            } else {
                yoe + era * 400
            };
            &&& 0 <= yoe <= 399
            &&& 0 <= doy <= 365
            &&& 0 <= mp <= 11
            &&& date_of_day(days) == (Date { year, month, day: doy - (153 * mp + 2) / 5 + 1 })
            &&& is_date(date_of_day(days))
            &&& day_number(date_of_day(days)) == days
        }),
{
    let era = (days + 719468) / 146097;
    let doe = (days + 719468) % 146097;
    lemma_year_of_era(doe);
    let yoe = (doe - doe / 1460 + doe / 36524 - doe / 146096) / 365;
    let doy = doe - (365 * yoe + yoe / 4 - yoe / 100);
    let start = yoe + era * 400;
    lemma_era(era, yoe);
    assert(days + 719468 == 365 * start + start / 4 - start / 100 + start / 400 + doy);
    lemma_month_of_year(start, doy);
    let mp = (5 * doy + 2) / 153;
    let month = if mp < 10 {
        mp + 3
    } else {
        mp - 9
    };
    let year = if month <= 2 {
        start + 1
    } else {
        start
    };
    let date = Date { year, month, day: doy - (153 * mp + 2) / 5 + 1 };
    assert(is_date(date) && day_number(date) == days);
    law_one_date_per_day(date, date_of_day(days));
}

/// Every day from the first of January 1970 on has a date.
pub proof fn law_every_day_has_a_date(days: int)
    requires
        0 <= days,
    ensures
        is_date(date_of_day(days)),
        day_number(date_of_day(days)) == days,
{
    lemma_date_of_day(days);
}

/// The date of a Unix time in seconds; a time up to 0 stands for no end at all.
pub open spec fn expire_text(ts: i64) -> Seq<char> {
    if ts <= 0 {
        "永久"@
    } else {
        date_text(date_of_day(ts as int / 86400))
    }
}

/// The date of a Unix time in seconds; a time up to 0 stands for no end at all.
pub fn format_expire(ts: i64) -> (text: String)
    ensures
        text@ == expire_text(ts),
{
    if ts <= 0 {
        return "永久".to_owned();
    }
    let days: u64 = ts as u64 / 86_400;
    proof {
        lemma_date_of_day(days as int);
        reveal_strlit("-");
        assert("-"@ =~= seq!['-']);
    }
    let z: u64 = days + 719_468;
    let era: u64 = z / 146_097;
    let doe: u64 = z % 146_097;
    let yoe: u64 = (doe - doe / 1460 + doe / 36524 - doe / 146_096) / 365;
    let doy: u64 = doe - (365 * yoe + yoe / 4 - yoe / 100);
    let mp: u64 = (5 * doy + 2) / 153;
    let day: u64 = doy - (153 * mp + 2) / 5 + 1;
    let month: u64 = if mp < 10 {
        mp + 3
    } else {
        mp - 9
    };
    let year: u64 = if month <= 2 {
        yoe + era * 400 + 1
    } else {
        yoe + era * 400
    };
    let mut text = padded_text(year, 4);
    text.append("-");
    text.append(padded_text(month, 2).as_str());
    text.append("-");
    text.append(padded_text(day, 2).as_str());
    text
}

// ---------------------------------------------------------------------------
// Laws
// ---------------------------------------------------------------------------

/// Days are counted from the first of January 1970, and every day is followed by the next of its
/// month, or else by the first of the next month, or else by the first of January. Months have the
/// lengths that they have, and a leap year is one that 4 divides, and 100 only if 400 does.
pub proof fn law_day_after_day(days: int)
    requires
        0 <= days,
    ensures
        date_of_day(0) == (Date { year: 1970, month: 1, day: 1 }),
        ({
            let date = date_of_day(days);
            let leap = date.year % 400 == 0 || (date.year % 4 == 0 && date.year % 100 != 0);
            let february = if leap {
                29int
            } else {
                28int
            };
            let last = seq![31int, february, 31, 30, 31, 30, 31, 31, 30, 31, 30, 31][date.month - 1];
            date_of_day(days + 1) == (if date.day < last {
                Date { year: date.year, month: date.month, day: date.day + 1 }
            } else if date.month < 12 {
                Date { year: date.year, month: date.month + 1, day: 1 }
            } else {
                Date { year: date.year + 1, month: 1, day: 1 }
            })
        }),
{
    let first = Date { year: 1970, month: 1, day: 1 };
    assert(day_number(first) == 0);
    law_every_day_has_a_date(0);
    law_one_date_per_day(first, date_of_day(0));
    law_every_day_has_a_date(days);
    law_every_day_has_a_date(days + 1);
    let date = date_of_day(days);
    let months = days_in_month(date.year, date.month);
    let next = if date.day < months {
        Date { year: date.year, month: date.month, day: date.day + 1 }
    } else if date.month < 12 {
        Date { year: date.year, month: date.month + 1, day: 1 }
    } else {
        Date { year: date.year + 1, month: 1, day: 1 }
    };
    lemma_days_of_year(date.year);
    if date.month == 12 {
        assert(days_before_month(date.year, 13) == days_before_month(date.year, 12) + months);
    }
    assert(is_date(next));
    assert(day_number(next) == days + 1);
    law_one_date_per_day(next, date_of_day(days + 1));
}

/// A time is shown as the day that it falls on, counted in days of 86400 seconds: four digits or
/// more for the year, two each for month and day. A time up to 0 never comes.
pub proof fn law_time_is_shown_as_its_day(ts: i64)
    ensures
        ts <= 0 ==> expire_text(ts) == "永久"@,
        ts > 0 ==> exists|days: int|
            86400 * days <= ts < 86400 * (days + 1) && expire_text(ts) == padded(
                (#[trigger] date_of_day(days)).year as nat,
                4,
            ) + seq!['-'] + padded(date_of_day(days).month as nat, 2) + seq!['-'] + padded(
                date_of_day(days).day as nat,
                2,
            ),
{
    if ts > 0 {
        let days = ts as int / 86400;
        assert(86400 * days <= ts < 86400 * (days + 1));
        assert(expire_text(ts) == date_text(date_of_day(days)));
    }
}

} // verus!
