//! Dates in the proleptic Gregorian calendar, and Unix time written in them.

use vstd::prelude::*;
use vstd::string::*;

use crate::text;

verus! {

/// Whether `year` has a 29th of February.
pub open spec fn is_leap(year: int) -> bool {
    year % 4 == 0 && (year % 100 != 0 || year % 400 == 0)
}

/// The number of days in `year`.
pub open spec fn days_in_year(year: int) -> int {
    if is_leap(year) {
        366
    } else {
        365
    }
}

/// The number of days in a month of `year`.
pub open spec fn days_in_month(year: int, month: int) -> int {
    if month == 2 {
        if is_leap(year) {
            29
        } else {
            28
        }
    } else if month == 4 || month == 6 || month == 9 || month == 11 {
        30
    } else {
        31
    }
}

/// Days from the first of January of year 1 to the first of January of `year`.
pub open spec fn days_before_year(year: int) -> int {
    365 * (year - 1) + (year - 1) / 4 - (year - 1) / 100 + (year - 1) / 400
}

/// Days from the first of January to the first of `month`.
pub open spec fn days_before_month(year: int, month: int) -> int
    decreases month,
{
    if month <= 1 {
        0
    } else {
        days_before_month(year, month - 1) + days_in_month(year, month - 1)
    }
}

/// Whether `(year, month, day)` is a date of the calendar.
pub open spec fn is_date(date: (int, int, int)) -> bool {
    &&& 1 <= date.1 <= 12
    &&& 1 <= date.2 <= days_in_month(date.0, date.1)
}

/// Days from the first of January 1970 to a date.
pub open spec fn day_number(date: (int, int, int)) -> int {
    days_before_year(date.0) - days_before_year(1970) + days_before_month(date.0, date.1) + date.2
        - 1
}

/// The date that lies `day` days after the first of January 1970.
pub open spec fn date_of(day: int) -> (int, int, int) {
    choose|date: (int, int, int)| is_date(date) && day_number(date) == day
}

/// The months before `month`, in days, written out.
proof fn lemma_days_before_month(year: int, month: int)
    requires
        1 <= month <= 13,
    ensures
        days_before_month(year, month) == {
            let leap: int = if is_leap(year) {
                1
            } else {
                0
            };
            if month == 1 {
                0
            } else if month == 2 {
                31
            } else if month == 3 {
                59 + leap
            } else if month == 4 {
                90 + leap
            } else if month == 5 {
                120 + leap
            } else if month == 6 {
                151 + leap
            } else if month == 7 {
                181 + leap
            } else if month == 8 {
                212 + leap
            } else if month == 9 {
                243 + leap
            } else if month == 10 {
                273 + leap
            } else if month == 11 {
                304 + leap
            } else if month == 12 {
                334 + leap
            } else {
                365 + leap
            }
        },
{
    reveal_with_fuel(days_before_month, 14);
}

/// Consecutive years lie one year's length apart.
pub proof fn law_years_follow_each_other(year: int)
    ensures
        days_before_year(year + 1) == days_before_year(year) + days_in_year(year),
{
}

/// Later years start later.
proof fn lemma_years_ordered(early: int, late: int)
    requires
        early <= late,
    ensures
        days_before_year(early) + 365 * (late - early) <= days_before_year(late),
    decreases late - early,
{
    if early < late {
        lemma_years_ordered(early, late - 1);
        law_years_follow_each_other(late - 1);
    }
}

/// No two dates share a day number.
pub proof fn law_day_number_determines_date(left: (int, int, int), right: (int, int, int))
    requires
        is_date(left),
        is_date(right),
        day_number(left) == day_number(right),
    ensures
        left == right,
{
    lemma_days_before_month(left.0, left.1);
    lemma_days_before_month(left.0, left.1 + 1);
    lemma_days_before_month(right.0, right.1);
    lemma_days_before_month(right.0, right.1 + 1);
    law_years_follow_each_other(left.0);
    law_years_follow_each_other(right.0);
    if left.0 < right.0 {
        lemma_years_ordered(left.0 + 1, right.0);
    } else if right.0 < left.0 {
        lemma_years_ordered(right.0 + 1, left.0);
    }
}

/// The year of a 400-year era that a day of the era falls in, where years run
/// from March to February.
pub open spec fn year_of_era_of(day_of_era: int) -> int {
    (day_of_era - day_of_era / 1460 + day_of_era / 36_524 - day_of_era / 146_096) / 365
}

/// The days of an era before its year `year_of_era`.
pub open spec fn era_days_before(year_of_era: int) -> int {
    365 * year_of_era + year_of_era / 4 - year_of_era / 100
}

/// The closed formula finds the year whose days hold `day_of_era`.
proof fn lemma_year_of_era(day_of_era: int)
    requires
        0 <= day_of_era < 146_097,
    ensures
        0 <= year_of_era_of(day_of_era) <= 399,
        era_days_before(year_of_era_of(day_of_era)) <= day_of_era,
        day_of_era <= era_days_before(year_of_era_of(day_of_era)) + 365,
        day_of_era == era_days_before(year_of_era_of(day_of_era)) + 365 ==> (year_of_era_of(day_of_era)
            + 1) % 4 == 0 && ((year_of_era_of(day_of_era) + 1) % 100 != 0 || year_of_era_of(
            day_of_era,
        ) == 399),
{
}

/// Eras of 400 years have 146097 days each, and their years line up.
proof fn lemma_era(era: int, year_of_era: int)
    requires
        0 <= year_of_era <= 399,
    ensures
        days_before_year(400 * era + year_of_era + 1) == 146_097 * era + era_days_before(
            year_of_era,
        ),
        is_leap(400 * era + year_of_era + 1) == is_leap(year_of_era + 1),
{
    let year = 400 * era + year_of_era;
    assert(year / 4 == 100 * era + year_of_era / 4);
    assert(year / 100 == 4 * era + year_of_era / 100);
    assert(year / 400 == era);
    assert((year + 1) % 4 == (year_of_era + 1) % 4);
    assert((year + 1) % 100 == (year_of_era + 1) % 100);
    assert((year + 1) % 400 == (year_of_era + 1) % 400);
}

/// The calendar computation on a day counted from the first of March of year 0.
proof fn lemma_civil(
    shifted: int,
    era: int,
    year_of_era: int,
    day_of_year: int,
    month_prime: int,
    date: (int, int, int),
)
    requires
        0 <= shifted - 146_097 * era < 146_097,
        year_of_era == year_of_era_of(shifted - 146_097 * era),
        day_of_year == shifted - 146_097 * era - era_days_before(year_of_era),
        month_prime == (5 * day_of_year + 2) / 153,
        date.1 == (if month_prime < 10 {
            month_prime + 3
        } else {
            month_prime - 9
        }),
        date.2 == day_of_year - (153 * month_prime + 2) / 5 + 1,
        date.0 == 400 * era + year_of_era + (if date.1 <= 2 {
            1int
        } else {
            0
        }),
    ensures
        0 <= year_of_era <= 399,
        0 <= day_of_year <= 365,
        0 <= month_prime <= 11,
        is_date(date),
        day_number(date) == shifted - 719_468,
{
    lemma_year_of_era(shifted - 146_097 * era);
    lemma_era(era, year_of_era);
    lemma_day_from_march(400 * era + year_of_era, day_of_year, month_prime, date);
}

/// The date reached from `day_of_year` days after the first of March of `year`.
proof fn lemma_day_from_march(year: int, day_of_year: int, month_prime: int, date: (int, int, int))
    requires
        0 <= day_of_year <= 365,
        day_of_year == 365 ==> is_leap(year + 1),
        month_prime == (5 * day_of_year + 2) / 153,
        date.1 == (if month_prime < 10 {
            month_prime + 3
        } else {
            month_prime - 9
        }),
        date.2 == day_of_year - (153 * month_prime + 2) / 5 + 1,
        date.0 == (if date.1 <= 2 {
            year + 1
        } else {
            year
        }),
    ensures
        0 <= month_prime <= 11,
        is_date(date),
        day_number(date) == days_before_year(year + 1) - 306 + day_of_year - days_before_year(1970),
{
    law_years_follow_each_other(year);
    assert(0 <= month_prime <= 11);
    lemma_days_before_month(date.0, date.1);
}

/// Converts days since the first of January 1970 to `(year, month, day)`.
pub fn civil_from_days(days_since_epoch: i64) -> (date: (i64, u32, u32))
    requires
        days_since_epoch <= i64::MAX - 719_468,
    ensures
        is_date((date.0 as int, date.1 as int, date.2 as int)),
        day_number((date.0 as int, date.1 as int, date.2 as int)) == days_since_epoch,
        date_of(days_since_epoch as int) == (date.0 as int, date.1 as int, date.2 as int),
{
    let shifted: i64 = days_since_epoch + 719_468;
    let era: i64 = if shifted >= 0 {
        shifted / 146_097
    } else {
        (shifted - 146_096) / 146_097
    };
    assert(era == shifted as int / 146_097);
    let day_of_era: u64 = (shifted - era * 146_097) as u64;
    let year_of_era: u64 = (day_of_era - day_of_era / 1460 + day_of_era / 36_524 - day_of_era
        / 146_096) / 365;
    proof {
        lemma_year_of_era(day_of_era as int);
    }
    let year: i64 = year_of_era as i64 + era * 400;
    let day_of_year: u64 = day_of_era - (365 * year_of_era + year_of_era / 4 - year_of_era / 100);
    let month_prime: u64 = (5 * day_of_year + 2) / 153;
    let day: u32 = (day_of_year - (153 * month_prime + 2) / 5 + 1) as u32;
    let month: u32 = if month_prime < 10 {
        (month_prime + 3) as u32
    } else {
        (month_prime - 9) as u32
    };
    let civil_year: i64 = if month <= 2 {
        year + 1
    } else {
        year
    };
    proof {
        let date = (civil_year as int, month as int, day as int);
        lemma_civil(
            shifted as int,
            era as int,
            year_of_era as int,
            day_of_year as int,
            month_prime as int,
            date,
        );
        assert(is_date(date_of(days_since_epoch as int)) && day_number(
            date_of(days_since_epoch as int),
        ) == days_since_epoch);
        law_day_number_determines_date(date, date_of(days_since_epoch as int));
    }
    (civil_year, month, day)
}

/// `YYYY-MM-DD HH:MM UTC` for a number of seconds since the Unix epoch.
pub open spec fn timestamp(unix_seconds: nat) -> Seq<char> {
    let date = date_of(unix_seconds as int / 86_400);
    let second_of_day = unix_seconds % 86_400;
    text::zero_padded(date.0 as nat, 4) + "-"@ + text::zero_padded(date.1 as nat, 2) + "-"@ + text::zero_padded(
        date.2 as nat,
        2,
    ) + " "@ + text::zero_padded(second_of_day / 3600, 2) + ":"@ + text::zero_padded(
        second_of_day % 3600 / 60,
        2,
    ) + " UTC"@
}

/// Writes Unix seconds as `YYYY-MM-DD HH:MM UTC`.
pub fn format_timestamp(unix_seconds: u64) -> (text: String)
    ensures
        text@ == timestamp(unix_seconds as nat),
{
    let days: i64 = (unix_seconds / 86_400) as i64;
    let second_of_day: u64 = unix_seconds % 86_400;
    let (year, month, day): (i64, u32, u32) = civil_from_days(days);
    proof {
        lemma_days_before_month(year as int, month as int);
        lemma_days_before_month(year as int, month + 1);
        if year < 1970 {
            law_years_follow_each_other(year as int);
            lemma_years_ordered(year + 1, 1970);
        }
    }
    let mut text: String = text::zero_padded_text(year as u64, 4);
    text.append("-");
    text.append(text::zero_padded_text(month as u64, 2).as_str());
    text.append("-");
    text.append(text::zero_padded_text(day as u64, 2).as_str());
    text.append(" ");
    text.append(text::zero_padded_text(second_of_day / 3600, 2).as_str());
    text.append(":");
    text.append(text::zero_padded_text(second_of_day % 3600 / 60, 2).as_str());
    text.append(" UTC");
    text
}

/// Every day has a date, and `date_of` finds it.
pub proof fn law_every_day_has_a_date(day: int)
    ensures
        is_date(date_of(day)),
        day_number(date_of(day)) == day,
{
    let shifted = day + 719_468;
    let era = shifted / 146_097;
    let year_of_era = year_of_era_of(shifted - 146_097 * era);
    let day_of_year = shifted - 146_097 * era - era_days_before(year_of_era);
    let month_prime = (5 * day_of_year + 2) / 153;
    let month = if month_prime < 10 {
        month_prime + 3
    } else {
        month_prime - 9
    };
    let year = 400 * era + year_of_era + (if month <= 2 {
        1int
    } else {
        0
    });
    let date = (year, month, day_of_year - (153 * month_prime + 2) / 5 + 1);
    lemma_civil(shifted, era, year_of_era, day_of_year, month_prime, date);
}

/// A date is found again from its day number.
pub proof fn law_date_round_trip(date: (int, int, int))
    requires
        is_date(date),
    ensures
        date_of(day_number(date)) == date,
{
    law_every_day_has_a_date(day_number(date));
    law_day_number_determines_date(date, date_of(day_number(date)));
}

/// Whether a date lies before another one.
pub open spec fn date_before(left: (int, int, int), right: (int, int, int)) -> bool {
    left.0 < right.0 || (left.0 == right.0 && (left.1 < right.1 || (left.1 == right.1 && left.2
        < right.2)))
}

/// Later days have later dates.
pub proof fn law_dates_follow_the_days(early: (int, int, int), late: (int, int, int))
    requires
        is_date(early),
        is_date(late),
    ensures
        day_number(early) < day_number(late) <==> date_before(early, late),
{
    lemma_days_before_month(early.0, early.1);
    lemma_days_before_month(early.0, early.1 + 1);
    lemma_days_before_month(late.0, late.1);
    lemma_days_before_month(late.0, late.1 + 1);
    law_years_follow_each_other(early.0);
    law_years_follow_each_other(late.0);
    if early.0 < late.0 {
        lemma_years_ordered(early.0 + 1, late.0);
    } else if late.0 < early.0 {
        lemma_years_ordered(late.0 + 1, early.0);
    }
}

/// The start of year 10000, in Unix seconds.
pub const YEAR_10000: u64 = 253_402_300_800;

/// Days from the epoch up to year 10000 have years of four digits.
proof fn lemma_four_digit_year(day: int)
    requires
        0 <= day < 2_932_897,
    ensures
        is_date(date_of(day)),
        day_number(date_of(day)) == day,
        1970 <= date_of(day).0 < 10_000,
        1 <= date_of(day).1 < 100,
        1 <= date_of(day).2 < 100,
{
    let date = date_of(day);
    law_every_day_has_a_date(day);
    law_dates_follow_the_days(date, (1970, 1, 1));
    law_dates_follow_the_days(date, (10_000, 1, 1));
    lemma_days_before_month(1970, 1);
    lemma_days_before_month(10_000, 1);
}

/// Up to year 10000 a timestamp has 20 characters, `YYYY-MM-DD HH:MM UTC`, with
/// an hour below 24 and a minute below 60.
pub proof fn law_timestamp_has_its_shape(unix_seconds: nat)
    requires
        unix_seconds < YEAR_10000,
    ensures
        timestamp(unix_seconds).len() == 20,
        forall|i: int|
            0 <= i < 16 ==> if i == 4 || i == 7 {
                #[trigger] timestamp(unix_seconds)[i] == '-'
            } else if i == 10 {
                timestamp(unix_seconds)[i] == ' '
            } else if i == 13 {
                timestamp(unix_seconds)[i] == ':'
            } else {
                text::is_digit(timestamp(unix_seconds)[i])
            },
        timestamp(unix_seconds).subrange(11, 13) == text::zero_padded(
            unix_seconds % 86_400 / 3600,
            2,
        ),
        unix_seconds % 86_400 / 3600 < 24,
        timestamp(unix_seconds).subrange(14, 16) == text::zero_padded(
            unix_seconds % 86_400 % 3600 / 60,
            2,
        ),
        unix_seconds % 86_400 % 3600 / 60 < 60,
        timestamp(unix_seconds).subrange(16, 20) == " UTC"@,
{
    let date = date_of(unix_seconds as int / 86_400);
    lemma_four_digit_year(unix_seconds as int / 86_400);
    text::lemma_four_digits(date.0 as nat);
    text::lemma_two_digits(date.1 as nat);
    text::lemma_two_digits(date.2 as nat);
    text::lemma_two_digits(unix_seconds % 86_400 / 3600);
    text::lemma_two_digits(unix_seconds % 86_400 % 3600 / 60);
    reveal_strlit("-");
    reveal_strlit(" ");
    reveal_strlit(":");
    reveal_strlit(" UTC");
    assert(timestamp(unix_seconds).subrange(11, 13) =~= text::zero_padded(
        unix_seconds % 86_400 / 3600,
        2,
    ));
    assert(timestamp(unix_seconds).subrange(14, 16) =~= text::zero_padded(
        unix_seconds % 86_400 % 3600 / 60,
        2,
    ));
    assert(timestamp(unix_seconds).subrange(16, 20) =~= " UTC"@);
}

/// The order of two texts so far, carried on over one more piece of each:
/// `less` says whether an earlier piece has decided, `next_less` whether this
/// one does.
proof fn lemma_order_goes_on(
    less: bool,
    left: Seq<char>,
    right: Seq<char>,
    next_less: bool,
    left_next: Seq<char>,
    right_next: Seq<char>,
)
    requires
        left.len() == right.len(),
        left_next.len() == right_next.len(),
        if less {
            text::text_before(left, right)
        } else {
            left == right
        },
        !less ==> if next_less {
            text::text_before(left_next, right_next)
        } else {
            left_next == right_next
        },
    ensures
        (left + left_next).len() == (right + right_next).len(),
        if less || next_less {
            text::text_before(left + left_next, right + right_next)
        } else {
            left + left_next == right + right_next
        },
{
    text::lemma_text_order_extends(left, right, left_next, right_next);
}

/// Up to year 10000 timestamps order as their instants do, and two are the
/// same just when they lie in the same minute.
pub proof fn law_timestamps_are_ordered(early: nat, late: nat)
    requires
        early <= late < YEAR_10000,
    ensures
        early / 60 == late / 60 <==> timestamp(early) == timestamp(late),
        early / 60 < late / 60 ==> text::text_before(timestamp(early), timestamp(late)),
        !text::text_before(timestamp(late), timestamp(early)),
{
    if early / 60 == late / 60 {
        assert(early / 86_400 == late / 86_400);
        assert(early % 86_400 / 3600 == late % 86_400 / 3600);
        assert(early % 86_400 % 3600 / 60 == late % 86_400 % 3600 / 60);
        text::lemma_text_not_before_itself(timestamp(early));
    } else {
        lemma_later_minute(early, late);
        text::lemma_text_not_before_itself(timestamp(early));
        text::lemma_text_asymmetric(timestamp(early), timestamp(late));
    }
}

proof fn lemma_later_minute(early: nat, late: nat)
    requires
        early / 60 < late / 60,
        late < YEAR_10000,
    ensures
        text::text_before(timestamp(early), timestamp(late)),
{
    let (a, b) = (date_of(early as int / 86_400), date_of(late as int / 86_400));
    let (ha, hb) = (early % 86_400 / 3600, late % 86_400 / 3600);
    let (ma, mb) = (early % 86_400 % 3600 / 60, late % 86_400 % 3600 / 60);
    lemma_four_digit_year(early as int / 86_400);
    lemma_four_digit_year(late as int / 86_400);
    law_dates_follow_the_days(a, b);
    law_dates_follow_the_days(b, a);
    assert(date_before(a, b) || (a == b && (ha < hb || (ha == hb && ma < mb)))) by {
        if early as int / 86_400 == late as int / 86_400 {
            assert(early % 86_400 / 60 < late % 86_400 / 60);
            assert(early % 86_400 / 60 == 60 * ha + ma);
            assert(late % 86_400 / 60 == 60 * hb + mb);
        }
    }
    lemma_fields_ordered(
        (a.0 as nat, a.1 as nat, a.2 as nat, ha, ma),
        (b.0 as nat, b.1 as nat, b.2 as nat, hb, mb),
    );
}

/// A timestamp from its fields.
spec fn written(fields: (nat, nat, nat, nat, nat)) -> Seq<char> {
    text::zero_padded(fields.0, 4) + "-"@ + text::zero_padded(fields.1, 2) + "-"@
        + text::zero_padded(fields.2, 2) + " "@ + text::zero_padded(fields.3, 2) + ":"@
        + text::zero_padded(fields.4, 2) + " UTC"@
}

proof fn lemma_fields_ordered(l: (nat, nat, nat, nat, nat), r: (nat, nat, nat, nat, nat))
    requires
        l.0 < 10_000 && l.1 < 100 && l.2 < 100 && l.3 < 100 && l.4 < 100,
        r.0 < 10_000 && r.1 < 100 && r.2 < 100 && r.3 < 100 && r.4 < 100,
        l.0 < r.0 || (l.0 == r.0 && (l.1 < r.1 || (l.1 == r.1 && (l.2 < r.2 || (l.2 == r.2 && (l.3
            < r.3 || (l.3 == r.3 && l.4 < r.4))))))),
    ensures
        text::text_before(written(l), written(r)),
{
    lemma_field(l.0, r.0, 4);
    lemma_field(l.1, r.1, 2);
    lemma_field(l.2, r.2, 2);
    lemma_field(l.3, r.3, 2);
    lemma_field(l.4, r.4, 2);
    let (a, b, c, d, e) = (l.0 < r.0, l.1 < r.1, l.2 < r.2, l.3 < r.3, l.4 < r.4);
    let (l0, r0) = (text::zero_padded(l.0, 4), text::zero_padded(r.0, 4));
    lemma_order_goes_on(a, l0, r0, false, "-"@, "-"@);
    let (l1, r1) = (l0 + "-"@, r0 + "-"@);
    lemma_order_goes_on(a, l1, r1, b, text::zero_padded(l.1, 2), text::zero_padded(r.1, 2));
    let (l2, r2) = (l1 + text::zero_padded(l.1, 2), r1 + text::zero_padded(r.1, 2));
    lemma_order_goes_on(a || b, l2, r2, false, "-"@, "-"@);
    let (l3, r3) = (l2 + "-"@, r2 + "-"@);
    lemma_order_goes_on(a || b, l3, r3, c, text::zero_padded(l.2, 2), text::zero_padded(r.2, 2));
    let (l4, r4) = (l3 + text::zero_padded(l.2, 2), r3 + text::zero_padded(r.2, 2));
    lemma_order_goes_on(a || b || c, l4, r4, false, " "@, " "@);
    let (l5, r5) = (l4 + " "@, r4 + " "@);
    let first = a || b || c;
    lemma_order_goes_on(first, l5, r5, d, text::zero_padded(l.3, 2), text::zero_padded(r.3, 2));
    let (l6, r6) = (l5 + text::zero_padded(l.3, 2), r5 + text::zero_padded(r.3, 2));
    lemma_order_goes_on(first || d, l6, r6, false, ":"@, ":"@);
    let (l7, r7) = (l6 + ":"@, r6 + ":"@);
    let hours = first || d;
    lemma_order_goes_on(hours, l7, r7, e, text::zero_padded(l.4, 2), text::zero_padded(r.4, 2));
    let (l8, r8) = (l7 + text::zero_padded(l.4, 2), r7 + text::zero_padded(r.4, 2));
    lemma_order_goes_on(hours || e, l8, r8, false, " UTC"@, " UTC"@);
}

/// Numbers in a field order as their texts do.
proof fn lemma_field(m: nat, n: nat, width: nat)
    requires
        (width == 2 && m < 100 && n < 100) || (width == 4 && m < 10_000 && n < 10_000),
    ensures
        text::zero_padded(m, width).len() == width,
        text::zero_padded(n, width).len() == width,
        m < n ==> text::text_before(text::zero_padded(m, width), text::zero_padded(n, width)),
{
    if width == 2 {
        text::lemma_two_digits(m);
        text::lemma_two_digits(n);
        if m < n {
            text::lemma_two_digits_ordered(m, n);
        }
    } else {
        text::lemma_four_digits(m);
        text::lemma_four_digits(n);
        if m < n {
            text::lemma_four_digits_ordered(m, n);
        }
    }
}

/// Every fourth year is a leap year, but of the full centuries only every
/// fourth.
pub proof fn law_leap_years(quarter: int, century: int)
    ensures
        !is_leap(4 * quarter + 1) && !is_leap(4 * quarter + 2) && !is_leap(4 * quarter + 3),
        quarter % 25 != 0 ==> is_leap(4 * quarter),
        is_leap(100 * century) <==> century % 4 == 0,
{
}

/// The lengths of the months, which make up the year.
pub proof fn law_months_make_up_the_year(year: int)
    ensures
        days_in_month(year, 2) == (if is_leap(year) {
            29int
        } else {
            28int
        }),
        forall|month: int|
            month == 4 || month == 6 || month == 9 || month == 11 ==> #[trigger] days_in_month(
                year,
                month,
            ) == 30,
        forall|month: int|
            month == 1 || month == 3 || month == 5 || month == 7 || month == 8 || month == 10
                || month == 12 ==> #[trigger] days_in_month(year, month) == 31,
        days_before_month(year, 13) == days_before_year(year + 1) - days_before_year(year),
{
    lemma_days_before_month(year, 13);
    law_years_follow_each_other(year);
}

/// The date after `date`.
pub open spec fn next_date(date: (int, int, int)) -> (int, int, int) {
    if date.2 < days_in_month(date.0, date.1) {
        (date.0, date.1, date.2 + 1)
    } else if date.1 < 12 {
        (date.0, date.1 + 1, 1)
    } else {
        (date.0 + 1, 1, 1)
    }
}

/// Days are counted one by one from the first of January 1970: the next day of
/// the month, or the first of the next month, or the first of January.
pub proof fn law_days_follow_each_other(date: (int, int, int))
    requires
        is_date(date),
    ensures
        day_number((1970, 1, 1)) == 0,
        is_date(next_date(date)),
        day_number(next_date(date)) == day_number(date) + 1,
        date_of(day_number(date) + 1) == next_date(date),
        date.2 < days_in_month(date.0, date.1) ==> next_date(date) == (
            date.0,
            date.1,
            date.2 + 1,
        ),
        date.2 == days_in_month(date.0, date.1) && date.1 < 12 ==> next_date(date) == (
            date.0,
            date.1 + 1,
            1int,
        ),
        date.2 == days_in_month(date.0, date.1) && date.1 == 12 ==> next_date(date) == (
            date.0 + 1,
            1int,
            1int,
        ),
{
    lemma_days_before_month(date.0, date.1);
    lemma_days_before_month(date.0, date.1 + 1);
    lemma_days_before_month(date.0 + 1, 1);
    lemma_days_before_month(1970, 1);
    law_years_follow_each_other(date.0);
    law_date_round_trip(next_date(date));
}

/// A timestamp is written from the date of its day, its hour and its minute;
/// its second does not show.
pub proof fn law_timestamps_are_made_of_their_fields(
    date: (int, int, int),
    hour: nat,
    minute: nat,
    second: nat,
)
    requires
        is_date(date),
        day_number(date) >= 0,
        hour < 24,
        minute < 60,
        second < 60,
    ensures
        timestamp((86_400 * day_number(date) + 3600 * hour + 60 * minute + second) as nat)
            == text::zero_padded(date.0 as nat, 4) + "-"@ + text::zero_padded(date.1 as nat, 2)
            + "-"@ + text::zero_padded(date.2 as nat, 2) + " "@ + text::zero_padded(hour, 2) + ":"@
            + text::zero_padded(minute, 2) + " UTC"@,
{
    let instant = (86_400 * day_number(date) + 3600 * hour + 60 * minute + second) as nat;
    assert(instant as int / 86_400 == day_number(date));
    assert(instant % 86_400 == 3600 * hour + 60 * minute + second);
    assert(instant % 86_400 / 3600 == hour);
    assert(instant % 86_400 % 3600 / 60 == minute);
    law_date_round_trip(date);
}

} // verus!
