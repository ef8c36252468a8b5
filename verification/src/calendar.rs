//! Dates of the Gregorian calendar and times of day, as text.

use vstd::prelude::*;

use crate::errors::QuackError;
use crate::errors::QuackErrorView;
use crate::storage::lemma_pow10_increases;
use crate::storage::lemma_pow10_values;
use crate::storage::pow10;
use crate::text::all_digits;
use crate::text::chars_of;
use crate::text::digit_char;
use crate::text::digits_value;
use crate::text::is_digit;
use crate::text::joined;
use crate::value::DateValue;
use crate::value::TimestampUnit;
use crate::value::TimestampValue;
use crate::value::Value;
use crate::value::ValueView;

verus! {

/// The days from 0001-01-01 to 1970-01-01.
pub const DAYS_BEFORE_1970: i64 = 719_162;

/// The first day of the year 1.
pub const FIRST_DAY: i64 = -719_162;

/// The last day of the year 9999.
pub const LAST_DAY: i64 = 2_932_896;

/// A day by its year, month and day of the month.
#[derive(Clone, Copy, Debug, PartialEq, Eq, Structural)]
pub struct CalendarDate {
    pub year: u32,
    pub month: u32,
    pub day: u32,
}

/// Whether February has a day more.
pub open spec fn is_leap_year(year: int) -> bool {
    (year % 4 == 0 && year % 100 != 0) || year % 400 == 0
}

/// The days of a month.
pub open spec fn month_length(year: int, month: int) -> int {
    if month == 2 {
        if is_leap_year(year) {
            29
        } else {
            28
        }
    } else if month == 4 || month == 6 || month == 9 || month == 11 {
        30
    } else {
        31
    }
}

/// The days from the beginning of the year 1 to that of another.
pub open spec fn days_before_year(year: int) -> int {
    365 * (year - 1) + (year - 1) / 4 - (year - 1) / 100 + (year - 1) / 400
}

/// The days from the beginning of a year to that of a month.
pub open spec fn days_before_month(year: int, month: int) -> int
    decreases month,
{
    if month <= 1 {
        0
    } else {
        days_before_month(year, month - 1) + month_length(year, month - 1)
    }
}

impl CalendarDate {
    /// Whether there is such a day, in a year of at most four digits.
    pub open spec fn in_calendar(self) -> bool {
        &&& 1 <= self.year <= 9999
        &&& 1 <= self.month <= 12
        &&& 1 <= self.day <= month_length(self.year as int, self.month as int)
    }

    /// The number of the day, counted from 1970-01-01.
    pub open spec fn day_number(self) -> int {
        days_before_year(self.year as int) + days_before_month(
            self.year as int,
            self.month as int,
        ) + self.day - 1 - DAYS_BEFORE_1970
    }
}

proof fn lemma_year_length(year: int)
    ensures
        days_before_year(year + 1) == days_before_year(year) + days_before_month(year, 13),
        days_before_month(year, 13) == (if is_leap_year(year) {
            366int
        } else {
            365int
        }),
{
    reveal_with_fuel(days_before_month, 14);
}

proof fn lemma_later_year(a: int, b: int)
    requires
        a <= b,
    ensures
        days_before_year(a) <= days_before_year(b),
    decreases b - a,
{
    if a < b {
        lemma_year_length(b - 1);
        lemma_later_year(a, b - 1);
    }
}

proof fn lemma_later_month(year: int, a: int, b: int)
    requires
        1 <= a <= b,
    ensures
        0 <= days_before_month(year, a) <= days_before_month(year, b),
    decreases b,
{
    if a < b {
        lemma_later_month(year, a, b - 1);
    } else if a > 1 {
        lemma_later_month(year, a - 1, a - 1);
    }
}

proof fn lemma_within_year(date: CalendarDate)
    requires
        date.in_calendar(),
    ensures
        days_before_year(date.year as int) <= date.day_number() + DAYS_BEFORE_1970
            < days_before_year(date.year + 1),
{
    let year = date.year as int;
    lemma_year_length(year);
    lemma_later_month(year, 1, date.month as int);
    lemma_later_month(year, date.month + 1, 13);
}

/// An earlier day has a smaller number.
pub proof fn law_days_are_counted_in_order(a: CalendarDate, b: CalendarDate)
    requires
        a.in_calendar(),
        b.in_calendar(),
        a.year < b.year || (a.year == b.year && (a.month < b.month || (a.month == b.month && a.day
            < b.day))),
    ensures
        a.day_number() < b.day_number(),
{
    let year = a.year as int;
    if a.year < b.year {
        lemma_within_year(a);
        lemma_within_year(b);
        lemma_later_year(year + 1, b.year as int);
    } else if a.month < b.month {
        lemma_later_month(year, a.month + 1, b.month as int);
    }
}

/// The day with a number.
pub open spec fn date_of(number: int) -> CalendarDate {
    choose|date: CalendarDate| #[trigger] date.in_calendar() && date.day_number() == number
}

proof fn lemma_date_of(date: CalendarDate)
    requires
        date.in_calendar(),
    ensures
        date_of(date.day_number()) == date,
{
    let other = date_of(date.day_number());
    assert(other.in_calendar() && other.day_number() == date.day_number());
    if other.year < date.year || (other.year == date.year && (other.month < date.month || (
    other.month == date.month && other.day < date.day))) {
        law_days_are_counted_in_order(other, date);
    } else if other != date {
        law_days_are_counted_in_order(date, other);
    }
}

/// The numbers of days in the years 1 to 9999.
pub open spec fn is_day_number(number: int) -> bool {
    FIRST_DAY <= number <= LAST_DAY
}

proof fn lemma_day_number(date: CalendarDate)
    requires
        date.in_calendar(),
    ensures
        is_day_number(date.day_number()),
{
    lemma_within_year(date);
    lemma_later_year(1, date.year as int);
    lemma_later_year(date.year + 1, 10_000);
}

fn month_days(year: u32, month: u32) -> (n: u32)
    ensures
        n == month_length(year as int, month as int),
{
    if month == 2 {
        if (year % 4 == 0 && year % 100 != 0) || year % 400 == 0 {
            29
        } else {
            28
        }
    } else if month == 4 || month == 6 || month == 9 || month == 11 {
        30
    } else {
        31
    }
}

fn year_days(year: u32) -> (n: i64)
    requires
        1 <= year <= 10_000,
    ensures
        n == days_before_year(year as int),
        0 <= n <= 3_660_000,
{
    let past: i64 = year as i64 - 1;
    365 * past + past / 4 - past / 100 + past / 400
}

/// The day with a number, if it lies in the years 1 to 9999.
pub fn calendar_date(number: i64) -> (date: Option<CalendarDate>)
    ensures
        match date {
            Some(date) => {
                &&& is_day_number(number as int)
                &&& date.in_calendar()
                &&& date.day_number() == number
                &&& date == date_of(number as int)
            },
            None => !is_day_number(number as int),
        },
{
    if number < FIRST_DAY || number > LAST_DAY {
        return None;
    }
    let days: i64 = number + DAYS_BEFORE_1970;
    let mut year: u32 = (days / 366) as u32 + 1;
    while year < 9999 && year_days(year + 1) <= days
        invariant
            1 <= year <= 9999,
            0 <= days < 3_652_059,
            days_before_year(year as int) <= days,
        decreases 9999 - year,
    {
        year += 1;
    }
    let rest: i64 = days - year_days(year);
    let mut left: u32 = rest as u32;
    let mut month: u32 = 1;
    proof {
        lemma_year_length(year as int);
        lemma_year_length(9999);
    }
    let ghost whole = left as int;
    while month < 12 && month_days(year, month) <= left
        invariant
            1 <= month <= 12,
            whole == left + days_before_month(year as int, month as int),
            whole < days_before_month(year as int, 13),
        decreases 12 - month,
    {
        left -= month_days(year, month);
        month += 1;
    }
    let date = CalendarDate { year, month, day: left + 1 };
    proof {
        assert(month == 12 ==> left < month_length(year as int, 12)) by {
            reveal_with_fuel(days_before_month, 2);
        }
        assert(date.in_calendar());
        lemma_date_of(date);
    }
    Some(date)
}

/// The number of a day, counted from 1970-01-01.
pub fn day_number(date: CalendarDate) -> (number: i64)
    requires
        date.in_calendar(),
    ensures
        number == date.day_number(),
        is_day_number(number as int),
{
    let mut days: i64 = year_days(date.year) - DAYS_BEFORE_1970;
    let mut month: u32 = 1;
    while month < date.month
        invariant
            date.in_calendar(),
            1 <= month <= date.month,
            days == days_before_year(date.year as int) - DAYS_BEFORE_1970 + days_before_month(
                date.year as int,
                month as int,
            ),
            -719_162 <= days <= 3_660_000 + 31 * month,
        decreases date.month - month,
    {
        days += month_days(date.year, month) as i64;
        month += 1;
    }
    proof {
        lemma_day_number(date);
    }
    days + date.day as i64 - 1
}

// ---------------------------------------------------------------------------
// Text
// ---------------------------------------------------------------------------

/// The last digits of a number, so many of them.
pub open spec fn last_digits(n: nat, width: nat) -> Seq<char>
    decreases width,
{
    if width == 0 {
        seq![]
    } else {
        last_digits(n / 10, (width - 1) as nat).push(digit_char(n % 10))
    }
}

proof fn lemma_last_digits(n: nat, width: nat)
    requires
        n < pow10(width),
    ensures
        last_digits(n, width).len() == width,
        all_digits(last_digits(n, width)),
        digits_value(last_digits(n, width)) == n,
    decreases width,
{
    if width > 0 {
        let before = last_digits(n / 10, (width - 1) as nat);
        lemma_last_digits(n / 10, (width - 1) as nat);
        let all = last_digits(n, width);
        assert(all.drop_last() =~= before);
        assert forall|i: int| 0 <= i < all.len() implies is_digit(#[trigger] all[i]) by {
            if i < before.len() {
                assert(is_digit(before[i]));
            }
        }
    }
}

fn push_last_digits(text: &mut String, n: u64, width: u32)
    ensures
        final(text)@ == old(text)@ + last_digits(n as nat, width as nat),
    decreases width,
{
    if width > 0 {
        push_last_digits(text, n / 10, width - 1);
        let digit: u8 = (n % 10) as u8;
        text.push((48 + digit) as char);
    }
    assert(text@ =~= old(text)@ + last_digits(n as nat, width as nat));
}

/// A date in ISO notation.
pub open spec fn date_text(date: CalendarDate) -> Seq<char> {
    last_digits(date.year as nat, 4) + seq!['-'] + last_digits(date.month as nat, 2) + seq!['-']
        + last_digits(date.day as nat, 2)
}

/// The notation of the day with a number.
pub open spec fn day_text(number: int) -> Option<Seq<char>> {
    if is_day_number(number) {
        Some(date_text(date_of(number)))
    } else {
        None
    }
}

fn push_day(text: &mut String, number: i64) -> (done: bool)
    ensures
        match day_text(number as int) {
            Some(day) => done && final(text)@ == old(text)@ + day,
            None => !done && final(text)@ == old(text)@,
        },
{
    match calendar_date(number) {
        Some(date) => {
            push_last_digits(text, date.year as u64, 4);
            text.push('-');
            push_last_digits(text, date.month as u64, 2);
            text.push('-');
            push_last_digits(text, date.day as u64, 2);
            assert(text@ =~= old(text)@ + date_text(date));
            true
        },
        None => false,
    }
}

/// The notation of a date, if it lies in the years 1 to 9999.
pub fn iso_date(date: DateValue) -> (text: Option<String>)
    ensures
        match text {
            Some(text) => day_text(date.days as int) == Some(text@),
            None => day_text(date.days as int) is None,
        },
{
    let mut text = String::new();
    if push_day(&mut text, date.days as i64) {
        assert(day_text(date.days as int)->Some_0 =~= text@);
        Some(text)
    } else {
        None
    }
}

/// The day that an ISO notation stands for, if it stands for one.
pub open spec fn date_in(text: Seq<char>) -> Option<CalendarDate> {
    if text.len() == 10 && text[4] == '-' && text[7] == '-' && all_digits(text.subrange(0, 4))
        && all_digits(text.subrange(5, 7)) && all_digits(text.subrange(8, 10)) {
        let date = CalendarDate {
            year: digits_value(text.subrange(0, 4)) as u32,
            month: digits_value(text.subrange(5, 7)) as u32,
            day: digits_value(text.subrange(8, 10)) as u32,
        };
        if date.in_calendar() {
            Some(date)
        } else {
            None
        }
    } else {
        None
    }
}

fn number_at(chars: &Vec<char>, from: usize, to: usize) -> (n: Option<u32>)
    requires
        from <= to <= chars@.len(),
        to - from <= 4,
    ensures
        match n {
            Some(n) => all_digits(chars@.subrange(from as int, to as int)) && n == digits_value(
                chars@.subrange(from as int, to as int),
            ),
            None => !all_digits(chars@.subrange(from as int, to as int)),
        },
{
    let ghost part = chars@.subrange(from as int, to as int);
    let mut n: u32 = 0;
    let mut i: usize = from;
    while i < to
        invariant
            from <= i <= to <= chars@.len(),
            to - from <= 4,
            part == chars@.subrange(from as int, to as int),
            forall|k: int| 0 <= k < i - from ==> is_digit(#[trigger] part[k]),
            n == digits_value(part.take(i - from)),
            n < pow10((i - from) as nat),
        decreases to - i,
    {
        let c: char = chars[i];
        assert(c == part[i - from]);
        if c < '0' || c > '9' {
            assert(!is_digit(part[i - from]));
            return None;
        }
        proof {
            assert(part.take(i + 1 - from).drop_last() =~= part.take(i - from));
            lemma_pow10_increases((i + 1 - from) as nat, 4);
            reveal_with_fuel(pow10, 5);
        }
        n = n * 10 + (c as u32 - 48);
        i += 1;
    }
    assert(part.take(to - from) =~= part);
    Some(n)
}

/// The error for text that is no date.
pub open spec fn no_date(text: Seq<char>) -> QuackErrorView {
    QuackErrorView::Protocol("invalid ISO date "@ + text)
}

fn date_from(chars: &Vec<char>) -> (date: Option<CalendarDate>)
    ensures
        date == date_in(chars@),
{
    if chars.len() != 10 || chars[4] != '-' || chars[7] != '-' {
        return None;
    }
    match (number_at(chars, 0, 4), number_at(chars, 5, 7), number_at(chars, 8, 10)) {
        (Some(year), Some(month), Some(day)) => if 1 <= year && year <= 9999 && 1 <= month && month
            <= 12 && 1 <= day && day <= month_days(year, month) {
            Some(CalendarDate { year, month, day })
        } else {
            None
        },
        _ => None,
    }
}

/// The date that an ISO notation stands for.
pub fn date_from_iso_date(text: &str) -> (value: Result<Value, QuackError>)
    ensures
        match value {
            Ok(value) => date_in(text@) matches Some(date) && value@ == ValueView::Date(
                DateValue { days: date.day_number() as i32 },
            ) && is_day_number(date.day_number()),
            Err(error) => date_in(text@) is None && error@ == no_date(text@),
        },
{
    match date_from(&chars_of(text)) {
        Some(date) => Ok(Value::Date(DateValue { days: day_number(date) as i32 })),
        None => Err(QuackError::Protocol(joined("invalid ISO date ", text))),
    }
}

/// The notation of a day stands for that day.
pub proof fn law_date_notation_is_read_back(date: CalendarDate)
    requires
        date.in_calendar(),
    ensures
        day_text(date.day_number()) == Some(date_text(date)),
        date_in(date_text(date)) == Some(date),
{
    lemma_date_of(date);
    lemma_day_number(date);
    reveal_with_fuel(pow10, 5);
    let (year, month, day) = (date.year as nat, date.month as nat, date.day as nat);
    lemma_last_digits(year, 4);
    lemma_last_digits(month, 2);
    lemma_last_digits(day, 2);
    let text = date_text(date);
    assert(text.subrange(0, 4) =~= last_digits(year, 4));
    assert(text.subrange(5, 7) =~= last_digits(month, 2));
    assert(text.subrange(8, 10) =~= last_digits(day, 2));
}

/// The seconds of a day.
pub const DAY_SECONDS: i128 = 86_400;

/// The steps into which the notation of a timestamp divides a second.
pub open spec fn steps(unit: TimestampUnit) -> int {
    match unit {
        TimestampUnit::Seconds | TimestampUnit::Millis => 1_000,
        TimestampUnit::Micros => 1_000_000,
        TimestampUnit::Nanos => 1_000_000_000,
    }
}

/// The digits of a second that the notation of a timestamp has.
pub open spec fn step_digits(unit: TimestampUnit) -> nat {
    match unit {
        TimestampUnit::Seconds | TimestampUnit::Millis => 3,
        TimestampUnit::Micros => 6,
        TimestampUnit::Nanos => 9,
    }
}

/// A timestamp, counted in the steps of its notation.
pub open spec fn in_steps(t: TimestampValue) -> int {
    if t.unit == TimestampUnit::Seconds {
        t.value * 1_000
    } else {
        t.value as int
    }
}

/// A time of day in ISO notation.
pub open spec fn clock_text(second: int) -> Seq<char> {
    last_digits((second / 3_600) as nat, 2) + seq![':'] + last_digits(
        (second / 60 % 60) as nat,
        2,
    ) + seq![':'] + last_digits((second % 60) as nat, 2)
}

/// A timestamp in ISO notation, with a space between date and time, if it lies
/// in the years 1 to 9999.
pub open spec fn timestamp_text(t: TimestampValue) -> Option<Seq<char>> {
    let second = in_steps(t) / steps(t.unit);
    match day_text(second / DAY_SECONDS as int) {
        Some(day) => Some(
            day + seq![' '] + clock_text(second % DAY_SECONDS as int) + seq!['.'] + last_digits(
                (in_steps(t) % steps(t.unit)) as nat,
                step_digits(t.unit),
            ),
        ),
        None => None,
    }
}

fn push_clock(text: &mut String, second: u64)
    requires
        second < 86_400,
    ensures
        final(text)@ == old(text)@ + clock_text(second as int),
{
    push_last_digits(text, second / 3_600, 2);
    text.push(':');
    push_last_digits(text, second / 60 % 60, 2);
    text.push(':');
    push_last_digits(text, second % 60, 2);
    assert(text@ =~= old(text)@ + clock_text(second as int));
}

/// The notation of a timestamp, if it lies in the years 1 to 9999.
pub fn iso_timestamp(t: TimestampValue) -> (text: Option<String>)
    ensures
        match text {
            Some(text) => timestamp_text(t) == Some(text@),
            None => timestamp_text(t) is None,
        },
{
    let (count, per_second, digits): (i128, i128, u32) = match t.unit {
        TimestampUnit::Seconds => (t.value as i128 * 1_000, 1_000, 3),
        TimestampUnit::Millis => (t.value as i128, 1_000, 3),
        TimestampUnit::Micros => (t.value as i128, 1_000_000, 6),
        TimestampUnit::Nanos => (t.value as i128, 1_000_000_000, 9),
    };
    let from_year_1: i128 = count + DAYS_BEFORE_1970 as i128 * DAY_SECONDS * per_second;
    let ghost second = in_steps(t) / steps(t.unit);
    if from_year_1 < 0 {
        assert(second / 86_400 < FIRST_DAY);
        return None;
    }
    let seconds: i128 = from_year_1 / per_second;
    let fraction: u64 = (from_year_1 % per_second) as u64;
    let days: i128 = seconds / DAY_SECONDS;
    let second_of_day: u64 = (seconds % DAY_SECONDS) as u64;
    assert(seconds == second + DAYS_BEFORE_1970 * 86_400);
    assert(fraction == in_steps(t) % steps(t.unit));
    let number: i64 = days as i64 - DAYS_BEFORE_1970;
    assert(number == second / 86_400);
    assert(second_of_day == second % 86_400);
    let mut text = String::new();
    if !push_day(&mut text, number) {
        return None;
    }
    text.push(' ');
    push_clock(&mut text, second_of_day);
    text.push('.');
    push_last_digits(&mut text, fraction, digits);
    assert(text@ =~= timestamp_text(t)->Some_0);
    Some(text)
}

/// The months have their lengths of the Gregorian calendar: February has a day
/// more in every fourth year, but not in a hundredth that is no four-hundredth.
pub proof fn law_months_of_the_calendar(year: int)
    ensures
        month_length(year, 1) == 31,
        month_length(year, 2) == 28 || month_length(year, 2) == 29,
        month_length(year, 2) == 29 <==> year % 400 == 0 || year % 4 == 0 && year % 100 != 0,
        month_length(year, 3) == 31,
        month_length(year, 4) == 30,
        month_length(year, 5) == 31,
        month_length(year, 6) == 30,
        month_length(year, 7) == 31,
        month_length(year, 8) == 31,
        month_length(year, 9) == 30,
        month_length(year, 10) == 31,
        month_length(year, 11) == 30,
        month_length(year, 12) == 31,
{
}

/// Days are counted one by one, without a gap: the first of January 1970 is day
/// zero, and the day behind any other, in its month, in the next month or in the
/// next year, has the next number.
pub proof fn law_days_are_counted_one_by_one(date: CalendarDate)
    requires
        date.in_calendar(),
    ensures
        (CalendarDate { year: 1970, month: 1, day: 1 }).day_number() == 0,
        date.day < month_length(date.year as int, date.month as int) ==> (CalendarDate {
            day: (date.day + 1) as u32,
            ..date
        }).day_number() == date.day_number() + 1,
        date.day == month_length(date.year as int, date.month as int) && date.month < 12 ==> (
        CalendarDate { year: date.year, month: (date.month + 1) as u32, day: 1 }).day_number()
            == date.day_number() + 1,
        date.month == 12 && date.day == 31 ==> (CalendarDate {
            year: (date.year + 1) as u32,
            month: 1,
            day: 1,
        }).day_number() == date.day_number() + 1,
{
    lemma_year_length(date.year as int);
    reveal_with_fuel(days_before_month, 2);
    assert(days_before_month(date.year as int, date.month + 1) == days_before_month(
        date.year as int,
        date.month as int,
    ) + month_length(date.year as int, date.month as int));
}

/// Whether text is a number in so many digits, with zeros before it.
pub open spec fn writes_padded(text: Seq<char>, n: int, width: nat) -> bool {
    &&& text.len() == width
    &&& forall|k: int| 0 <= k < text.len() ==> '0' <= #[trigger] text[k] <= '9'
    &&& digits_value(text) == n
}

proof fn lemma_padded(n: nat, width: nat)
    requires
        n < pow10(width),
    ensures
        writes_padded(last_digits(n, width), n as int, width),
{
    lemma_last_digits(n, width);
    let text = last_digits(n, width);
    assert forall|k: int| 0 <= k < text.len() implies '0' <= #[trigger] text[k] <= '9' by {
        assert(is_digit(text[k]));
    }
}

/// Whether text is a date in ISO notation: four digits for the year, two for the
/// month and two for the day, with hyphens between them.
pub open spec fn writes_date(text: Seq<char>, date: CalendarDate) -> bool {
    &&& text.len() == 10
    &&& text[4] == '-'
    &&& text[7] == '-'
    &&& writes_padded(text.subrange(0, 4), date.year as int, 4)
    &&& writes_padded(text.subrange(5, 7), date.month as int, 2)
    &&& writes_padded(text.subrange(8, 10), date.day as int, 2)
}

/// A day of the years 1 to 9999 is written as its date, and a text is read as a
/// day exactly if it is the notation of one. There is no other notation and no
/// other day.
pub proof fn law_dates_are_written_in_iso_notation(date: CalendarDate, text: Seq<char>, n: int)
    ensures
        date.in_calendar() ==> (day_text(date.day_number()) matches Some(written) && writes_date(
            written,
            date,
        )),
        date.in_calendar() && writes_date(text, date) ==> date_in(text) == Some(date),
        date_in(text) matches Some(read) ==> read.in_calendar() && writes_date(text, read),
        n < -719_162 || n > 2_932_896 ==> day_text(n) is None,
{
    reveal_with_fuel(pow10, 5);
    if date.in_calendar() {
        law_date_notation_is_read_back(date);
        lemma_padded(date.year as nat, 4);
        lemma_padded(date.month as nat, 2);
        lemma_padded(date.day as nat, 2);
        let written = date_text(date);
        assert(written.subrange(0, 4) =~= last_digits(date.year as nat, 4));
        assert(written.subrange(5, 7) =~= last_digits(date.month as nat, 2));
        assert(written.subrange(8, 10) =~= last_digits(date.day as nat, 2));
        if writes_date(text, date) {
            assert(all_digits(text.subrange(0, 4)));
            assert(all_digits(text.subrange(5, 7)));
            assert(all_digits(text.subrange(8, 10)));
        }
    }
    if let Some(read) = date_in(text) {
        lemma_digits_are_shown(text.subrange(0, 4));
        lemma_digits_are_shown(text.subrange(5, 7));
        lemma_digits_are_shown(text.subrange(8, 10));
        lemma_digits_value_below(text.subrange(0, 4));
        lemma_digits_value_below(text.subrange(5, 7));
        lemma_digits_value_below(text.subrange(8, 10));
    }
}

proof fn lemma_digits_are_shown(text: Seq<char>)
    requires
        all_digits(text),
    ensures
        forall|k: int| 0 <= k < text.len() ==> '0' <= #[trigger] text[k] <= '9',
{
    assert forall|k: int| 0 <= k < text.len() implies '0' <= #[trigger] text[k] <= '9' by {
        assert(is_digit(text[k]));
    }
}

proof fn lemma_digits_value_below(text: Seq<char>)
    requires
        all_digits(text),
    ensures
        digits_value(text) < pow10(text.len()),
    decreases text.len(),
{
    if text.len() > 0 {
        let before = text.drop_last();
        assert forall|k: int| 0 <= k < before.len() implies is_digit(#[trigger] before[k]) by {
            assert(is_digit(text[k]));
        }
        lemma_digits_value_below(before);
        assert(is_digit(text[text.len() - 1]));
    }
}

/// How many counts of a unit make a second.
pub open spec fn counts_per_second(unit: TimestampUnit) -> int {
    match unit {
        TimestampUnit::Seconds => 1,
        TimestampUnit::Millis => 1_000,
        TimestampUnit::Micros => 1_000_000,
        TimestampUnit::Nanos => 1_000_000_000,
    }
}

/// Whether a time of day and what is left below a second, in so many counts, are
/// written as two texts, and add up with the day to what a timestamp counts.
pub open spec fn writes_moment(
    t: TimestampValue,
    clock: Seq<char>,
    tail: Seq<char>,
    second: int,
    rest: int,
) -> bool {
    let per = counts_per_second(t.unit);
    let day = t.value as int / (86_400 * per);
    &&& 0 <= second < 86_400
    &&& 0 <= rest < per
    &&& t.value == (day * 86_400 + second) * per + rest
    &&& writes_clock(clock, second / 3_600, second % 3_600 / 60, second % 60)
    &&& match t.unit {
        TimestampUnit::Seconds => writes_padded(tail, 0, 3),
        TimestampUnit::Millis => writes_padded(tail, rest, 3),
        TimestampUnit::Micros => writes_padded(tail, rest, 6),
        TimestampUnit::Nanos => writes_padded(tail, rest, 9),
    }
}

/// A timestamp is written as its day, its time of day and what is left below a
/// second, and these add up to what the timestamp counts. It has no notation
/// exactly if its day has none.
pub proof fn law_timestamps_are_written_to_the_count(t: TimestampValue)
    ensures
        ({
            let day = day_text(t.value as int / (86_400 * counts_per_second(t.unit)));
            &&& timestamp_text(t) is Some <==> day is Some
            &&& timestamp_text(t) is Some ==> exists|
                clock: Seq<char>,
                tail: Seq<char>,
                second: int,
                rest: int,
            |
                {
                    &&& #[trigger] writes_moment(t, clock, tail, second, rest)
                    &&& timestamp_text(t) == Some(
                        day->Some_0 + seq![' '] + clock + seq!['.'] + tail,
                    )
                }
        }),
{
    let value = t.value as int;
    let per = counts_per_second(t.unit);
    let second = in_steps(t) / steps(t.unit);
    let rest = value % per;
    lemma_pow10_values();
    reveal_with_fuel(pow10, 7);
    assert(second == value / per && value == second * per + rest && 0 <= rest < per);
    let day = second / 86_400;
    assert(day == value / (86_400 * per)) by {
        match t.unit {
            TimestampUnit::Seconds => {},
            TimestampUnit::Millis => {
                assert(value / 1_000 / 86_400 == value / 86_400_000);
            },
            TimestampUnit::Micros => {
                assert(value / 1_000_000 / 86_400 == value / 86_400_000_000);
            },
            TimestampUnit::Nanos => {
                assert(value / 1_000_000_000 / 86_400 == value / 86_400_000_000_000);
            },
        }
    }
    if let Some(date) = day_text(day) {
        let of_day = second % 86_400;
        let clock = clock_text(of_day);
        lemma_padded((of_day / 3_600) as nat, 2);
        lemma_padded((of_day / 60 % 60) as nat, 2);
        lemma_padded((of_day % 60) as nat, 2);
        assert(clock.subrange(0, 2) =~= last_digits((of_day / 3_600) as nat, 2));
        assert(clock.subrange(3, 5) =~= last_digits((of_day / 60 % 60) as nat, 2));
        assert(clock.subrange(6, 8) =~= last_digits((of_day % 60) as nat, 2));
        assert(of_day / 60 % 60 == of_day % 3_600 / 60);
        let shown = in_steps(t) % steps(t.unit);
        lemma_padded(shown as nat, step_digits(t.unit));
        let tail = last_digits(shown as nat, step_digits(t.unit));
        assert(writes_moment(t, clock, tail, of_day, rest));
    }
}

/// Whether text is a time of day in ISO notation.
pub open spec fn writes_clock(text: Seq<char>, hour: int, minute: int, second: int) -> bool {
    &&& text.len() == 8
    &&& text[2] == ':'
    &&& text[5] == ':'
    &&& writes_padded(text.subrange(0, 2), hour, 2)
    &&& writes_padded(text.subrange(3, 5), minute, 2)
    &&& writes_padded(text.subrange(6, 8), second, 2)
}

} // verus!
