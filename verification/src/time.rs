//! UTC timestamps in ISO 8601 form and milliseconds since the Unix epoch.

use crate::text;
use vstd::prelude::*;
use vstd::string::*;

verus! {

/// Whether `year` has a leap day in the Gregorian calendar.
pub open spec fn is_leap(year: int) -> bool {
    year % 4 == 0 && (year % 100 != 0 || year % 400 == 0)
}

/// The number of leap years from year 1 up to, not including, `year`.
pub open spec fn leap_years_before(year: int) -> int {
    (year - 1) / 4 - (year - 1) / 100 + (year - 1) / 400
}

/// The number of days in `year`.
pub open spec fn year_length(year: int) -> int {
    if is_leap(year) {
        366
    } else {
        365
    }
}

/// The number of days from 1970-01-01 to the first day of `year`.
pub open spec fn days_before_year(year: int) -> int {
    365 * (year - 1970) + leap_years_before(year) - leap_years_before(1970)
}

/// The number of days in a month.
pub open spec fn month_length(year: int, month: int) -> int {
    if month == 2 {
        if is_leap(year) {
            29
        } else {
            28
        }
    } else if month == 4 || month == 6 || month == 9 || month == 11 {
        30
    } else {
        31
    }
}

/// The number of days of `year` before the first day of `month`.
pub open spec fn days_before_month(year: int, month: int) -> int
    decreases month,
{
    if month <= 1 {
        0
    } else {
        days_before_month(year, month - 1) + month_length(year, month - 1)
    }
}

/// An instant of the Gregorian calendar in UTC, to the millisecond.
#[derive(Debug, Clone, Copy, PartialEq, Eq, Structural)]
pub struct CivilTime {
    pub year: u64,
    pub month: u64,
    pub day: u64,
    pub hour: u64,
    pub minute: u64,
    pub second: u64,
    pub millisecond: u64,
}

impl CivilTime {
    /// Whether the fields name an instant since 1970.
    pub open spec fn is_valid(self) -> bool {
        &&& self.year >= 1970
        &&& 1 <= self.month <= 12
        &&& 1 <= self.day <= month_length(self.year as int, self.month as int)
        &&& self.hour < 24
        &&& self.minute < 60
        &&& self.second < 60
        &&& self.millisecond < 1000
    }

    /// Milliseconds since the Unix epoch.
    pub open spec fn epoch_ms(self) -> int {
        let days = days_before_year(self.year as int) + days_before_month(
            self.year as int,
            self.month as int,
        ) + self.day - 1;
        (((days * 24 + self.hour) * 60 + self.minute) * 60 + self.second) * 1000 + self.millisecond
    }

    /// The date in the form `YYYY-MM-DD`.
    pub open spec fn date(self) -> Seq<char> {
        text::decimal(self.year as nat) + seq!['-'] + two_digits(self.month as nat) + seq!['-']
            + two_digits(self.day as nat)
    }

    /// The time of day in the form `HH:MM:SS.mmm`.
    pub open spec fn clock(self) -> Seq<char> {
        two_digits(self.hour as nat) + seq![':'] + two_digits(self.minute as nat) + seq![':']
            + two_digits(self.second as nat) + seq!['.'] + three_digits(self.millisecond as nat)
    }

    /// The instant in the form `YYYY-MM-DDTHH:MM:SS.mmmZ`.
    pub open spec fn iso8601(self) -> Seq<char> {
        self.date() + seq!['T'] + self.clock() + seq!['Z']
    }
}

/// A number below one hundred in two digits.
pub open spec fn two_digits(n: nat) -> Seq<char> {
    seq![text::digit(n / 10), text::digit(n % 10)]
}

/// A number below one thousand in three digits.
pub open spec fn three_digits(n: nat) -> Seq<char> {
    seq![text::digit(n / 100), text::digit(n / 10 % 10), text::digit(n % 10)]
}

/// Whether a character is a decimal digit.
pub open spec fn is_digit(c: char) -> bool {
    '0' <= c <= '9'
}

/// The value of a decimal digit.
pub open spec fn digit_value(c: char) -> int {
    c as int - 48
}

/// The number written in the two digits at `at`.
pub open spec fn number_at(t: Seq<char>, at: int) -> int {
    10 * digit_value(t[at]) + digit_value(t[at + 1])
}

/// The milliseconds that the fraction behind position 19 gives: its first three digits, missing
/// ones read as zero.
pub open spec fn fraction_ms(t: Seq<char>) -> int {
    if t.len() == 20 {
        0
    } else {
        100 * digit_value(t[20]) + (if t.len() > 22 {
            10 * digit_value(t[21])
        } else {
            0
        }) + (if t.len() > 23 {
            digit_value(t[22])
        } else {
            0
        })
    }
}

/// Whether a text has the form `YYYY-MM-DDTHH:MM:SSZ`, with or without a decimal fraction of the
/// second.
pub open spec fn has_timestamp_form(t: Seq<char>) -> bool {
    &&& t.len() >= 20
    &&& t[4] == '-'
    &&& t[7] == '-'
    &&& t[10] == 'T'
    &&& t[13] == ':'
    &&& t[16] == ':'
    &&& t[t.len() - 1] == 'Z'
    &&& t.len() > 20 ==> t[19] == '.' && t.len() >= 22
    &&& forall|i: int|
        0 <= i < t.len() - 1 && i != 4 && i != 7 && i != 10 && i != 13 && i != 16 && i != 19
            ==> is_digit(#[trigger] t[i])
}

/// The fields that a text of timestamp form names.
pub open spec fn named_time(t: Seq<char>) -> CivilTime {
    CivilTime {
        year: (100 * number_at(t, 0) + number_at(t, 2)) as u64,
        month: number_at(t, 5) as u64,
        day: number_at(t, 8) as u64,
        hour: number_at(t, 11) as u64,
        minute: number_at(t, 14) as u64,
        second: number_at(t, 17) as u64,
        millisecond: fraction_ms(t) as u64,
    }
}

/// The instant, in milliseconds since the Unix epoch, that a text names.
pub open spec fn timestamp_ms(t: Seq<char>) -> Option<u64> {
    if has_timestamp_form(t) && named_time(t).is_valid() {
        Some(named_time(t).epoch_ms() as u64)
    } else {
        None
    }
}

proof fn lemma_next_year(year: int)
    requires
        year >= 1970,
    ensures
        days_before_year(year + 1) == days_before_year(year) + year_length(year),
{
}

proof fn lemma_four_centuries(year: int, n: int)
    requires
        year >= 1970,
        n >= 0,
    ensures
        days_before_year(year + 400 * n) == days_before_year(year) + 146097 * n,
        is_leap(year + 400 * n) == is_leap(year),
{
    let y = year - 1;
    vstd::arithmetic::div_mod::lemma_hoist_over_denominator(y, 100 * n, 4);
    vstd::arithmetic::div_mod::lemma_hoist_over_denominator(y, 4 * n, 100);
    vstd::arithmetic::div_mod::lemma_hoist_over_denominator(y, n, 400);
    vstd::arithmetic::div_mod::lemma_mod_multiples_vanish(100 * n, year, 4);
    vstd::arithmetic::div_mod::lemma_mod_multiples_vanish(4 * n, year, 100);
    vstd::arithmetic::div_mod::lemma_mod_multiples_vanish(n, year, 400);
}

proof fn lemma_year_in_months(year: int)
    ensures
        days_before_month(year, 12) + 31 == year_length(year),
{
    reveal_with_fuel(days_before_month, 13);
}

fn digit_of(c: char) -> (r: u64)
    requires
        is_digit(c),
    ensures
        r == digit_value(c),
        r <= 9,
{
    (c as u64) - 48
}

fn number_of(t: &Vec<char>, at: usize) -> (r: u64)
    requires
        at + 1 < t.len(),
        is_digit(t@[at as int]),
        is_digit(t@[at + 1]),
    ensures
        r == number_at(t@, at as int),
        r <= 99,
{
    10 * digit_of(t[at]) + digit_of(t[at + 1])
}

fn leap(year: u64) -> (r: bool)
    ensures
        r == is_leap(year as int),
{
    year % 4 == 0 && (year % 100 != 0 || year % 400 == 0)
}

fn length_of_year(year: u64) -> (r: u64)
    ensures
        r == year_length(year as int),
{
    if leap(year) {
        366
    } else {
        365
    }
}

fn length_of_month(year: u64, month: u64) -> (r: u64)
    ensures
        r == month_length(year as int, month as int),
        28 <= r <= 31,
{
    if month == 2 {
        if leap(year) {
            29
        } else {
            28
        }
    } else if month == 4 || month == 6 || month == 9 || month == 11 {
        30
    } else {
        31
    }
}

fn timestamp_form(t: &Vec<char>) -> (r: bool)
    ensures
        r == has_timestamp_form(t@),
{
    let n = t.len();
    if n < 20 || t[4] != '-' || t[7] != '-' || t[10] != 'T' || t[13] != ':' || t[16] != ':'
        || t[n - 1] != 'Z' {
        return false;
    }
    if n > 20 && (t[19] != '.' || n < 22) {
        return false;
    }
    let mut i: usize = 0;
    while i < n - 1
        invariant
            n == t@.len(),
            n >= 20,
            i <= n - 1,
            forall|k: int|
                0 <= k < i && k != 4 && k != 7 && k != 10 && k != 13 && k != 16 && k != 19
                    ==> is_digit(#[trigger] t@[k]),
        decreases n - i,
    {
        let separator = i == 4 || i == 7 || i == 10 || i == 13 || i == 16 || i == 19;
        if !separator && !('0' <= t[i] && t[i] <= '9') {
            return false;
        }
        i += 1;
    }
    true
}

fn millis_in_fraction(t: &Vec<char>) -> (r: u64)
    requires
        has_timestamp_form(t@),
    ensures
        r == fraction_ms(t@),
        r <= 999,
{
    let n = t.len();
    if n == 20 {
        return 0;
    }
    let hundreds = 100 * digit_of(t[20]);
    let tens = if n > 22 {
        10 * digit_of(t[21])
    } else {
        0
    };
    let ones = if n > 23 {
        digit_of(t[22])
    } else {
        0
    };
    hundreds + tens + ones
}

/// Milliseconds since the Unix epoch of an ISO 8601 UTC timestamp; `None` where the text is none
/// or names an instant before 1970.
pub fn parse_iso8601_utc_to_ms(ts: &str) -> (r: Option<u64>)
    ensures
        r == timestamp_ms(ts@),
{
    let t = text::chars_of(ts);
    if !timestamp_form(&t) {
        return None;
    }
    let year = 100 * number_of(&t, 0) + number_of(&t, 2);
    let month = number_of(&t, 5);
    let day = number_of(&t, 8);
    let hour = number_of(&t, 11);
    let minute = number_of(&t, 14);
    let second = number_of(&t, 17);
    let millisecond = millis_in_fraction(&t);
    let ghost named = named_time(t@);
    assert(named.year == year && named.month == month && named.day == day && named.hour == hour
        && named.minute == minute && named.second == second && named.millisecond == millisecond);
    if year < 1970 || month < 1 || month > 12 || day < 1 || day > length_of_month(year, month)
        || hour >= 24 || minute >= 60 || second >= 60 {
        return None;
    }
    let leaps = (year - 1) / 4 - (year - 1) / 100 + (year - 1) / 400;
    let before_year = 365 * (year - 1970) + leaps - 477;
    let mut before_month: u64 = 0;
    let mut m: u64 = 1;
    while m < month
        invariant
            1 <= m <= month <= 12,
            before_month == days_before_month(year as int, m as int),
            before_month <= 31 * (m - 1),
        decreases month - m,
    {
        before_month = before_month + length_of_month(year, m);
        m += 1;
    }
    let days = before_year + before_month + (day - 1);
    let seconds = ((days * 24 + hour) * 60 + minute) * 60 + second;
    Some(seconds * 1000 + millisecond)
}

/// The instant so many milliseconds after the Unix epoch.
pub open spec fn civil_of(ms: u64) -> CivilTime {
    choose|at: CivilTime| #[trigger] at.is_valid() && at.epoch_ms() == ms
}

/// The instant so many milliseconds after the Unix epoch, in the form `YYYY-MM-DDTHH:MM:SS.mmmZ`.
pub open spec fn iso8601_of(ms: u64) -> Seq<char> {
    civil_of(ms).iso8601()
}

proof fn lemma_years_apart(a: int, b: int)
    requires
        1970 <= a < b,
    ensures
        days_before_year(a) + year_length(a) <= days_before_year(b),
    decreases b - a,
{
    lemma_next_year(a);
    if a + 1 < b {
        lemma_years_apart(a + 1, b);
    }
}

proof fn lemma_months_apart(year: int, a: int, b: int)
    requires
        1 <= a < b <= 13,
    ensures
        days_before_month(year, a) + month_length(year, a) <= days_before_month(year, b),
    decreases b - a,
{
    if a + 1 < b {
        lemma_months_apart(year, a, b - 1);
    }
}

proof fn lemma_day_of_year(at: CivilTime)
    requires
        at.is_valid(),
    ensures
        0 <= days_before_month(at.year as int, at.month as int) + at.day - 1 < year_length(
            at.year as int,
        ),
{
    let year = at.year as int;
    lemma_year_in_months(year);
    assert(days_before_month(year, 1) == 0);
    if at.month > 1 {
        lemma_months_apart(year, 1, at.month as int);
    }
    if at.month < 12 {
        lemma_months_apart(year, at.month as int, 12);
    }
}

/// The number of days from 1970-01-01.
spec fn day_number(at: CivilTime) -> int {
    days_before_year(at.year as int) + days_before_month(at.year as int, at.month as int) + at.day
        - 1
}

proof fn lemma_mixed_base(a: int, b: int, p: int, q: int, n: int)
    requires
        n > 0,
        0 <= p < n,
        0 <= q < n,
        a * n + p == b * n + q,
    ensures
        a == b,
        p == q,
{
    assert(a == b) by (nonlinear_arith)
        requires
            n > 0,
            0 <= p < n,
            0 <= q < n,
            a * n + p == b * n + q,
    ;
}

proof fn lemma_same_day(a: CivilTime, b: CivilTime)
    requires
        a.is_valid(),
        b.is_valid(),
        day_number(a) == day_number(b),
    ensures
        a.year == b.year,
        a.month == b.month,
        a.day == b.day,
{
    lemma_day_of_year(a);
    lemma_day_of_year(b);
    if a.year < b.year {
        lemma_years_apart(a.year as int, b.year as int);
    } else if b.year < a.year {
        lemma_years_apart(b.year as int, a.year as int);
    }
    let year = a.year as int;
    if a.month < b.month {
        lemma_months_apart(year, a.month as int, b.month as int);
    } else if b.month < a.month {
        lemma_months_apart(year, b.month as int, a.month as int);
    }
}

/// Different instants are different numbers of milliseconds.
pub proof fn law_instants_differ(a: CivilTime, b: CivilTime)
    requires
        a.is_valid(),
        b.is_valid(),
        a.epoch_ms() == b.epoch_ms(),
    ensures
        a == b,
{
    let hours = |at: CivilTime| day_number(at) * 24 + at.hour;
    let minutes = |at: CivilTime| hours(at) * 60 + at.minute;
    let seconds = |at: CivilTime| minutes(at) * 60 + at.second;
    lemma_mixed_base(seconds(a), seconds(b), a.millisecond as int, b.millisecond as int, 1000);
    lemma_mixed_base(minutes(a), minutes(b), a.second as int, b.second as int, 60);
    lemma_mixed_base(hours(a), hours(b), a.minute as int, b.minute as int, 60);
    lemma_mixed_base(day_number(a), day_number(b), a.hour as int, b.hour as int, 24);
    lemma_same_day(a, b);
}

/// The instant so many milliseconds after the Unix epoch.
pub fn civil_time(ms: u64) -> (r: CivilTime)
    ensures
        r == civil_of(ms),
        r.is_valid(),
        r.epoch_ms() == ms,
{
    let all_days = ms / 86_400_000;
    let rest = ms % 86_400_000;
    let cycles = all_days / 146_097;
    let mut days = all_days % 146_097;
    let mut year: u64 = 1970;
    assert(days_before_year(1970) == 0);
    while days >= length_of_year(year)
        invariant
            1970 <= year <= 2370,
            days < 146_097,
            all_days % 146_097 == days_before_year(year as int) + days,
        decreases days,
    {
        proof {
            lemma_next_year(year as int);
            lemma_four_centuries(1970, 1);
        }
        days = days - length_of_year(year);
        year += 1;
    }
    let ghost base_year = year;
    year = year + 400 * cycles;
    proof {
        lemma_four_centuries(base_year as int, cycles as int);
        lemma_year_in_months(year as int);
    }
    let mut month: u64 = 1;
    let ghost day_of_year = days;
    while month < 12 && days >= length_of_month(year, month)
        invariant
            1 <= month <= 12,
            days < 366,
            day_of_year == days_before_month(year as int, month as int) + days,
            day_of_year < year_length(year as int),
            days_before_month(year as int, 12) + 31 == year_length(year as int),
        ensures
            1 <= month <= 12,
            day_of_year == days_before_month(year as int, month as int) + days,
            days < month_length(year as int, month as int),
        decreases days,
    {
        days = days - length_of_month(year, month);
        month += 1;
    }
    let seconds = rest / 1000;
    let r = CivilTime {
        year,
        month,
        day: days + 1,
        hour: seconds / 3600,
        minute: seconds / 60 % 60,
        second: seconds % 60,
        millisecond: rest % 1000,
    };
    assert(r.epoch_ms() == ms) by {
        assert(days_before_year(year as int) + day_of_year == all_days);
    }
    proof {
        assert(r.is_valid());
        law_instants_differ(r, civil_of(ms));
    }
    r
}

fn append_two(out: &mut String, n: u64)
    requires
        n < 100,
    ensures
        final(out)@ == old(out)@ + two_digits(n as nat),
{
    text::append_decimal(out, n / 10);
    text::append_decimal(out, n % 10);
    assert(out@ =~= old(out)@ + two_digits(n as nat));
}

fn append_date(out: &mut String, at: CivilTime)
    requires
        at.is_valid(),
    ensures
        final(out)@ == old(out)@ + at.date(),
{
    proof {
        reveal_strlit("-");
    }
    text::append_decimal(out, at.year);
    out.append("-");
    append_two(out, at.month);
    out.append("-");
    append_two(out, at.day);
    assert(out@ =~= old(out)@ + at.date());
}

fn append_clock(out: &mut String, at: CivilTime)
    requires
        at.is_valid(),
    ensures
        final(out)@ == old(out)@ + at.clock(),
{
    proof {
        reveal_strlit(":");
        reveal_strlit(".");
    }
    append_two(out, at.hour);
    out.append(":");
    append_two(out, at.minute);
    out.append(":");
    append_two(out, at.second);
    out.append(".");
    append_two(out, at.millisecond / 10);
    text::append_decimal(out, at.millisecond % 10);
    assert(out@ =~= old(out)@ + at.clock());
}

/// The instant so many milliseconds after the Unix epoch, in the form `YYYY-MM-DDTHH:MM:SS.mmmZ`.
pub fn millis_to_iso8601(ms: u64) -> (r: String)
    ensures
        r@ == iso8601_of(ms),
{
    proof {
        reveal_strlit("T");
        reveal_strlit("Z");
    }
    let at = civil_time(ms);
    let mut out = String::new();
    append_date(&mut out, at);
    out.append("T");
    append_clock(&mut out, at);
    out.append("Z");
    assert(out@ =~= at.iso8601());
    out
}

proof fn lemma_digit(n: nat)
    requires
        n < 10,
    ensures
        is_digit(text::digit(n)),
        digit_value(text::digit(n)) == n,
{
}

proof fn lemma_four_digits(y: nat)
    requires
        1000 <= y <= 9999,
    ensures
        text::decimal(y) == seq![
            text::digit(y / 1000),
            text::digit(y / 100 % 10),
            text::digit(y / 10 % 10),
            text::digit(y % 10),
        ],
{
    let a = y / 10;
    let b = a / 10;
    let c = b / 10;
    assert(b == y / 100 && c == y / 1000);
    assert(text::decimal(c) == seq![text::digit(c)]);
    assert(text::decimal(b) == text::decimal(c).push(text::digit(b % 10)));
    assert(text::decimal(a) == text::decimal(b).push(text::digit(a % 10)));
    assert(text::decimal(y) == text::decimal(a).push(text::digit(y % 10)));
    assert(text::decimal(y) =~= seq![
        text::digit(c),
        text::digit(b % 10),
        text::digit(a % 10),
        text::digit(y % 10),
    ]);
}

proof fn lemma_two_digits(n: nat)
    requires
        n < 100,
    ensures
        two_digits(n).len() == 2,
        is_digit(two_digits(n)[0]),
        is_digit(two_digits(n)[1]),
        10 * digit_value(two_digits(n)[0]) + digit_value(two_digits(n)[1]) == n,
{
    lemma_digit(n / 10);
    lemma_digit(n % 10);
}

/// Up to the end of the year 9999 a rendered instant reads back as itself.
pub proof fn law_rendered_instant_reads_back(at: CivilTime)
    requires
        at.is_valid(),
        at.year <= 9999,
    ensures
        timestamp_ms(at.iso8601()) == Some(at.epoch_ms() as u64),
{
    lemma_date_text(at);
    lemma_clock_text(at);
    lemma_parts_read_back(at.date(), at.clock(), at);
}

proof fn lemma_date_text(at: CivilTime)
    requires
        at.is_valid(),
        at.year <= 9999,
    ensures
        at.date().len() == 10,
        at.date()[4] == '-',
        at.date()[7] == '-',
        forall|i: int| 0 <= i < 10 && i != 4 && i != 7 ==> is_digit(#[trigger] at.date()[i]),
        100 * number_at(at.date(), 0) + number_at(at.date(), 2) == at.year,
        number_at(at.date(), 5) == at.month,
        number_at(at.date(), 8) == at.day,
{
    let y = at.year as nat;
    lemma_four_digits(y);
    lemma_digit(y / 1000);
    lemma_digit(y / 100 % 10);
    lemma_digit(y / 10 % 10);
    lemma_digit(y % 10);
    lemma_two_digits(at.month as nat);
    lemma_two_digits(at.day as nat);
    let m = two_digits(at.month as nat);
    let n = two_digits(at.day as nat);
    let q = text::decimal(y);
    assert(at.date() =~= seq![q[0], q[1], q[2], q[3], '-', m[0], m[1], '-', n[0], n[1]]);
}

proof fn lemma_clock_text(at: CivilTime)
    requires
        at.is_valid(),
    ensures
        at.clock().len() == 12,
        at.clock()[2] == ':',
        at.clock()[5] == ':',
        at.clock()[8] == '.',
        forall|i: int|
            0 <= i < 12 && i != 2 && i != 5 && i != 8 ==> is_digit(#[trigger] at.clock()[i]),
        number_at(at.clock(), 0) == at.hour,
        number_at(at.clock(), 3) == at.minute,
        number_at(at.clock(), 6) == at.second,
        100 * digit_value(at.clock()[9]) + 10 * digit_value(at.clock()[10]) + digit_value(
            at.clock()[11],
        ) == at.millisecond,
{
    let ms = at.millisecond as nat;
    lemma_two_digits(at.hour as nat);
    lemma_two_digits(at.minute as nat);
    lemma_two_digits(at.second as nat);
    lemma_digit(ms / 100);
    lemma_digit(ms / 10 % 10);
    lemma_digit(ms % 10);
    let h = two_digits(at.hour as nat);
    let m = two_digits(at.minute as nat);
    let s = two_digits(at.second as nat);
    let f = three_digits(ms);
    assert(at.clock() =~= seq![
        h[0],
        h[1],
        ':',
        m[0],
        m[1],
        ':',
        s[0],
        s[1],
        '.',
        f[0],
        f[1],
        f[2],
    ]);
}

proof fn lemma_parts_read_back(d: Seq<char>, c: Seq<char>, at: CivilTime)
    requires
        at.is_valid(),
        at.year <= 9999,
        d.len() == 10,
        c.len() == 12,
        d == at.date(),
        c == at.clock(),
        d[4] == '-',
        d[7] == '-',
        c[2] == ':',
        c[5] == ':',
        c[8] == '.',
        forall|i: int| 0 <= i < 10 && i != 4 && i != 7 ==> is_digit(#[trigger] d[i]),
        forall|i: int| 0 <= i < 12 && i != 2 && i != 5 && i != 8 ==> is_digit(#[trigger] c[i]),
        100 * number_at(d, 0) + number_at(d, 2) == at.year,
        number_at(d, 5) == at.month,
        number_at(d, 8) == at.day,
        number_at(c, 0) == at.hour,
        number_at(c, 3) == at.minute,
        number_at(c, 6) == at.second,
        100 * digit_value(c[9]) + 10 * digit_value(c[10]) + digit_value(c[11]) == at.millisecond,
    ensures
        timestamp_ms(at.iso8601()) == Some(at.epoch_ms() as u64),
{
    let t = at.iso8601();
    assert(t.len() == 24);
    assert forall|i: int| 0 <= i < 10 implies #[trigger] t[i] == d[i] by {}
    assert forall|i: int| 11 <= i < 23 implies #[trigger] t[i] == c[i - 11] by {}
    assert(t[10] == 'T' && t[23] == 'Z');
    assert(t[4] == '-' && t[7] == '-' && t[13] == ':' && t[16] == ':' && t[19] == '.');
    assert(has_timestamp_form(t)) by {
        assert forall|i: int|
            0 <= i < t.len() - 1 && i != 4 && i != 7 && i != 10 && i != 13 && i != 16 && i
                != 19 implies is_digit(#[trigger] t[i]) by {
            if i < 10 {
                assert(is_digit(d[i]));
            } else {
                assert(is_digit(c[i - 11]));
            }
        }
    }
    assert(named_time(t) == at) by {
        assert(t[0] == d[0] && t[1] == d[1] && t[2] == d[2] && t[3] == d[3]);
        assert(t[5] == d[5] && t[6] == d[6] && t[8] == d[8] && t[9] == d[9]);
        assert(t[11] == c[0] && t[12] == c[1] && t[14] == c[3] && t[15] == c[4]);
        assert(t[17] == c[6] && t[18] == c[7]);
        assert(t[20] == c[9] && t[21] == c[10] && t[22] == c[11]);
    }
}

/// A text names an instant if and only if it has the form `YYYY-MM-DDTHH:MM:SSZ`, with or without
/// a fraction of the second, and its numbers are a date and a time of day since 1970. It is read
/// digit by digit; of a fraction the first three digits count.
pub proof fn law_timestamp_is_read_digit_by_digit(t: Seq<char>)
    ensures
        ({
            let d = |i: int| t[i] as int - '0' as int;
            let two = |i: int| 10 * d(i) + d(i + 1);
            let year = 100 * two(0) + two(2);
            let month = two(5);
            let day = two(8);
            let last_day = if month == 2 {
                if year % 4 == 0 && (year % 100 != 0 || year % 400 == 0) {
                    29int
                } else {
                    28int
                }
            } else if month == 4 || month == 6 || month == 9 || month == 11 {
                30int
            } else {
                31int
            };
            let ms = (if t.len() > 21 {
                100 * d(20)
            } else {
                0
            }) + (if t.len() > 22 {
                10 * d(21)
            } else {
                0
            }) + (if t.len() > 23 {
                d(22)
            } else {
                0
            });
            let has_form = t.len() >= 20 && t[4] == '-' && t[7] == '-' && t[10] == 'T' && t[13]
                == ':' && t[16] == ':' && t.last() == 'Z' && (t.len() == 20 || (t.len() > 21
                && t[19] == '.')) && (forall|i: int|
                0 <= i < t.len() - 1 && i != 4 && i != 7 && i != 10 && i != 13 && i != 16 && i
                    != 19 ==> '0' <= #[trigger] t[i] <= '9');
            let is_instant = year >= 1970 && 1 <= month <= 12 && 1 <= day <= last_day && two(11)
                <= 23 && two(14) <= 59 && two(17) <= 59;
            &&& timestamp_ms(t) is Some <==> has_form && is_instant
            &&& has_form && is_instant ==> timestamp_ms(t) == Some(
                (CivilTime {
                    year: year as u64,
                    month: month as u64,
                    day: day as u64,
                    hour: two(11) as u64,
                    minute: two(14) as u64,
                    second: two(17) as u64,
                    millisecond: ms as u64,
                }).epoch_ms() as u64,
            )
        }),
{
    if t.len() >= 20 && (forall|i: int|
        0 <= i < t.len() - 1 && i != 4 && i != 7 && i != 10 && i != 13 && i != 16 && i != 19
            ==> '0' <= #[trigger] t[i] <= '9') {
        assert('0' <= t[0] <= '9' && '0' <= t[1] <= '9' && '0' <= t[2] <= '9' && '0' <= t[3]
            <= '9');
        assert('0' <= t[5] <= '9' && '0' <= t[6] <= '9' && '0' <= t[8] <= '9' && '0' <= t[9]
            <= '9');
        assert('0' <= t[11] <= '9' && '0' <= t[12] <= '9' && '0' <= t[14] <= '9' && '0' <= t[15]
            <= '9');
        assert('0' <= t[17] <= '9' && '0' <= t[18] <= '9');
        if t.len() > 21 {
            assert('0' <= t[20] <= '9');
        }
        if t.len() > 22 {
            assert('0' <= t[21] <= '9');
        }
        if t.len() > 23 {
            assert('0' <= t[22] <= '9');
        }
        assert forall|i: int|
            0 <= i < t.len() - 1 && i != 4 && i != 7 && i != 10 && i != 13 && i != 16 && i
                != 19 implies is_digit(#[trigger] t[i]) by {
            assert('0' <= t[i] <= '9');
        }
    }
    if has_timestamp_form(t) {
        assert forall|i: int|
            0 <= i < t.len() - 1 && i != 4 && i != 7 && i != 10 && i != 13 && i != 16 && i
                != 19 implies '0' <= #[trigger] t[i] <= '9' by {
            assert(is_digit(t[i]));
        }
    }
}

/// Milliseconds count from the beginning of 1970. Within a day they are those of the clock, and
/// the same time on the next day is 86 400 000 later: the day after the last one of a month is the
/// first one of the next month, and the day after 31 December is New Year's Day.
pub proof fn law_milliseconds_count_elapsed_time(a: CivilTime, b: CivilTime)
    requires
        a.is_valid(),
        b.is_valid(),
    ensures
        a.year == 1970 && a.month == 1 && a.day == 1 && a.hour == 0 && a.minute == 0 && a.second
            == 0 && a.millisecond == 0 ==> a.epoch_ms() == 0,
        a.year == b.year && a.month == b.month && a.day == b.day ==> b.epoch_ms() - a.epoch_ms()
            == 3_600_000 * (b.hour - a.hour) + 60_000 * (b.minute - a.minute) + 1000 * (b.second
            - a.second) + (b.millisecond - a.millisecond),
        ({
            let year = a.year as int;
            let last_day = if a.month == 2 {
                if year % 4 == 0 && (year % 100 != 0 || year % 400 == 0) {
                    29int
                } else {
                    28int
                }
            } else if a.month == 4 || a.month == 6 || a.month == 9 || a.month == 11 {
                30int
            } else {
                31int
            };
            let same_clock = a.hour == b.hour && a.minute == b.minute && a.second == b.second
                && a.millisecond == b.millisecond;
            let is_next_day = (a.year == b.year && a.month == b.month && b.day == a.day + 1) || (
            a.year == b.year && b.month == a.month + 1 && a.day == last_day && b.day == 1) || (
            b.year == a.year + 1 && a.month == 12 && a.day == 31 && b.month == 1 && b.day == 1);
            same_clock && is_next_day ==> b.epoch_ms() == a.epoch_ms() + 86_400_000
        }),
{
    let year = a.year as int;
    lemma_next_year(year);
    reveal_with_fuel(days_before_month, 14);
    assert(days_before_month(b.year as int, 1) == 0);
    assert(days_before_month(year, 12) + 31 == year_length(year));
    assert(days_before_month(year, a.month + 1) == days_before_month(year, a.month as int)
        + month_length(year, a.month as int));
}

proof fn lemma_every_instant(ms: nat) -> (at: CivilTime)
    requires
        ms <= u64::MAX,
    ensures
        at.is_valid(),
        at.epoch_ms() == ms,
    decreases ms,
{
    if ms == 0 {
        let at = CivilTime {
            year: 1970,
            month: 1,
            day: 1,
            hour: 0,
            minute: 0,
            second: 0,
            millisecond: 0,
        };
        law_milliseconds_count_elapsed_time(at, at);
        at
    } else {
        let a = lemma_every_instant((ms - 1) as nat);
        lemma_year_fits(a);
        let year = a.year as int;
        if a.millisecond < 999 {
            let b = CivilTime { millisecond: (a.millisecond + 1) as u64, ..a };
            law_milliseconds_count_elapsed_time(a, b);
            b
        } else if a.second < 59 {
            let b = CivilTime { second: (a.second + 1) as u64, millisecond: 0, ..a };
            law_milliseconds_count_elapsed_time(a, b);
            b
        } else if a.minute < 59 {
            let b = CivilTime { minute: (a.minute + 1) as u64, second: 0, millisecond: 0, ..a };
            law_milliseconds_count_elapsed_time(a, b);
            b
        } else if a.hour < 23 {
            let b = CivilTime {
                hour: (a.hour + 1) as u64,
                minute: 0,
                second: 0,
                millisecond: 0,
                ..a
            };
            law_milliseconds_count_elapsed_time(a, b);
            b
        } else {
            let midnight = CivilTime { hour: 0, minute: 0, second: 0, millisecond: 0, ..a };
            law_milliseconds_count_elapsed_time(midnight, a);
            let b = if a.day < month_length(year, a.month as int) {
                CivilTime { day: (a.day + 1) as u64, ..midnight }
            } else if a.month < 12 {
                CivilTime { month: (a.month + 1) as u64, day: 1, ..midnight }
            } else {
                CivilTime { year: (a.year + 1) as u64, month: 1, day: 1, ..midnight }
            };
            law_milliseconds_count_elapsed_time(midnight, b);
            b
        }
    }
}

proof fn lemma_year_fits(a: CivilTime)
    requires
        a.is_valid(),
        a.epoch_ms() <= u64::MAX,
    ensures
        a.year < u64::MAX,
{
    let year = a.year as int;
    lemma_day_of_year(a);
    assert(days_before_year(year) >= 365 * (year - 1970));
}

/// What a number of milliseconds is rendered as reads back as that number, up to the end of the
/// year 9999, and has the form `YYYY-MM-DDTHH:MM:SS.mmmZ`.
pub proof fn law_rendered_milliseconds_read_back(ms: u64)
    requires
        ms < 253_402_300_800_000,
    ensures
        timestamp_ms(iso8601_of(ms)) == Some(ms),
        iso8601_of(ms).len() == 24,
{
    let at = lemma_every_instant(ms as nat);
    let c = civil_of(ms);
    assert(c.is_valid() && c.epoch_ms() == ms);
    if c.year > 9999 {
        lemma_day_of_year(c);
        if c.year > 10000 {
            lemma_years_apart(10000, c.year as int);
        }
        assert(days_before_year(10000) == 2_932_897);
    }
    law_rendered_instant_reads_back(c);
    lemma_date_text(c);
    lemma_clock_text(c);
}

/// What is rendered names the instant itself: the year in decimals, the other fields in two or
/// three digits.
pub proof fn law_rendering_names_the_instant(ms: u64)
    ensures
        exists|at: CivilTime| #[trigger]
            at.is_valid() && at.epoch_ms() == ms && iso8601_of(ms) == at.iso8601(),
{
    let at = lemma_every_instant(ms as nat);
    assert(civil_of(ms).is_valid() && civil_of(ms).epoch_ms() == ms);
}

/// Every instant that a text names lies before the year 10000.
pub proof fn law_timestamps_end_with_the_year_9999(t: Seq<char>)
    ensures
        timestamp_ms(t) is Some ==> timestamp_ms(t)->0 < 253_402_300_800_000,
        timestamp_ms(t) is Some ==> named_time(t).epoch_ms() == timestamp_ms(t)->0,
{
    if timestamp_ms(t) is Some {
        law_timestamp_is_read_digit_by_digit(t);
        let c = named_time(t);
        assert(is_digit(t[0]) && is_digit(t[1]) && is_digit(t[2]) && is_digit(t[3]));
        assert(c.year <= 9999);
        lemma_day_of_year(c);
        if c.year < 10000 {
            lemma_years_apart(c.year as int, 10000);
        }
        assert(days_before_year(10000) == 2_932_897);
        assert(days_before_year(c.year as int) >= 0) by {
            if c.year > 1970 {
                lemma_years_apart(1970, c.year as int);
            }
            assert(days_before_year(1970) == 0);
        }
    }
}

} // verus!
