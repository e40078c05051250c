//! Conversion between `YYYY-MM-DDTHH:MM:SS` and seconds since 1970-01-01.
//!
//! Both directions are plain arithmetic in UTC on the Gregorian calendar,
//! carried on before its introduction, without leap seconds. Reading a date
//! counts the days of the years and months before it; writing a timestamp
//! walks through the years from 1970, forwards or backwards, and through the
//! months of the year reached. From the year 0 to the end of the year 9999 a
//! timestamp that is written and read again comes back as it was, and so
//! does a date that is read and written again.

use vstd::prelude::*;
use crate::decimal::{decimal, digit_char, min_width, min_width_chars, zeros};
use crate::text::{push_chars, views};

verus! {

/// The characters that separate the fields of a date.
pub open spec fn is_separator(c: char) -> bool {
    c == 'T' || c == '-' || c == ':'
}

/// Left-to-right split of `s` at separators: the fields already closed, and
/// the field still open at the end of `s`.
pub open spec fn split_fields(s: Seq<char>) -> (Seq<Seq<char>>, Seq<char>)
    decreases s.len(),
{
    if s.len() == 0 {
        (Seq::empty(), Seq::empty())
    } else {
        let (done, open) = split_fields(s.drop_last());
        if is_separator(s.last()) {
            (done.push(open), Seq::empty())
        } else {
            (done, open.push(s.last()))
        }
    }
}

/// The fields of `s`: the runs between its separators, empty ones included.
pub open spec fn fields(s: Seq<char>) -> Seq<Seq<char>> {
    split_fields(s).0.push(split_fields(s).1)
}

/// A decimal digit.
pub open spec fn is_digit(c: char) -> bool {
    '0' <= c <= '9'
}

/// Every character of `s` is a decimal digit.
pub open spec fn all_digits(s: Seq<char>) -> bool {
    forall|i: int| 0 <= i < s.len() ==> is_digit(#[trigger] s[i])
}

/// The number that the digits `s` denote.
pub open spec fn digits_value(s: Seq<char>) -> int
    decreases s.len(),
{
    if s.len() == 0 {
        0
    } else {
        digits_value(s.drop_last()) * 10 + (s.last() as u32 - 48)
    }
}

/// `s` without a leading plus sign.
pub open spec fn unsigned_body(s: Seq<char>) -> Seq<char> {
    if s.len() > 0 && s[0] == '+' {
        s.drop_first()
    } else {
        s
    }
}

/// The number that `s` denotes, if it is an optional plus sign and then one
/// or more digits whose value is at most `max`.
pub open spec fn number(s: Seq<char>, max: int) -> Option<int> {
    let body = unsigned_body(s);
    if body.len() > 0 && all_digits(body) && digits_value(body) <= max {
        Some(digits_value(body))
    } else {
        None
    }
}

/// The days of a common year that lie before month `m`.
pub open spec fn days_before_month(m: int) -> int {
    if m == 1 {
        0
    } else if m == 2 {
        31
    } else if m == 3 {
        59
    } else if m == 4 {
        90
    } else if m == 5 {
        120
    } else if m == 6 {
        151
    } else if m == 7 {
        181
    } else if m == 8 {
        212
    } else if m == 9 {
        243
    } else if m == 10 {
        273
    } else if m == 11 {
        304
    } else {
        334
    }
}

/// A leap year of the Gregorian calendar.
pub open spec fn is_leap(y: int) -> bool {
    (y % 4 == 0 && y % 100 != 0) || y % 400 == 0
}

/// The leap day that lies before month `m` within year `y`: one from March
/// on in a leap year.
pub open spec fn leap_day(y: int, m: int) -> int {
    if is_leap(y) && m > 2 {
        1
    } else {
        0
    }
}

/// The days from 1970-01-01 to the first day of year `y`, negative for a
/// year before 1970: 365 for each year between them, and one more for each
/// leap year among them. The divisions round down.
pub open spec fn days_before_year(y: int) -> int {
    (y - 1970) * 365 + (y - 1969) / 4 - (y - 1901) / 100 + (y - 1601) / 400
}

/// The day number of a date, counted from 1970-01-01 as day zero: the days
/// before its year, the days before its month, and its day.
pub open spec fn days_from_epoch(y: int, m: int, d: int) -> int {
    days_before_year(y) + days_before_month(m) + leap_day(y, m) + d - 1
}

/// What `iso8601_to_timestamp` returns: the seconds of the date, where the
/// text has exactly six fields that are numbers, the first within `i32`, the
/// others within `u32`, and the month is one of the twelve.
pub open spec fn spec_timestamp(s: Seq<char>) -> Option<int> {
    let f = fields(s);
    if f.len() != 6 {
        None
    } else {
        match (
            number(f[0], i32::MAX as int),
            number(f[1], u32::MAX as int),
            number(f[2], u32::MAX as int),
            number(f[3], u32::MAX as int),
            number(f[4], u32::MAX as int),
            number(f[5], u32::MAX as int),
        ) {
            (Some(y), Some(m), Some(d), Some(h), Some(mi), Some(sec)) => {
                if 1 <= m <= 12 {
                    Some(days_from_epoch(y, m, d) * 86400 + h * 3600 + mi * 60 + sec)
                } else {
                    None
                }
            },
            _ => None,
        }
    }
}

/// The value of digits is at least the value of each of their prefixes.
pub proof fn lemma_digits_value_grows(s: Seq<char>, i: int)
    requires
        all_digits(s),
        0 <= i <= s.len(),
    ensures
        0 <= digits_value(s.subrange(0, i)) <= digits_value(s),
    decreases s.len() - i,
{
    if i == s.len() {
        assert(s.subrange(0, i) == s);
        lemma_digits_value_nonnegative(s);
    } else {
        lemma_digits_value_grows(s, i + 1);
        let longer = s.subrange(0, i + 1);
        assert(longer.drop_last() == s.subrange(0, i));
        assert(longer.last() == s[i]);
        assert(is_digit(s[i]));
        lemma_digits_value_nonnegative(s.subrange(0, i));
    }
}

/// The value of digits is not negative.
pub proof fn lemma_digits_value_nonnegative(s: Seq<char>)
    requires
        all_digits(s),
    ensures
        0 <= digits_value(s),
    decreases s.len(),
{
    if s.len() > 0 {
        assert(all_digits(s.drop_last())) by {
            assert forall|i: int| 0 <= i < s.drop_last().len() implies is_digit(
                #[trigger] s.drop_last()[i],
            ) by {
                assert(s.drop_last()[i] == s[i]);
            }
        }
        lemma_digits_value_nonnegative(s.drop_last());
        assert(is_digit(s[s.len() - 1]));
    }
}

/// Splits `text` at `T`, `-` and `:`.
pub fn split_date_fields(text: &str) -> (r: Vec<Vec<char>>)
    ensures
        views(r@) == fields(text@),
{
    let mut done: Vec<Vec<char>> = Vec::new();
    let mut open: Vec<char> = Vec::new();
    proof {
        vstd::string::axiom_spec_iter(text);
    }
    for c in it: text.chars()
        invariant
            it.seq() == text@,
            (views(done@), open@) == split_fields(
                it.seq().subrange(0, it.index() as int),
            ),
    {
        let ghost before = it.seq().subrange(0, it.index() as int);
        let ghost after = it.seq().subrange(0, it.index() + 1);
        assert(after.drop_last() == before);
        assert(after.last() == c);
        if c == 'T' || c == '-' || c == ':' {
            let ghost old_done = done@;
            done.push(open);
            assert(views(done@) == views(old_done).push(open@));
            open = Vec::new();
        } else {
            open.push(c);
        }
    }
    assert(text@.subrange(0, text@.len() as int) == text@);
    let ghost old_done = done@;
    done.push(open);
    assert(views(done@) == views(old_done).push(open@));
    done
}

/// Reads a number of at most `max` from `s`: an optional plus sign, then digits.
pub fn parse_number(s: &Vec<char>, max: u64) -> (r: Option<u64>)
    ensures
        r matches Some(v) ==> number(s@, max as int) == Some(v as int),
        r is None ==> number(s@, max as int) is None,
{
    let start: usize = if s.len() > 0 && s[0] == '+' {
        1
    } else {
        0
    };
    let ghost body = unsigned_body(s@);
    assert(body == s@.subrange(start as int, s.len() as int));
    if start == s.len() {
        return None;
    }
    let mut acc: u128 = 0;
    let mut i: usize = start;
    while i < s.len()
        invariant
            start <= i <= s.len(),
            body == unsigned_body(s@),
            body == s@.subrange(start as int, s.len() as int),
            all_digits(body.subrange(0, i - start)),
            acc == digits_value(body.subrange(0, i - start)),
            acc <= max,
        decreases s.len() - i,
    {
        let c = s[i];
        let ghost pre = body.subrange(0, i - start);
        let ghost post = body.subrange(0, i - start + 1);
        assert(post.drop_last() == pre);
        assert(post.last() == c);
        if !('0' <= c && c <= '9') {
            assert(!is_digit(body[i - start]));
            return None;
        }
        assert(all_digits(post)) by {
            assert forall|j: int| 0 <= j < post.len() implies is_digit(#[trigger] post[j]) by {
                if j < pre.len() {
                    assert(post[j] == pre[j]);
                }
            }
        }
        let d: u128 = (c as u32 - 48) as u128;
        let next: u128 = acc * 10 + d;
        if next > max as u128 {
            proof {
                if all_digits(body) {
                    lemma_digits_value_grows(body, i - start + 1);
                }
            }
            return None;
        }
        acc = next;
        i += 1;
    }
    assert(body.subrange(0, s.len() - start) == body);
    Some(acc as u64)
}

/// The day number of the date with year `y`, month `m` and day `d`.
fn day_number(y: i64, m: i64, d: i64) -> (r: i64)
    requires
        0 <= y <= 0x7fff_ffff,
        1 <= m <= 12,
        0 <= d <= 0xffff_ffff,
    ensures
        r == days_from_epoch(y as int, m as int, d as int),
        -800_000 <= r <= 790_000_000_000,
{
    let before: i64 = if m == 1 {
        0
    } else if m == 2 {
        31
    } else if m == 3 {
        59
    } else if m == 4 {
        90
    } else if m == 5 {
        120
    } else if m == 6 {
        151
    } else if m == 7 {
        181
    } else if m == 8 {
        212
    } else if m == 9 {
        243
    } else if m == 10 {
        273
    } else if m == 11 {
        304
    } else {
        334
    };
    let leap: i64 = if m > 2 && ((y % 4 == 0 && y % 100 != 0) || y % 400 == 0) {
        1
    } else {
        0
    };
    // the leap years before `y`, counted from the year -2000 to keep the
    // divisions above zero
    let by_four: i64 = (y + 31) / 4 - 500;
    let by_hundred: i64 = (y + 99) / 100 - 20;
    let by_four_hundred: i64 = (y + 399) / 400 - 5;
    assert(by_four == (y - 1969) / 4 && by_hundred == (y - 1901) / 100 && by_four_hundred == (y
        - 1601) / 400);
    let years: i64 = (y - 1970) * 365 + by_four - by_hundred + by_four_hundred;
    years + before + leap + d - 1
}

/// Reads a date `YYYY-MM-DDTHH:MM:SS` as seconds since 1970-01-01, its Unix
/// time.
///
/// The text must split at `T`, `-` and `:` into exactly six numbers, the
/// month between 1 and 12; it is not checked further. Nothing is returned
/// for any other text.
pub fn iso8601_to_timestamp(date_str: &str) -> (r: Option<i64>)
    ensures
        r matches Some(v) ==> spec_timestamp(date_str@) == Some(v as int),
        r is None ==> spec_timestamp(date_str@) is None,
{
    let parts = split_date_fields(date_str);
    if parts.len() != 6 {
        return None;
    }
    let ghost f = fields(date_str@);
    assert(f[0] == parts@[0]@ && f[1] == parts@[1]@ && f[2] == parts@[2]@ && f[3] == parts@[3]@
        && f[4] == parts@[4]@ && f[5] == parts@[5]@);
    let year = match parse_number(&parts[0], 0x7fff_ffff) {
        Some(v) => v,
        None => {
            return None;
        },
    };
    let month = match parse_number(&parts[1], 0xffff_ffff) {
        Some(v) => v,
        None => {
            return None;
        },
    };
    let day = match parse_number(&parts[2], 0xffff_ffff) {
        Some(v) => v,
        None => {
            return None;
        },
    };
    let hour = match parse_number(&parts[3], 0xffff_ffff) {
        Some(v) => v,
        None => {
            return None;
        },
    };
    let min = match parse_number(&parts[4], 0xffff_ffff) {
        Some(v) => v,
        None => {
            return None;
        },
    };
    let sec = match parse_number(&parts[5], 0xffff_ffff) {
        Some(v) => v,
        None => {
            return None;
        },
    };
    if month < 1 || month > 12 {
        return None;
    }
    assert(year <= 0x7fff_ffff && day <= 0xffff_ffff && hour <= 0xffff_ffff && min <= 0xffff_ffff
        && sec <= 0xffff_ffff);
    let days = day_number(year as i64, month as i64, day as i64);
    Some(days * 86400 + hour as i64 * 3600 + min as i64 * 60 + sec as i64)
}

/// The number of days of year `y`.
pub open spec fn year_len(y: int) -> int {
    if is_leap(y) {
        366
    } else {
        365
    }
}

/// The number of days of month `m` of year `y`.
pub open spec fn month_len(y: int, m: int) -> int {
    if m == 2 {
        if is_leap(y) {
            29
        } else {
            28
        }
    } else if m == 4 || m == 6 || m == 9 || m == 11 {
        30
    } else {
        31
    }
}

/// Day `d` of year `y`, carried on into the year in which it falls: that
/// year, and the day within it.
pub open spec fn split_years(d: int, y: int) -> (int, int)
    decreases d,
{
    if d >= year_len(y) {
        split_years(d - year_len(y), y + 1)
    } else {
        (y, d)
    }
}

/// Day `d` of year `y`, where `d` is negative, carried back into the year
/// in which it falls: that year, and the day within it.
pub open spec fn split_years_back(d: int, y: int) -> (int, int)
    decreases
            (if d < 0 {
                -d
            } else {
                0
            }),
{
    if d < 0 {
        split_years_back(d + year_len(y - 1), y - 1)
    } else {
        (y, d)
    }
}

/// The year in which day `days`, counted from 1970-01-01, falls, and the
/// day within that year.
pub open spec fn year_of_day(days: int) -> (int, int) {
    if days >= 0 {
        split_years(days, 1970)
    } else {
        split_years_back(days, 1970)
    }
}

/// Day `d` of month `m` of year `y`, carried on into the month in which it
/// falls: that month, and the day within it.
pub open spec fn split_months(d: int, y: int, m: int) -> (int, int)
    decreases 13 - m,
{
    if m <= 12 && d + 1 > month_len(y, m) {
        split_months(d - month_len(y, m), y, m + 1)
    } else {
        (m, d)
    }
}

/// What `timestamp_to_iso8601` returns.
pub open spec fn spec_iso8601(ts: int) -> Seq<char> {
    let days = ts / 86400;
    let in_day = ts % 86400;
    let hour = in_day / 3600;
    let min = (in_day % 3600) / 60;
    let sec = in_day % 60;
    let (y, in_year) = year_of_day(days);
    let (m, in_month) = split_months(in_year, y, 1);
    min_width(y, 4) + seq!['-'] + min_width(m, 2) + seq!['-'] + min_width(in_month + 1, 2) + seq![
        'T',
    ] + min_width(hour, 2) + seq![':'] + min_width(min, 2) + seq![':'] + min_width(sec, 2)
}

/// The number of days of year `y`.
fn days_in_year(y: i64) -> (r: i64)
    ensures
        r == year_len(y as int),
{
    if (y % 4 == 0 && y % 100 != 0) || y % 400 == 0 {
        366
    } else {
        365
    }
}

/// The number of days of month `m` of year `y`.
fn days_in_month(y: i64, m: i64) -> (r: i64)
    ensures
        r == month_len(y as int, m as int),
{
    if m == 2 {
        if (y % 4 == 0 && y % 100 != 0) || y % 400 == 0 {
            29
        } else {
            28
        }
    } else if m == 4 || m == 6 || m == 9 || m == 11 {
        30
    } else {
        31
    }
}

/// Writes seconds since 1970-01-01, a Unix time, as `YYYY-MM-DDTHH:MM:SS`.
///
/// The days are carried through the years from 1970, forwards or backwards,
/// and through the months of the year reached. A year beyond 9999 takes
/// more than four digits, and a year before the year 0 has a minus sign.
pub fn timestamp_to_iso8601(ts: i64) -> (r: String)
    ensures
        r@ == spec_iso8601(ts as int),
{
    // 106751991167301 days lie before every timestamp
    let shifted: i128 = ts as i128 + 9223372036854806400;
    let days: i64 = ((shifted / 86400) - 106751991167301) as i64;
    let in_day: i64 = (shifted % 86400) as i64;
    assert(days == ts as int / 86400 && in_day == ts as int % 86400);
    let hour: i64 = in_day / 3600;
    let min: i64 = (in_day % 3600) / 60;
    let sec: i64 = in_day % 60;
    let mut y: i64 = 1970;
    let mut d: i64 = days;
    if days >= 0 {
        while d >= days_in_year(y)
            invariant
                1970 <= y,
                y + d <= 1970 + days,
                0 <= d <= days <= 106751991167301,
                split_years(d as int, y as int) == split_years(days as int, 1970),
            decreases d,
        {
            d = d - days_in_year(y);
            y = y + 1;
        }
    } else {
        while d < 0
            invariant
                y <= 1970,
                1970 - y <= d - days,
                -106751991167302 <= days <= d < 366,
                split_years_back(d as int, y as int) == split_years_back(days as int, 1970),
            decreases
                    (if d < 0 {
                        -d
                    } else {
                        0
                    }),
        {
            y = y - 1;
            d = d + days_in_year(y);
        }
    }
    assert((y as int, d as int) == year_of_day(days as int));
    let mut m: i64 = 1;
    let ghost in_year = d;
    while m <= 12 && d + 1 > days_in_month(y, m)
        invariant
            1 <= m <= 13,
            0 <= in_year < 366,
            d <= in_year,
            d >= in_year - 31 * (m - 1),
            split_months(d as int, y as int, m as int) == split_months(in_year as int, y as int, 1),
        decreases 13 - m,
    {
        d = d - days_in_month(y, m);
        m = m + 1;
    }
    let mut r = String::new();
    push_chars(&mut r, &min_width_chars(y, 4));
    r.push('-');
    push_chars(&mut r, &min_width_chars(m, 2));
    r.push('-');
    push_chars(&mut r, &min_width_chars(d + 1, 2));
    r.push('T');
    push_chars(&mut r, &min_width_chars(hour, 2));
    r.push(':');
    push_chars(&mut r, &min_width_chars(min, 2));
    r.push(':');
    push_chars(&mut r, &min_width_chars(sec, 2));
    r
}

/// A year adds its own length to the days before it.
pub proof fn lemma_year_adds_its_length(y: int)
    ensures
        days_before_year(y + 1) == days_before_year(y) + year_len(y),
        days_before_year(1970) == 0,
{
    let by4: int = if y % 4 == 0 {
        1
    } else {
        0
    };
    let by100: int = if y % 100 == 0 {
        1
    } else {
        0
    };
    let by400: int = if y % 400 == 0 {
        1
    } else {
        0
    };
    assert((y - 1968) / 4 == (y - 1969) / 4 + by4);
    assert((y - 1900) / 100 == (y - 1901) / 100 + by100);
    assert((y - 1600) / 400 == (y - 1601) / 400 + by400);
    assert(y % 400 == 0 ==> y % 100 == 0);
    assert(y % 100 == 0 ==> y % 4 == 0);
    assert(year_len(y) == 365 + by4 - by100 + by400);
}

/// Carrying days through the years keeps the day number: the days before
/// the year reached and the day within it add up to what was carried.
pub proof fn lemma_split_years(d: int, y0: int)
    requires
        d >= 0,
    ensures
        split_years(d, y0).0 >= y0,
        0 <= split_years(d, y0).1 < year_len(split_years(d, y0).0),
        days_before_year(split_years(d, y0).0) + split_years(d, y0).1 == days_before_year(y0) + d,
    decreases d,
{
    lemma_year_adds_its_length(y0);
    if d >= year_len(y0) {
        lemma_split_years(d - year_len(y0), y0 + 1);
    }
}

/// Carrying days back through the years keeps the day number, too.
pub proof fn lemma_split_years_back(d: int, y0: int)
    requires
        d < 0,
    ensures
        split_years_back(d, y0).0 < y0,
        0 <= split_years_back(d, y0).1 < year_len(split_years_back(d, y0).0),
        days_before_year(split_years_back(d, y0).0) + split_years_back(d, y0).1 == days_before_year(
            y0,
        ) + d,
    decreases
            (if d < 0 {
                -d
            } else {
                0
            }),
{
    lemma_year_adds_its_length(y0 - 1);
    let next = d + year_len(y0 - 1);
    if next < 0 {
        lemma_split_years_back(next, y0 - 1);
    } else {
        assert(split_years_back(next, y0 - 1) == (y0 - 1, next));
    }
}

/// The year of a day and the day within it add up to the day.
pub proof fn lemma_year_of_day(days: int)
    ensures
        0 <= year_of_day(days).1 < year_len(year_of_day(days).0),
        days_before_year(year_of_day(days).0) + year_of_day(days).1 == days,
{
    lemma_year_adds_its_length(1970);
    if days >= 0 {
        lemma_split_years(days, 1970);
    } else {
        lemma_split_years_back(days, 1970);
    }
}

/// The days of year `y` that lie before month `m`.
pub open spec fn days_before_month_of(y: int, m: int) -> int {
    days_before_month(m) + leap_day(y, m)
}

/// Carrying days through the months keeps the day of the year: the days
/// before the month reached and the day within it add up to what was carried.
pub proof fn lemma_split_months(d: int, y: int, m: int)
    requires
        1 <= m <= 12,
        d >= 0,
        days_before_month_of(y, m) + d < year_len(y),
    ensures
        m <= split_months(d, y, m).0 <= 12,
        0 <= split_months(d, y, m).1 < month_len(y, split_months(d, y, m).0),
        days_before_month_of(y, split_months(d, y, m).0) + split_months(d, y, m).1
            == days_before_month_of(y, m) + d,
    decreases 13 - m,
{
    if d + 1 > month_len(y, m) {
        lemma_split_months(d - month_len(y, m), y, m + 1);
    }
}

/// A digit character is a digit, and has the value of its digit.
pub proof fn lemma_digit_char(d: int)
    requires
        0 <= d <= 9,
    ensures
        is_digit(digit_char(d)),
        digit_char(d) as u32 - 48 == d,
        !is_separator(digit_char(d)),
        digit_char(d) != '+',
{
}

/// The decimal notation of a number consists of digits and denotes the number.
pub proof fn lemma_decimal_denotes(n: nat)
    ensures
        decimal(n).len() >= 1,
        all_digits(decimal(n)),
        digits_value(decimal(n)) == n,
    decreases n,
{
    if n < 10 {
        lemma_digit_char(n as int);
        let s = decimal(n);
        assert(s.len() == 1 && s[0] == digit_char(n as int));
        assert(s.drop_last().len() == 0);
        assert(digits_value(s.drop_last()) == 0);
    } else {
        lemma_decimal_denotes(n / 10);
        lemma_digit_char((n % 10) as int);
        let init = decimal(n / 10);
        let s = init.push(digit_char((n % 10) as int));
        assert(s.drop_last() == init);
        assert forall|i: int| 0 <= i < s.len() implies is_digit(#[trigger] s[i]) by {
            if i < init.len() {
                assert(s[i] == init[i]);
            }
        }
    }
}

/// Zeros in front of digits leave their value as it is.
pub proof fn lemma_leading_zeros(k: int, s: Seq<char>)
    requires
        all_digits(s),
    ensures
        all_digits(zeros(k) + s),
        digits_value(zeros(k) + s) == digits_value(s),
    decreases s.len(), k,
{
    let z = zeros(k);
    let t = z + s;
    assert forall|i: int| 0 <= i < t.len() implies is_digit(#[trigger] t[i]) by {
        if i >= z.len() {
            assert(t[i] == s[i - z.len()]);
        }
    }
    if s.len() > 0 {
        assert(all_digits(s.drop_last())) by {
            assert forall|i: int| 0 <= i < s.drop_last().len() implies is_digit(
                #[trigger] s.drop_last()[i],
            ) by {
                assert(s.drop_last()[i] == s[i]);
            }
        }
        lemma_leading_zeros(k, s.drop_last());
        assert(t.drop_last() == z + s.drop_last());
        assert(t.last() == s.last());
    } else if k > 0 {
        assert(t == z);
        lemma_leading_zeros(k - 1, s);
        assert(z.drop_last() == zeros(k - 1));
        assert(zeros(k - 1) + s == zeros(k - 1));
        assert(z.last() == '0');
    } else {
        assert(t.len() == 0);
    }
}

/// No character of `w` separates fields.
pub open spec fn no_separators(w: Seq<char>) -> bool {
    forall|i: int| 0 <= i < w.len() ==> !is_separator(#[trigger] w[i])
}

/// A number that is not negative, written in a minimum width, reads as
/// itself, and holds no separator.
pub proof fn lemma_min_width_reads(n: int, width: int, max: int)
    requires
        0 <= n <= max,
    ensures
        number(min_width(n, width), max) == Some(n),
        no_separators(min_width(n, width)),
{
    let digits = decimal(n as nat);
    lemma_decimal_denotes(n as nat);
    let pad = width - digits.len();
    lemma_leading_zeros(pad, digits);
    let s = min_width(n, width);
    assert(s == Seq::<char>::empty() + zeros(pad) + digits);
    assert(Seq::<char>::empty() + zeros(pad) == zeros(pad));
    assert(s == zeros(pad) + digits);
    assert(s.len() >= 1);
    assert(is_digit(s[0]));
    assert(unsigned_body(s) == s);
    assert forall|i: int| 0 <= i < s.len() implies !is_separator(#[trigger] s[i]) by {
        assert(is_digit(s[i]));
    }
}

/// Splitting past a run without separators extends the open field by it.
pub proof fn lemma_split_run(a: Seq<char>, w: Seq<char>)
    requires
        no_separators(w),
    ensures
        split_fields(a + w) == (split_fields(a).0, split_fields(a).1 + w),
    decreases w.len(),
{
    if w.len() == 0 {
        assert(a + w == a);
        assert(split_fields(a).1 + w == split_fields(a).1);
    } else {
        let v = w.drop_last();
        assert(no_separators(v)) by {
            assert forall|i: int| 0 <= i < v.len() implies !is_separator(#[trigger] v[i]) by {
                assert(v[i] == w[i]);
            }
        }
        lemma_split_run(a, v);
        assert((a + w).drop_last() == a + v);
        assert((a + w).last() == w.last());
        assert(!is_separator(w[w.len() - 1]));
        assert((split_fields(a).1 + v).push(w.last()) == split_fields(a).1 + w);
    }
}

/// A separator and a run without separators behind a text close its open
/// field and open the run as the next one.
pub proof fn lemma_split_next(p: Seq<char>, c: char, f: Seq<char>)
    requires
        is_separator(c),
        no_separators(f),
    ensures
        split_fields(p + seq![c] + f) == (split_fields(p).0.push(split_fields(p).1), f),
{
    let q = p + seq![c];
    assert(q.drop_last() == p);
    assert(q.last() == c);
    lemma_split_run(q, f);
    assert(Seq::<char>::empty() + f == f);
}

/// The fields of six runs without separators, written with separators
/// between them, are the six runs.
pub proof fn lemma_fields_of_six(
    f0: Seq<char>,
    f1: Seq<char>,
    f2: Seq<char>,
    f3: Seq<char>,
    f4: Seq<char>,
    f5: Seq<char>,
)
    requires
        no_separators(f0),
        no_separators(f1),
        no_separators(f2),
        no_separators(f3),
        no_separators(f4),
        no_separators(f5),
    ensures
        fields(
            f0 + seq!['-'] + f1 + seq!['-'] + f2 + seq!['T'] + f3 + seq![':'] + f4 + seq![':'] + f5,
        ) == seq![f0, f1, f2, f3, f4, f5],
{
    let p0 = f0;
    lemma_split_run(Seq::empty(), f0);
    assert(Seq::<char>::empty() + f0 == f0);
    assert(split_fields(p0) == (Seq::<Seq<char>>::empty(), f0));
    let p1 = p0 + seq!['-'] + f1;
    lemma_split_next(p0, '-', f1);
    let p2 = p1 + seq!['-'] + f2;
    lemma_split_next(p1, '-', f2);
    let p3 = p2 + seq!['T'] + f3;
    lemma_split_next(p2, 'T', f3);
    let p4 = p3 + seq![':'] + f4;
    lemma_split_next(p3, ':', f4);
    let p5 = p4 + seq![':'] + f5;
    lemma_split_next(p4, ':', f5);
    assert(fields(p5) =~= seq![f0, f1, f2, f3, f4, f5]);
}

/// A timestamp from the year 0 to the end of the year 9999, written as a
/// date and read again, comes back as it was.
pub proof fn lemma_written_timestamp_reads_back(ts: int)
    requires
        -62167219200 <= ts < 253402300800,
    ensures
        spec_timestamp(spec_iso8601(ts)) == Some(ts),
{
    let days = ts / 86400;
    let in_day = ts % 86400;
    let hour = in_day / 3600;
    let min = (in_day % 3600) / 60;
    let sec = in_day % 60;
    assert(-719528 <= days <= 2932896);
    assert(0 <= hour <= 23 && 0 <= min <= 59 && 0 <= sec <= 59);
    assert(ts == days * 86400 + hour * 3600 + min * 60 + sec);
    let (y, in_year) = year_of_day(days);
    lemma_year_of_day(days);
    assert(0 <= y <= 9999) by {
        assert(days_before_year(0) == -719528);
        assert(days_before_year(10000) == 2932897);
        if y < 0 {
            lemma_later_year_has_more_days(y + 1, 0);
            lemma_year_adds_its_length(y);
        }
        if y > 9999 {
            lemma_later_year_has_more_days(10000, y);
        }
    }
    let (m, in_month) = split_months(in_year, y, 1);
    lemma_split_months(in_year, y, 1);
    assert(days_from_epoch(y, m, in_month + 1) == days);
    let f0 = min_width(y, 4);
    let f1 = min_width(m, 2);
    let f2 = min_width(in_month + 1, 2);
    let f3 = min_width(hour, 2);
    let f4 = min_width(min, 2);
    let f5 = min_width(sec, 2);
    lemma_min_width_reads(y, 4, i32::MAX as int);
    lemma_min_width_reads(m, 2, u32::MAX as int);
    lemma_min_width_reads(in_month + 1, 2, u32::MAX as int);
    lemma_min_width_reads(hour, 2, u32::MAX as int);
    lemma_min_width_reads(min, 2, u32::MAX as int);
    lemma_min_width_reads(sec, 2, u32::MAX as int);
    lemma_fields_of_six(f0, f1, f2, f3, f4, f5);
    let text = spec_iso8601(ts);
    assert(text == f0 + seq!['-'] + f1 + seq!['-'] + f2 + seq!['T'] + f3 + seq![':'] + f4 + seq![
        ':',
    ] + f5);
    let f = fields(text);
    assert(f.len() == 6);
    assert(f[0] == f0 && f[1] == f1 && f[2] == f2 && f[3] == f3 && f[4] == f4 && f[5] == f5);
}

/// A date and time of day of the calendar, from the year 0 to the year 9999.
pub open spec fn is_date(y: int, m: int, d: int, h: int, mi: int, sec: int) -> bool {
    &&& 0 <= y <= 9999
    &&& 1 <= m <= 12
    &&& 1 <= d <= month_len(y, m)
    &&& 0 <= h <= 23
    &&& 0 <= mi <= 59
    &&& 0 <= sec <= 59
}

/// The notation `YYYY-MM-DDTHH:MM:SS` of a date.
pub open spec fn date_text(y: int, m: int, d: int, h: int, mi: int, sec: int) -> Seq<char> {
    min_width(y, 4) + seq!['-'] + min_width(m, 2) + seq!['-'] + min_width(d, 2) + seq!['T']
        + min_width(h, 2) + seq![':'] + min_width(mi, 2) + seq![':'] + min_width(sec, 2)
}

/// The seconds from 1970-01-01 to a date.
pub open spec fn date_seconds(y: int, m: int, d: int, h: int, mi: int, sec: int) -> int {
    days_from_epoch(y, m, d) * 86400 + h * 3600 + mi * 60 + sec
}

/// A later year has no fewer days before it.
pub proof fn lemma_later_year_has_more_days(a: int, b: int)
    requires
        a <= b,
    ensures
        days_before_year(a) <= days_before_year(b),
    decreases b - a,
{
    if a < b {
        lemma_later_year_has_more_days(a, b - 1);
        lemma_year_adds_its_length(b - 1);
    }
}

/// Carrying the days up to day `r` of year `y` through the years from `y0`
/// ends in year `y` at day `r`.
pub proof fn lemma_split_years_finds(dd: int, y0: int, y: int, r: int)
    requires
        y0 <= y,
        0 <= r < year_len(y),
        dd + days_before_year(y0) == days_before_year(y) + r,
    ensures
        split_years(dd, y0) == (y, r),
    decreases y - y0,
{
    lemma_year_adds_its_length(y0);
    if y0 < y {
        lemma_later_year_has_more_days(y0 + 1, y);
        lemma_split_years_finds(dd - year_len(y0), y0 + 1, y, r);
    }
}

/// Carrying the days back from year `y0` to day `r` of the earlier year `y`
/// ends in year `y` at day `r`.
pub proof fn lemma_split_years_back_finds(dd: int, y0: int, y: int, r: int)
    requires
        y < y0,
        0 <= r < year_len(y),
        dd + days_before_year(y0) == days_before_year(y) + r,
    ensures
        dd < 0,
        split_years_back(dd, y0) == (y, r),
    decreases y0 - y,
{
    lemma_year_adds_its_length(y0 - 1);
    lemma_later_year_has_more_days(y + 1, y0);
    lemma_year_adds_its_length(y);
    let next = dd + year_len(y0 - 1);
    if y < y0 - 1 {
        lemma_split_years_back_finds(next, y0 - 1, y, r);
    } else {
        assert(next == r);
        assert(split_years_back(next, y0 - 1) == (y0 - 1, next));
    }
}

/// Carrying the days up to day `r` of month `m` through the months from
/// `m0` ends in month `m` at day `r`.
pub proof fn lemma_split_months_finds(dd: int, y: int, m0: int, m: int, r: int)
    requires
        1 <= m0 <= m <= 12,
        0 <= r < month_len(y, m),
        dd + days_before_month_of(y, m0) == days_before_month_of(y, m) + r,
    ensures
        split_months(dd, y, m0) == (m, r),
    decreases m - m0,
{
    if m0 < m {
        lemma_split_months_finds(dd - month_len(y, m0), y, m0 + 1, m, r);
    }
}

/// A date reads as its seconds, and its seconds are written as the date.
pub proof fn lemma_read_date_is_written_back(y: int, m: int, d: int, h: int, mi: int, sec: int)
    requires
        is_date(y, m, d, h, mi, sec),
    ensures
        spec_timestamp(date_text(y, m, d, h, mi, sec)) == Some(date_seconds(y, m, d, h, mi, sec)),
        spec_iso8601(date_seconds(y, m, d, h, mi, sec)) == date_text(y, m, d, h, mi, sec),
        -62167219200 <= date_seconds(y, m, d, h, mi, sec) < 253402300800,
{
    let text = date_text(y, m, d, h, mi, sec);
    lemma_min_width_reads(y, 4, i32::MAX as int);
    lemma_min_width_reads(m, 2, u32::MAX as int);
    lemma_min_width_reads(d, 2, u32::MAX as int);
    lemma_min_width_reads(h, 2, u32::MAX as int);
    lemma_min_width_reads(mi, 2, u32::MAX as int);
    lemma_min_width_reads(sec, 2, u32::MAX as int);
    lemma_fields_of_six(
        min_width(y, 4),
        min_width(m, 2),
        min_width(d, 2),
        min_width(h, 2),
        min_width(mi, 2),
        min_width(sec, 2),
    );
    let f = fields(text);
    assert(f.len() == 6);
    assert(f[0] == min_width(y, 4) && f[1] == min_width(m, 2) && f[2] == min_width(d, 2) && f[3]
        == min_width(h, 2) && f[4] == min_width(mi, 2) && f[5] == min_width(sec, 2));
    let ts = date_seconds(y, m, d, h, mi, sec);
    let day = days_from_epoch(y, m, d);
    lemma_later_year_has_more_days(0, y);
    lemma_later_year_has_more_days(y, 10000);
    lemma_year_adds_its_length(y);
    assert(days_before_year(0) == -719528);
    assert(days_before_year(10000) == 2932897);
    let in_year = days_before_month_of(y, m) + d - 1;
    assert(0 <= in_year < year_len(y));
    assert(day == days_before_year(y) + in_year);
    assert(-719528 <= day < 2932897);
    let in_day = h * 3600 + mi * 60 + sec;
    assert(0 <= in_day < 86400);
    assert(ts == day * 86400 + in_day);
    assert(ts / 86400 == day && ts % 86400 == in_day);
    assert(in_day / 3600 == h && (in_day % 3600) / 60 == mi && in_day % 60 == sec);
    lemma_year_adds_its_length(1970);
    if y >= 1970 {
        lemma_later_year_has_more_days(1970, y);
        lemma_split_years_finds(day, 1970, y, in_year);
    } else {
        lemma_split_years_back_finds(day, 1970, y, in_year);
    }
    lemma_split_months_finds(in_year, y, 1, m, d - 1);
}

} // verus!
