//! Calendars: which month or year to show, the weeks of a month, and their
//! layout with colours.

use vstd::prelude::*;
use chrono::Datelike;
use colorize::AnsiColor;
use crate::text::{
    append_str, center, center_spec, chars_of, int_digits, join_spec, nat_digits, pad_left,
    pad_left_spec, parse_usize, parse_usize_spec, push_char, repeat_char, repeat_spec, str_eq, u64_to_string,
};
use crate::tools::cat::{is_whitespace, unicode_whitespace};

verus! {

/// A month, or all months of a year.
#[derive(Debug, Clone, Copy, PartialEq, Eq, Structural)]
pub enum Month {
    All,
    One(u8),
}

/// What to show: a year and a month of it, or all of it.
#[derive(Debug, Clone, Copy, PartialEq, Eq, Structural)]
pub struct Date {
    pub year: u32,
    pub month: Month,
}

/// `s` with ASCII capitals made small, as `str::to_ascii_lowercase` does.
pub open spec fn ascii_lowercase(s: Seq<char>) -> Seq<char> {
    s.map_values(
        |c: char|
            if 'A' <= c && c <= 'Z' {
                ((c as u32) + 32) as char
            } else {
                c
            },
    )
}

fn to_ascii_lowercase(s: &str) -> (res: String)
    ensures
        res@ == ascii_lowercase(s@),
{
    let cs = chars_of(s);
    let mut out = String::new();
    let mut i: usize = 0;
    while i < cs.len()
        invariant
            cs@ == s@,
            i <= cs@.len(),
            out@ == ascii_lowercase(cs@.subrange(0, i as int)),
        decreases cs.len() - i,
    {
        let c = cs[i];
        let l = if 'A' <= c && c <= 'Z' {
            ((c as u32) + 32) as u8 as char
        } else {
            c
        };
        assert(l == (if 'A' <= c && c <= 'Z' {
            ((c as u32) + 32) as char
        } else {
            c
        }));
        push_char(&mut out, l);
        i += 1;
        assert(out@ =~= ascii_lowercase(cs@.subrange(0, i as int)));
    }
    assert(cs@.subrange(0, cs@.len() as int) =~= cs@);
    out
}

/// The month a (lower-case) name or abbreviation stands for.
pub open spec fn month_by_name(m: Seq<char>) -> Option<u8> {
    if m == "ja"@ || m == "jan"@ || m == "january"@ {
        Some(1)
    } else if m == "f"@ || m == "feb"@ || m == "february"@ {
        Some(2)
    } else if m == "mar"@ || m == "march"@ {
        Some(3)
    } else if m == "ap"@ || m == "apr"@ || m == "april"@ {
        Some(4)
    } else if m == "may"@ {
        Some(5)
    } else if m == "jun"@ || m == "june"@ {
        Some(6)
    } else if m == "jul"@ || m == "july"@ {
        Some(7)
    } else if m == "au"@ || m == "aug"@ || m == "august"@ {
        Some(8)
    } else if m == "s"@ || m == "sep"@ || m == "september"@ {
        Some(9)
    } else if m == "o"@ || m == "oct"@ || m == "october"@ {
        Some(10)
    } else if m == "n"@ || m == "nov"@ || m == "november"@ {
        Some(11)
    } else if m == "d"@ || m == "dec"@ || m == "december"@ {
        Some(12)
    } else {
        None
    }
}

fn month_named(m: &str) -> (res: Option<u8>)
    ensures
        res == month_by_name(m@),
{
    if str_eq(m, "ja") || str_eq(m, "jan") || str_eq(m, "january") {
        Some(1)
    } else if str_eq(m, "f") || str_eq(m, "feb") || str_eq(m, "february") {
        Some(2)
    } else if str_eq(m, "mar") || str_eq(m, "march") {
        Some(3)
    } else if str_eq(m, "ap") || str_eq(m, "apr") || str_eq(m, "april") {
        Some(4)
    } else if str_eq(m, "may") {
        Some(5)
    } else if str_eq(m, "jun") || str_eq(m, "june") {
        Some(6)
    } else if str_eq(m, "jul") || str_eq(m, "july") {
        Some(7)
    } else if str_eq(m, "au") || str_eq(m, "aug") || str_eq(m, "august") {
        Some(8)
    } else if str_eq(m, "s") || str_eq(m, "sep") || str_eq(m, "september") {
        Some(9)
    } else if str_eq(m, "o") || str_eq(m, "oct") || str_eq(m, "october") {
        Some(10)
    } else if str_eq(m, "n") || str_eq(m, "nov") || str_eq(m, "november") {
        Some(11)
    } else if str_eq(m, "d") || str_eq(m, "dec") || str_eq(m, "december") {
        Some(12)
    } else {
        None
    }
}

/// What a month argument means: a name or abbreviation in any case, or a
/// number from 1 to 12 (read as a `u8` is).
pub open spec fn parse_month_spec(s: Seq<char>) -> Result<u8, Seq<char>> {
    let m = ascii_lowercase(s);
    match month_by_name(m) {
        Some(n) => Ok(n),
        None => match parse_usize_spec(m) {
            Some(n) => if n <= 255 {
                if 1 <= n <= 12 {
                    Ok(n as u8)
                } else {
                    Err("month \""@ + nat_digits(n) + "\" not in the range 1 through 12"@)
                }
            } else {
                Err("Invalid month \""@ + s + "\""@)
            },
            None => Err("Invalid month \""@ + s + "\""@),
        },
    }
}

/// Reads a month argument.
pub fn parse_month(s: &str) -> (res: Result<u8, String>)
    ensures
        match parse_month_spec(s@) {
            Ok(n) => res == Ok::<u8, String>(n),
            Err(msg) => res matches Err(e) && e@ == msg,
        },
{
    let m = to_ascii_lowercase(s);
    match month_named(m.as_str()) {
        Some(n) => Ok(n),
        None => match parse_usize(m.as_str()) {
            Some(n) => {
                if n <= 255 {
                    if 1 <= n && n <= 12 {
                        Ok(n as u8)
                    } else {
                        let mut e = String::from_str("month \"");
                        append_str(&mut e, u64_to_string(n as u64).as_str());
                        append_str(&mut e, "\" not in the range 1 through 12");
                        Err(e)
                    }
                } else {
                    Err(invalid_month(s))
                }
            },
            None => Err(invalid_month(s)),
        },
    }
}

fn invalid_month(s: &str) -> (res: String)
    ensures
        res@ == "Invalid month \""@ + s@ + "\""@,
{
    let mut e = String::from_str("Invalid month \"");
    append_str(&mut e, s);
    append_str(&mut e, "\"");
    e
}

/// What the arguments ask for, given today's year and month: the whole
/// current year with `-y`; a month (of the given year, else this one); a
/// whole given year, which must lie in 1..=9999; else this month.
pub open spec fn validate_spec(
    year: Option<u32>,
    whole_year: bool,
    month: Option<Seq<char>>,
    cur_year: u32,
    cur_month: u8,
) -> Result<Date, Seq<char>> {
    if whole_year {
        Ok(Date { year: cur_year, month: Month::All })
    } else if month is Some {
        match parse_month_spec(month->Some_0) {
            Ok(m) => Ok(
                Date {
                    year: match year {
                        Some(y) => y,
                        None => cur_year,
                    },
                    month: Month::One(m),
                },
            ),
            Err(e) => Err(e),
        }
    } else if year is Some {
        let y = year->Some_0;
        if !(1 <= y <= 9999) {
            Err(
                "error: invalid value '"@ + nat_digits(y as nat) + "' for '[YEAR]': "@ + nat_digits(
                    y as nat,
                ) + " is not in 1..=9999"@,
            )
        } else {
            Ok(Date { year: y, month: Month::All })
        }
    } else {
        Ok(Date { year: cur_year, month: Month::One(cur_month) })
    }
}

/// Decides what to show from the arguments and today's year and month.
pub fn validate(
    year: Option<u32>,
    whole_year: bool,
    month: Option<String>,
    cur_year: u32,
    cur_month: u8,
) -> (res: Result<Date, String>)
    ensures
        match validate_spec(
            year,
            whole_year,
            match month {
                Some(m) => Some(m@),
                None => None,
            },
            cur_year,
            cur_month,
        ) {
            Ok(d) => res == Ok::<Date, String>(d),
            Err(msg) => res matches Err(e) && e@ == msg,
        },
{
    if whole_year {
        return Ok(Date { year: cur_year, month: Month::All });
    }
    if let Some(raw_month) = month {
        let m = match parse_month(raw_month.as_str()) {
            Ok(m) => m,
            Err(e) => {
                return Err(e);
            },
        };
        let y = match year {
            Some(y) => y,
            None => cur_year,
        };
        return Ok(Date { year: y, month: Month::One(m) });
    }
    if let Some(y) = year {
        if !(1 <= y && y <= 9999) {
            let ys = u64_to_string(y as u64);
            let mut e = String::from_str("error: invalid value '");
            append_str(&mut e, ys.as_str());
            append_str(&mut e, "' for '[YEAR]': ");
            append_str(&mut e, ys.as_str());
            append_str(&mut e, " is not in 1..=9999");
            return Err(e);
        }
        return Ok(Date { year: y, month: Month::All });
    }
    Ok(Date { year: cur_year, month: Month::One(cur_month) })
}

// ------------------------------------------------------------------------
// Weeks of a month
// ------------------------------------------------------------------------

/// Whether `y` is a leap year of the Gregorian calendar.
pub open spec fn is_leap(y: int) -> bool {
    (y % 4 == 0 && y % 100 != 0) || y % 400 == 0
}

/// The number of days of month `m` of year `y`.
pub open spec fn month_len(y: int, m: int) -> int {
    if m == 2 {
        if is_leap(y) {
            29
        } else {
            28
        }
    } else if m == 4 || m == 6 || m == 9 || m == 11 {
        30
    } else {
        31
    }
}

/// The weekday of day `d` of month `m` of year `y` of the proleptic
/// Gregorian calendar, counted from Sunday (0) to Saturday (6), by
/// Zeller's congruence.
pub open spec fn weekday_from_sunday(y: int, m: int, d: int) -> int {
    let mm = if m < 3 {
        m + 12
    } else {
        m
    };
    let yy = if m < 3 {
        y - 1
    } else {
        y
    };
    let k = yy % 100;
    let j = yy / 100;
    let h = (d + (13 * (mm + 1)) / 5 + k + k / 4 + j / 4 + 5 * j) % 7;
    (h + 6) % 7
}

/// The latest year the dates of the calendar library go to.
pub open spec fn last_year() -> int {
    262142
}

/// The weekday the first day of a month falls on, counted from Sunday.
/// Trusted: wraps chrono's `NaiveDate::from_ymd_opt`, `weekday` and
/// `num_days_from_sunday`; chrono implements the proleptic Gregorian
/// calendar, in which the weekday is what Zeller's congruence gives, and
/// its dates go up to the year `last_year()`.
#[verifier::external_body]
fn first_weekday(year: u32, month: u32) -> (res: u32)
    requires
        1 <= month <= 12,
        year <= last_year(),
    ensures
        res == weekday_from_sunday(year as int, month as int, 1),
{
    chrono::NaiveDate::from_ymd_opt(year as i32, month, 1).unwrap().weekday().num_days_from_sunday()
}

/// The days of year `y` before the first of month `m`.
pub open spec fn days_before_month(y: int, m: int) -> int
    decreases m,
{
    if m <= 1 {
        0
    } else {
        days_before_month(y, m - 1) + month_len(y, m - 1)
    }
}

/// The leap years before year `y` (from year 0 on).
pub open spec fn leaps_before(y: int) -> int {
    (y + 3) / 4 - (y + 99) / 100 + (y + 399) / 400
}

/// The day number of the first of month `m` of year `y`, counted from the
/// first of January of year 0 in the proleptic Gregorian calendar.
pub open spec fn first_day_number(y: int, m: int) -> int {
    365 * y + leaps_before(y) + days_before_month(y, m)
}

/// A year adds a leap day to the count exactly when it is a leap year.
proof fn lemma_leaps_step(y: int)
    requires
        y >= 0,
    ensures
        leaps_before(y + 1) - leaps_before(y) == if is_leap(y) {
            1int
        } else {
            0int
        },
{
    assert((y + 4) / 4 - (y + 3) / 4 == if y % 4 == 0 { 1int } else { 0int }) by (nonlinear_arith)
        requires
            y >= 0,
    ;
    assert((y + 100) / 100 - (y + 99) / 100 == if y % 100 == 0 { 1int } else { 0int }) by (nonlinear_arith)
        requires
            y >= 0,
    ;
    assert((y + 400) / 400 - (y + 399) / 400 == if y % 400 == 0 { 1int } else { 0int }) by (nonlinear_arith)
        requires
            y >= 0,
    ;
    if y % 400 == 0 {
        assert(y % 4 == 0 && y % 100 == 0) by (nonlinear_arith)
            requires
                y % 400 == 0,
        ;
    } else if y % 100 == 0 {
        assert(y % 4 == 0) by (nonlinear_arith)
            requires
                y % 100 == 0,
        ;
    }
}

/// The days from the first day of month `m1` of `y1` to that of `m2` of
/// `y2`.
/// Trusted: wraps chrono's `NaiveDate::from_ymd_opt`,
/// `signed_duration_since` and `num_days`. chrono counts days in the
/// proleptic Gregorian calendar, so the result is the difference of the
/// two firsts' day numbers.
#[verifier::external_body]
fn days_between(y1: u32, m1: u32, y2: u32, m2: u32) -> (res: i64)
    requires
        1 <= m1 <= 12,
        1 <= m2 <= 12,
        y1 <= last_year(),
        y2 <= last_year(),
    ensures
        res == first_day_number(y2 as int, m2 as int) - first_day_number(y1 as int, m1 as int),
{
    let first = chrono::NaiveDate::from_ymd_opt(y1 as i32, m1, 1).unwrap();
    let next = chrono::NaiveDate::from_ymd_opt(y2 as i32, m2, 1).unwrap();
    next.signed_duration_since(first).num_days()
}

/// The firsts of two months in a row lie the first month's length apart.
proof fn lemma_next_first(y: int, m: int)
    requires
        y >= 0,
        1 <= m <= 12,
    ensures
        m < 12 ==> first_day_number(y, m + 1) - first_day_number(y, m) == month_len(y, m),
        m == 12 ==> first_day_number(y + 1, 1) - first_day_number(y, 12) == month_len(y, 12),
{
    if m == 12 {
        lemma_leaps_step(y);
        reveal_with_fuel(days_before_month, 12);
        assert(days_before_month(y, 12) == 334 + if is_leap(y) { 1int } else { 0int });
    }
}

/// A month laid out in weeks from Sunday to Saturday, days outside the
/// month empty.
pub struct CalendarMonth {
    pub month: u8,
    pub year: u32,
    pub weeks: Vec<Vec<Option<u8>>>,
}

/// The `k`th slot of a month starting on weekday `start` with `days` days.
pub open spec fn slot(start: int, days: int, k: int) -> Option<u8> {
    if start <= k < start + days {
        Some((k - start + 1) as u8)
    } else {
        None
    }
}

/// The weeks of a month starting on weekday `start` with `days` days.
pub open spec fn weeks_spec(start: int, days: int) -> Seq<Seq<Option<u8>>> {
    Seq::new(
        ((start + days + 6) / 7) as nat,
        |w: int| Seq::new(7, |c: int| slot(start, days, 7 * w + c)),
    )
}

pub open spec fn weeks_view(v: Seq<Vec<Option<u8>>>) -> Seq<Seq<Option<u8>>> {
    v.map_values(|w: Vec<Option<u8>>| w@)
}

/// Lays out month `month` of `year`.
pub fn generate_month(month: u8, year: u32) -> (res: CalendarMonth)
    requires
        1 <= month <= 12,
        year < last_year() || (year == last_year() && month < 12),
    ensures
        res.month == month,
        res.year == year,
        weeks_view(res.weeks@) == weeks_spec(
            weekday_from_sunday(year as int, month as int, 1),
            month_len(year as int, month as int),
        ),
{
    proof {
        lemma_next_first(year as int, month as int);
    }
    let days_in_month = if month == 12 {
        days_between(year, 12, year + 1, 1)
    } else {
        days_between(year, month as u32, year, month as u32 + 1)
    };
    let start_col = first_weekday(year, month as u32) as usize;
    let ghost start = start_col as int;
    let ghost days = days_in_month as int;
    proof {
        assert(0 <= start < 7) by {
            assert(weekday_from_sunday(year as int, month as int, 1) % 7 == weekday_from_sunday(
                year as int,
                month as int,
                1,
            ));
        }
        assert(28 <= days <= 31);
    }
    let mut weeks: Vec<Vec<Option<u8>>> = Vec::new();
    let mut week: Vec<Option<u8>> = Vec::new();
    let mut c: usize = 0;
    while c < start_col
        invariant
            c <= start_col < 7,
            week@.len() == c,
            forall|k: int| 0 <= k < c ==> week@[k] == slot(start, days, k),
            start == start_col,
        decreases start_col - c,
    {
        week.push(None);
        c += 1;
    }
    let mut day: u8 = 1;
    let dm = days_in_month as u8;
    while day <= dm
        invariant
            1 <= day <= dm + 1,
            dm == days,
            28 <= days <= 31,
            0 <= start < 7,
            start == start_col,
            weeks@.len() == (start + day - 1) / 7,
            week@.len() == (start + day - 1) % 7,
            forall|w: int|
                0 <= w < weeks@.len() ==> #[trigger] weeks@[w]@ == weeks_spec(start, days)[w],
            forall|k: int|
                0 <= k < week@.len() ==> week@[k] == slot(start, days, 7 * weeks@.len() + k),
        decreases dm + 1 - day,
    {
        week.push(Some(day));
        if week.len() == 7 {
            let full = week;
            week = Vec::new();
            let ghost before = weeks@;
            weeks.push(full);
            proof {
                assert(full@ =~= weeks_spec(start, days)[before.len() as int]);
                assert forall|w: int| 0 <= w < weeks@.len() implies #[trigger] weeks@[w]@
                    == weeks_spec(start, days)[w] by {
                    if w < before.len() {
                        assert(weeks@[w] == before[w]);
                    }
                }
            }
        }
        day += 1;
    }
    if week.len() > 0 {
        let ghost n = week@.len();
        while week.len() < 7
            invariant
                n <= week@.len() <= 7,
                0 <= start < 7,
                28 <= days <= 31,
                forall|k: int|
                    0 <= k < week@.len() ==> week@[k] == slot(start, days, 7 * weeks@.len() + k),
                7 * weeks@.len() + n == start + days,
            decreases 7 - week.len(),
        {
            week.push(None);
        }
        let last = week;
        let ghost before = weeks@;
        weeks.push(last);
        proof {
            assert(last@ =~= weeks_spec(start, days)[before.len() as int]);
            assert forall|w: int| 0 <= w < weeks@.len() implies #[trigger] weeks@[w]@
                == weeks_spec(start, days)[w] by {
                if w < before.len() {
                    assert(weeks@[w] == before[w]);
                }
            }
        }
    }
    proof {
        assert(weeks_view(weeks@) =~= weeks_spec(start, days));
    }
    CalendarMonth { month, year, weeks }
}

/// Month `m` of `year`, laid out as `generate_month` does.
pub open spec fn month_laid_out(c: CalendarMonth, m: u8, year: u32) -> bool {
    &&& c.month == m
    &&& c.year == year
    &&& weeks_view(c.weeks@) == weeks_spec(
        weekday_from_sunday(year as int, m as int, 1),
        month_len(year as int, m as int),
    )
}

/// The months to show: the one asked for, or all twelve in order.
pub fn generate_calendar(date: Date) -> (res: Vec<CalendarMonth>)
    requires
        date.month matches Month::One(m) ==> 1 <= m <= 12 && (date.year < last_year() || (
        date.year == last_year() && m < 12)),
        date.month is All ==> date.year < last_year(),
    ensures
        match date.month {
            Month::One(m) => res@.len() == 1 && month_laid_out(res@[0], m, date.year),
            Month::All => res@.len() == 12 && forall|k: int|
                0 <= k < 12 ==> month_laid_out(#[trigger] res@[k], (k + 1) as u8, date.year),
        },
{
    let mut res: Vec<CalendarMonth> = Vec::new();
    match date.month {
        Month::One(m) => {
            res.push(generate_month(m, date.year));
        },
        Month::All => {
            let mut m: u8 = 1;
            while m <= 12
                invariant
                    1 <= m <= 13,
                    date.year < last_year(),
                    res@.len() == m - 1,
                    forall|k: int|
                        0 <= k < m - 1 ==> month_laid_out(#[trigger] res@[k], (k + 1) as u8, date.year),
                decreases 13 - m,
            {
                res.push(generate_month(m, date.year));
                m += 1;
            }
        },
    }
    res
}

// ------------------------------------------------------------------------
// Layout
// ------------------------------------------------------------------------

/// The visible width of a line: its characters outside escape sequences
/// (`ESC` up to the next `m`), from position `i` on.
pub open spec fn visible_from(s: Seq<char>, i: int, in_esc: bool) -> nat
    decreases s.len() - i,
{
    if i >= s.len() || i < 0 {
        0
    } else if !in_esc && s[i] == '\x1b' {
        visible_from(s, i + 1, true)
    } else if in_esc && s[i] == 'm' {
        visible_from(s, i + 1, false)
    } else if !in_esc {
        1 + visible_from(s, i + 1, false)
    } else {
        visible_from(s, i + 1, true)
    }
}

pub open spec fn visible_len_spec(s: Seq<char>) -> nat {
    visible_from(s, 0, false)
}

proof fn lemma_visible_bound(s: Seq<char>, i: int, e: bool)
    requires
        0 <= i <= s.len(),
    ensures
        visible_from(s, i, e) <= s.len() - i,
    decreases s.len() - i,
{
    if i < s.len() {
        lemma_visible_bound(s, i + 1, true);
        lemma_visible_bound(s, i + 1, false);
    }
}

/// The visible width of `s`, escape sequences not counted.
pub fn visible_len(s: &str) -> (res: usize)
    ensures
        res == visible_len_spec(s@),
{
    let cs = chars_of(s);
    let mut len: usize = 0;
    let mut in_esc = false;
    let mut i: usize = 0;
    proof {
        lemma_visible_bound(cs@, 0, false);
    }
    while i < cs.len()
        invariant
            cs@ == s@,
            i <= cs@.len(),
            len + visible_from(cs@, i as int, in_esc) == visible_len_spec(s@),
            len <= i,
        decreases cs.len() - i,
    {
        let c = cs[i];
        if !in_esc && c == '\x1b' {
            in_esc = true;
        } else if in_esc && c == 'm' {
            in_esc = false;
        } else if !in_esc {
            len += 1;
        }
        i += 1;
    }
    len
}

/// `s` padded with spaces to `width` visible characters.
pub open spec fn pad_to_spec(s: Seq<char>, width: nat) -> Seq<char> {
    if visible_len_spec(s) < width {
        s + repeat_spec(' ', (width - visible_len_spec(s)) as nat)
    } else {
        s
    }
}

/// Pads `s` with spaces to `width` visible characters.
pub fn pad_to(s: &str, width: usize) -> (res: String)
    ensures
        res@ == pad_to_spec(s@, width as nat),
{
    let vlen = visible_len(s);
    let mut r = s.to_owned();
    if vlen < width {
        let sp = repeat_char(' ', width - vlen);
        append_str(&mut r, sp.as_str());
    }
    r
}

/// Whether reading `s[i..]` from state `e` ends inside an escape sequence.
pub open spec fn esc_after(s: Seq<char>, i: int, e: bool) -> bool
    decreases s.len() - i,
{
    if i >= s.len() || i < 0 {
        e
    } else if !e && s[i] == '\x1b' {
        esc_after(s, i + 1, true)
    } else if e && s[i] == 'm' {
        esc_after(s, i + 1, false)
    } else {
        esc_after(s, i + 1, e)
    }
}

/// `s` takes `w` columns on screen and leaves no escape sequence open.
pub open spec fn shows(s: Seq<char>, w: nat) -> bool {
    visible_len_spec(s) == w && !esc_after(s, 0, false)
}

/// `s` holds no escape character.
pub open spec fn plain(s: Seq<char>) -> bool {
    forall|i: int| 0 <= i < s.len() ==> #[trigger] s[i] != '\x1b'
}

/// `s` is one escape sequence: `ESC`, characters other than `m`, and `m`.
pub open spec fn escape_shaped(s: Seq<char>) -> bool {
    &&& s.len() >= 2
    &&& s[0] == '\x1b'
    &&& s.last() == 'm'
    &&& forall|i: int| 0 < i < s.len() - 1 ==> #[trigger] s[i] != 'm'
}

proof fn lemma_visible_shift(a: Seq<char>, b: Seq<char>, j: int, e: bool)
    requires
        0 <= j <= b.len(),
    ensures
        visible_from(a + b, a.len() + j, e) == visible_from(b, j, e),
        esc_after(a + b, a.len() + j, e) == esc_after(b, j, e),
    decreases b.len() - j,
{
    if j < b.len() {
        assert((a + b)[a.len() + j] == b[j]);
        lemma_visible_shift(a, b, j + 1, true);
        lemma_visible_shift(a, b, j + 1, false);
    }
}

proof fn lemma_visible_concat(a: Seq<char>, b: Seq<char>, i: int, e: bool)
    requires
        0 <= i <= a.len(),
    ensures
        visible_from(a + b, i, e) == visible_from(a, i, e) + visible_from(b, 0, esc_after(a, i, e)),
        esc_after(a + b, i, e) == esc_after(b, 0, esc_after(a, i, e)),
    decreases a.len() - i,
{
    if i == a.len() {
        lemma_visible_shift(a, b, 0, e);
    } else {
        assert((a + b)[i] == a[i]);
        lemma_visible_concat(a, b, i + 1, true);
        lemma_visible_concat(a, b, i + 1, false);
    }
}

/// Widths add up when text is put side by side.
proof fn lemma_shows_concat(a: Seq<char>, b: Seq<char>, w1: nat, w2: nat)
    requires
        shows(a, w1),
        shows(b, w2),
    ensures
        shows(a + b, w1 + w2),
{
    lemma_visible_concat(a, b, 0, false);
}

/// Text without escapes takes one column per character.
proof fn lemma_plain_shows(s: Seq<char>)
    requires
        plain(s),
    ensures
        shows(s, s.len()),
{
    lemma_plain_from(s, 0);
}

proof fn lemma_plain_from(s: Seq<char>, i: int)
    requires
        plain(s),
        0 <= i <= s.len(),
    ensures
        visible_from(s, i, false) == s.len() - i,
        !esc_after(s, i, false),
    decreases s.len() - i,
{
    if i < s.len() {
        assert(s[i] != '\x1b');
        lemma_plain_from(s, i + 1);
    }
}

proof fn lemma_escape_from(s: Seq<char>, i: int)
    requires
        escape_shaped(s),
        1 <= i < s.len(),
    ensures
        visible_from(s, i, true) == 0,
        !esc_after(s, i, true),
    decreases s.len() - i,
{
    if i < s.len() - 1 {
        assert(s[i] != 'm');
        lemma_escape_from(s, i + 1);
    } else {
        assert(s[i] == 'm');
        assert(visible_from(s, i + 1, false) == 0);
        assert(!esc_after(s, i + 1, false));
    }
}

/// An escape sequence takes no columns.
proof fn lemma_escape_shows(s: Seq<char>)
    requires
        escape_shaped(s),
    ensures
        shows(s, 0),
{
    lemma_escape_from(s, 1);
}

/// Plain text styled with an opening escape takes the text's columns.
proof fn lemma_styled_shows(res: Seq<char>, open: Seq<char>, text: Seq<char>)
    requires
        styled_as(res, open + text),
        escape_shaped(open),
        plain(text),
    ensures
        shows(res, text.len()),
{
    reveal_strlit("\x1b[0;");
    let p = open + text;
    let r = res.subrange(p.len() as int, res.len() as int);
    assert(res =~= open + text + r);
    assert(escape_shaped(r)) by {
        assert(r[0] == r.subrange(0, 4)[0]);
        assert(r[1] == r.subrange(0, 4)[1]);
        assert(r[2] == r.subrange(0, 4)[2]);
        assert(r[3] == r.subrange(0, 4)[3]);
    }
    lemma_escape_shows(open);
    lemma_plain_shows(text);
    lemma_escape_shows(r);
    lemma_shows_concat(open, text, 0, text.len());
    lemma_shows_concat(open + text, r, text.len(), 0);
}

/// The opening escapes of the calendar's styles are escape sequences.
proof fn lemma_opens_shaped()
    ensures
        escape_shaped("\x1b[93;1m"@),
        escape_shaped("\x1b[91;1m"@),
        escape_shaped("\x1b[36;1m"@),
        escape_shaped("\x1b[34;1m"@),
        escape_shaped("\x1b[96;1m"@),
        escape_shaped("\x1b[91m"@),
{
    reveal_strlit("\x1b[93;1m");
    reveal_strlit("\x1b[91;1m");
    reveal_strlit("\x1b[36;1m");
    reveal_strlit("\x1b[34;1m");
    reveal_strlit("\x1b[96;1m");
    reveal_strlit("\x1b[91m");
}

/// An escape that sets the colours back to the process-wide ones:
/// `ESC[0;`, then the foreground and background codes as decimal numbers
/// with a `;` between them, then `m`.
pub open spec fn sgr_reset(r: Seq<char>) -> bool {
    &&& r.len() >= 5
    &&& r.subrange(0, 4) == "\x1b[0;"@
    &&& r.last() == 'm'
    &&& forall|i: int|
        4 <= i < r.len() - 1 ==> ('0' <= #[trigger] r[i] <= '9' || r[i] == ';' || r[i] == '-')
}

/// `s` begins with `p`.
pub open spec fn starts_with(s: Seq<char>, p: Seq<char>) -> bool {
    s.len() >= p.len() && s.subrange(0, p.len() as int) == p
}

/// `res` is `p` followed by an escape that sets the colours back.
pub open spec fn styled_as(res: Seq<char>, p: Seq<char>) -> bool {
    starts_with(res, p) && sgr_reset(res.subrange(p.len() as int, res.len() as int))
}

/// Whether `res` is `text` styled with the attribute `code` the way the
/// colour library builds it: a text already starting with an escape gets
/// the code added to that escape; another text gets an escape with the
/// code in front and an escape back to the process-wide colours behind.
pub open spec fn packed(code: Seq<char>, text: Seq<char>, res: Seq<char>) -> bool {
    if text.len() >= 2 && text[0] == '\x1b' && text[1] == '[' {
        res == "\x1b["@ + code + ";"@ + text.subrange(2, text.len() as int)
    } else {
        styled_as(res, "\x1b["@ + code + "m"@ + text)
    }
}

/// Bold text.
/// Trusted: wraps colorize's `AnsiColor::bold`, which writes the attribute
/// code 1 as `packed` says.
#[verifier::external_body]
fn ansi_bold(s: String) -> (res: String)
    ensures
        packed("1"@, s@, res@),
{
    s.bold()
}

/// Bright yellow text.
/// Trusted: wraps colorize's `AnsiColor::b_yellow` (code 93), as `packed`
/// says.
#[verifier::external_body]
fn ansi_bright_yellow(s: String) -> (res: String)
    ensures
        packed("93"@, s@, res@),
{
    s.b_yellow()
}

/// Bright red text.
/// Trusted: wraps colorize's `AnsiColor::b_red` (code 91), as `packed`
/// says.
#[verifier::external_body]
fn ansi_bright_red(s: String) -> (res: String)
    ensures
        packed("91"@, s@, res@),
{
    s.b_red()
}

/// Cyan text.
/// Trusted: wraps colorize's `AnsiColor::cyan` (code 36), as `packed` says.
#[verifier::external_body]
fn ansi_cyan(s: String) -> (res: String)
    ensures
        packed("36"@, s@, res@),
{
    s.cyan()
}

/// Blue text.
/// Trusted: wraps colorize's `AnsiColor::blue` (code 34), as `packed` says.
#[verifier::external_body]
fn ansi_blue(s: String) -> (res: String)
    ensures
        packed("34"@, s@, res@),
{
    s.blue()
}

/// Bright cyan text.
/// Trusted: wraps colorize's `AnsiColor::b_cyan` (code 96), as `packed`
/// says.
#[verifier::external_body]
fn ansi_bright_cyan(s: String) -> (res: String)
    ensures
        packed("96"@, s@, res@),
{
    s.b_cyan()
}

/// A month title: bold bright yellow.
fn style_title(plain: &str) -> (res: String)
    ensures
        plain@.len() == 0 || plain@[0] != '\x1b' ==> styled_as(res@, "\x1b[93;1m"@ + plain@),
{
    let b = ansi_bold(plain.to_owned());
    let r = ansi_bright_yellow(b);
    proof {
        if plain@.len() == 0 || plain@[0] != '\x1b' {
            reveal_strlit("\x1b[");
            reveal_strlit("93");
            reveal_strlit(";1m");
            reveal_strlit("\x1b[93;1m");
            lemma_bold_then("93"@, plain@, b@, r@);
            assert("\x1b["@ + "93"@ + ";1m"@ + plain@ =~= "\x1b[93;1m"@ + plain@);
        }
    }
    r
}

/// Plain text (not starting with an escape) made bold and then given the
/// attribute `code` starts with one escape holding both codes, then the
/// text.
proof fn lemma_bold_then(code: Seq<char>, s: Seq<char>, b: Seq<char>, r: Seq<char>)
    requires
        s.len() == 0 || s[0] != '\x1b',
        packed("1"@, s, b),
        packed(code, b, r),
    ensures
        styled_as(r, "\x1b["@ + code + ";1m"@ + s),
{
    reveal_strlit("\x1b[");
    reveal_strlit("1");
    reveal_strlit("m");
    reveal_strlit(";");
    reveal_strlit(";1m");
    let p = "\x1b["@ + "1"@ + "m"@ + s;
    assert(!(s.len() >= 2 && s[0] == '\x1b' && s[1] == '['));
    assert(b.len() >= p.len());
    assert(b[0] == b.subrange(0, p.len() as int)[0]);
    assert(b[1] == b.subrange(0, p.len() as int)[1]);
    assert(r == "\x1b["@ + code + ";"@ + b.subrange(2, b.len() as int));
    let t = "\x1b["@ + code + ";1m"@ + s;
    let cl = code.len() as int;
    assert forall|k: int| 0 <= k < t.len() implies r[k] == t[k] by {
        if k >= 3 + cl {
            assert(r[k] == b[k - cl - 1]);
            assert(b[k - cl - 1] == b.subrange(0, p.len() as int)[k - cl - 1]);
        }
    }
    assert(r.subrange(0, t.len() as int) =~= t);
    assert(r.subrange(t.len() as int, r.len() as int) =~= b.subrange(p.len() as int, b.len() as int)) by {
        assert forall|k: int| 0 <= k < r.len() - t.len() implies #[trigger] r.subrange(
            t.len() as int,
            r.len() as int,
        )[k] == b.subrange(p.len() as int, b.len() as int)[k] by {
            assert(r[t.len() + k] == b[t.len() + k - cl - 1]);
        }
    }
}

/// Plain text (not starting with an escape) given the attribute `code`
/// is the escape for it, the text, and an escape back.
proof fn lemma_styled(code: Seq<char>, s: Seq<char>, r: Seq<char>)
    requires
        s.len() == 0 || s[0] != '\x1b',
        packed(code, s, r),
    ensures
        styled_as(r, "\x1b["@ + code + "m"@ + s),
{
}

/// The day names over the columns of a month.
pub open spec fn day_labels() -> Seq<Seq<char>> {
    seq!["Su"@, "Mo"@, "Tu"@, "We"@, "Th"@, "Fr"@, "Sa"@]
}

/// The opening escape of the header cell over column `col`: weekend
/// columns bold bright red, the others bold cyan.
pub open spec fn header_open(col: int) -> Seq<char> {
    if col == 0 || col == 6 {
        "\x1b[91;1m"@
    } else {
        "\x1b[36;1m"@
    }
}

/// The header cell over column `col` up to its closing escape.
pub open spec fn header_cell_start(col: int) -> Seq<char> {
    header_open(col) + day_labels()[col]
}

/// A column header: weekend columns (Sunday, Saturday) bold bright red,
/// the others bold cyan; a label without escapes keeps its width.
fn style_header_cell(label: &str, col: usize) -> (res: String)
    requires
        label@.len() == 0 || label@[0] != '\x1b',
    ensures
        styled_as(res@, header_open(col as int) + label@),
        plain(label@) ==> shows(res@, label@.len()),
{
    proof {
        reveal_strlit("\x1b[");
        reveal_strlit(";1m");
        reveal_strlit("91");
        reveal_strlit("36");
        reveal_strlit("\x1b[91;1m");
        reveal_strlit("\x1b[36;1m");
        lemma_opens_shaped();
    }
    let b = ansi_bold(label.to_owned());
    if col == 0 || col == 6 {
        let r = ansi_bright_red(b);
        proof {
            lemma_bold_then("91"@, label@, b@, r@);
            assert("\x1b["@ + "91"@ + ";1m"@ + label@ =~= "\x1b[91;1m"@ + label@);
            if plain(label@) {
                lemma_styled_shows(r@, "\x1b[91;1m"@, label@);
            }
        }
        r
    } else {
        let r = ansi_cyan(b);
        proof {
            lemma_bold_then("36"@, label@, b@, r@);
            assert("\x1b["@ + "36"@ + ";1m"@ + label@ =~= "\x1b[36;1m"@ + label@);
            if plain(label@) {
                lemma_styled_shows(r@, "\x1b[36;1m"@, label@);
            }
        }
        r
    }
}

/// A weekend day: bright red.
fn style_weekend(s: &str) -> (res: String)
    requires
        s@.len() == 0 || s@[0] != '\x1b',
    ensures
        styled_as(res@, "\x1b[91m"@ + s@),
{
    let r = ansi_bright_red(s.to_owned());
    proof {
        reveal_strlit("\x1b[");
        reveal_strlit("91");
        reveal_strlit("m");
        reveal_strlit("\x1b[91m");
        lemma_styled("91"@, s@, r@);
        assert("\x1b["@ + "91"@ + "m"@ + s@ =~= "\x1b[91m"@ + s@);
    }
    r
}

/// Today: bold blue.
fn style_today(s: &str) -> (res: String)
    requires
        s@.len() == 0 || s@[0] != '\x1b',
    ensures
        styled_as(res@, "\x1b[34;1m"@ + s@),
{
    let b = ansi_bold(s.to_owned());
    let r = ansi_blue(b);
    proof {
        reveal_strlit("\x1b[");
        reveal_strlit("34");
        reveal_strlit(";1m");
        reveal_strlit("\x1b[34;1m");
        lemma_bold_then("34"@, s@, b@, r@);
        assert("\x1b["@ + "34"@ + ";1m"@ + s@ =~= "\x1b[34;1m"@ + s@);
    }
    r
}

/// The year banner: bold bright cyan.
fn style_year_banner(plain: &str) -> (res: String)
    requires
        plain@.len() == 0 || plain@[0] != '\x1b',
    ensures
        styled_as(res@, "\x1b[96;1m"@ + plain@),
{
    let b = ansi_bold(plain.to_owned());
    let r = ansi_bright_cyan(b);
    proof {
        reveal_strlit("\x1b[");
        reveal_strlit("96");
        reveal_strlit(";1m");
        reveal_strlit("\x1b[96;1m");
        lemma_bold_then("96"@, plain@, b@, r@);
        assert("\x1b["@ + "96"@ + ";1m"@ + plain@ =~= "\x1b[96;1m"@ + plain@);
    }
    r
}

/// The decimal text of a number starts with a digit.
proof fn lemma_digits_start(n: nat)
    ensures
        nat_digits(n).len() >= 1,
        '0' <= nat_digits(n)[0] <= '9',
    decreases n,
{
    if n >= 10 {
        lemma_digits_start(n / 10);
        assert(nat_digits(n)[0] == nat_digits(n / 10)[0]);
    }
}

/// The English name of month `m` (1 to 12).
pub open spec fn month_name_spec(m: u8) -> Seq<char> {
    if m == 1 {
        "January"@
    } else if m == 2 {
        "February"@
    } else if m == 3 {
        "March"@
    } else if m == 4 {
        "April"@
    } else if m == 5 {
        "May"@
    } else if m == 6 {
        "June"@
    } else if m == 7 {
        "July"@
    } else if m == 8 {
        "August"@
    } else if m == 9 {
        "September"@
    } else if m == 10 {
        "October"@
    } else if m == 11 {
        "November"@
    } else {
        "December"@
    }
}

/// The name of month `m` (1 to 12).
pub fn month_name(m: u8) -> (res: &'static str)
    requires
        1 <= m <= 12,
    ensures
        res@ == month_name_spec(m),
{
    if m == 1 {
        "January"
    } else if m == 2 {
        "February"
    } else if m == 3 {
        "March"
    } else if m == 4 {
        "April"
    } else if m == 5 {
        "May"
    } else if m == 6 {
        "June"
    } else if m == 7 {
        "July"
    } else if m == 8 {
        "August"
    } else if m == 9 {
        "September"
    } else if m == 10 {
        "October"
    } else if m == 11 {
        "November"
    } else {
        "December"
    }
}

/// The width of a month column, that of `Su Mo Tu We Th Fr Sa`.
pub const COL_WIDTH: usize = 20;

/// The text of day `n` in its two columns.
pub open spec fn day_text(n: u8) -> Seq<char> {
    pad_left_spec(nat_digits(n as nat), 2)
}

/// Whether `today` is day `n` of `month` of `year`.
pub open spec fn is_today(today: Option<(u32, u8, u8)>, year: u32, month: u8, n: u8) -> bool {
    match today {
        Some((ty, tm, td)) => ty == year && tm == month && n == td,
        None => false,
    }
}

/// The cell of column `col` of a week row for the day slot `slot`: blank
/// for no day; for a day, its text, bold blue when it is today, else
/// bright red in the weekend columns, a coloured text followed by the
/// escape back to the process-wide colours.
pub open spec fn cell_ok(
    cell: Seq<char>,
    slot: Option<u8>,
    col: int,
    year: u32,
    month: u8,
    today: Option<(u32, u8, u8)>,
) -> bool {
    match slot {
        None => cell == "  "@,
        Some(n) => if is_today(today, year, month, n) {
            styled_as(cell, "\x1b[34;1m"@ + day_text(n))
        } else if col == 0 || col == 6 {
            styled_as(cell, "\x1b[91m"@ + day_text(n))
        } else {
            cell == day_text(n)
        },
    }
}

/// A week row: one cell per day slot, joined by spaces.
pub open spec fn row_ok(
    row: Seq<char>,
    week: Seq<Option<u8>>,
    year: u32,
    month: u8,
    today: Option<(u32, u8, u8)>,
) -> bool {
    exists|cells: Seq<Seq<char>>|
        #![trigger join_spec(cells, " "@)]
        cells.len() == week.len() && (forall|c: int|
            0 <= c < week.len() ==> cell_ok(#[trigger] cells[c], week[c], c, year, month, today))
            && row == join_spec(cells, " "@)
}

/// The header line: the seven day names, styled, joined by spaces.
pub open spec fn header_ok(line: Seq<char>) -> bool {
    exists|cells: Seq<Seq<char>>|
        #![trigger join_spec(cells, " "@)]
        cells.len() == 7 && (forall|c: int|
            0 <= c < 7 ==> styled_as(#[trigger] cells[c], header_cell_start(c))) && line
            == join_spec(cells, " "@)
}

/// The first character of a day's text is a space or a digit.
proof fn lemma_day_text_plain(n: u8)
    ensures
        day_text(n).len() >= 1,
        day_text(n)[0] != '\x1b',
{
    reveal_with_fuel(nat_digits, 3);
    let d = nat_digits(n as nat);
    if n < 10 {
        assert(d[0] == crate::text::digit_char(n as int));
    } else if n < 100 {
        assert(d[0] == crate::text::digit_char((n / 10) as int));
    } else {
        assert(nat_digits((n / 10) as nat)[0] == crate::text::digit_char((n / 100) as int));
        assert(d[0] == nat_digits((n / 10) as nat)[0]);
    }
    if d.len() < 2 {
        assert(day_text(n)[0] == ' ');
    } else {
        assert(day_text(n)[0] == d[0]);
    }
}

/// One week row: days right-aligned in two columns, separated by spaces;
/// today bold blue, weekend days bright red, empty days blank.
fn week_row(week: &Vec<Option<u8>>, cal_year: u32, cal_month: u8, today: Option<(u32, u8, u8)>) -> (res:
    String)
    ensures
        row_ok(res@, week@, cal_year, cal_month, today),
{
    let mut cells: Vec<String> = Vec::new();
    let mut col: usize = 0;
    while col < week.len()
        invariant
            col <= week@.len(),
            cells@.len() == col,
            forall|c: int|
                0 <= c < col ==> cell_ok(
                    #[trigger] cells@[c]@,
                    week@[c],
                    c,
                    cal_year,
                    cal_month,
                    today,
                ),
        decreases week.len() - col,
    {
        let cell = match week[col] {
            None => {
                proof {
                    reveal_strlit("  ");
                }
                String::from_str("  ")
            },
            Some(n) => {
                let s = pad_left(u64_to_string(n as u64).as_str(), 2);
                proof {
                    lemma_day_text_plain(n);
                }
                let is_today = match today {
                    Some((ty, tm, td)) => ty == cal_year && tm == cal_month && n == td,
                    None => false,
                };
                let is_weekend = col == 0 || col == 6;
                if is_today {
                    style_today(s.as_str())
                } else if is_weekend {
                    style_weekend(s.as_str())
                } else {
                    s
                }
            },
        };
        cells.push(cell);
        col += 1;
    }
    let res = crate::text::join(&cells, " ");
    proof {
        let cs = crate::text::strings_view(cells@);
        assert forall|c: int| 0 <= c < week@.len() implies cell_ok(
            #[trigger] cs[c],
            week@[c],
            c,
            cal_year,
            cal_month,
            today,
        ) by {
            assert(cs[c] == cells@[c]@);
        }
        assert(res@ == join_spec(cs, " "@));
    }
    res
}

/// The name over column `col` (0 to 6, Sunday first).
fn day_label(col: usize) -> (res: &'static str)
    requires
        col < 7,
    ensures
        res@ == day_labels()[col as int],
{
    if col == 0 {
        "Su"
    } else if col == 1 {
        "Mo"
    } else if col == 2 {
        "Tu"
    } else if col == 3 {
        "We"
    } else if col == 4 {
        "Th"
    } else if col == 5 {
        "Fr"
    } else {
        "Sa"
    }
}

/// The lines of one month: its title centred over the columns in bold
/// bright yellow, the day names, one line per week, and blank lines up to
/// eight in all.
pub open spec fn month_lines_shape(ls: Seq<Seq<char>>, cal: CalendarMonth, today: Option<(u32, u8, u8)>) -> bool {
    &&& ls.len() == if cal.weeks@.len() + 2 < 8 {
        8
    } else {
        cal.weeks@.len() + 2
    }
    &&& forall|k: int| cal.weeks@.len() + 2 <= k < ls.len() ==> #[trigger] ls[k] == repeat_spec(
        ' ',
        COL_WIDTH as nat,
    )
    &&& styled_as(ls[0], "\x1b[93;1m"@ + center_spec(month_name_spec(cal.month), COL_WIDTH as nat))
    &&& header_ok(ls[1])
    &&& forall|k: int|
        0 <= k < cal.weeks@.len() ==> row_ok(
            ls[k + 2],
            #[trigger] cal.weeks@[k]@,
            cal.year,
            cal.month,
            today,
        )
}

/// Every week has seven slots and every day number at most two digits.
pub open spec fn weeks_fit(cal: CalendarMonth) -> bool {
    forall|k: int|
        0 <= k < cal.weeks@.len() ==> (#[trigger] cal.weeks@[k]@).len() == 7 && forall|c: int|
            0 <= c < 7 ==> (#[trigger] cal.weeks@[k]@[c] matches Some(n) ==> n < 100)
}

/// The lines of one month laid out as `month_lines_shape` says; where the
/// weeks fit, each line takes exactly the width of a column on screen.
pub open spec fn month_lines_ok(ls: Seq<Seq<char>>, cal: CalendarMonth, today: Option<(u32, u8, u8)>) -> bool {
    &&& month_lines_shape(ls, cal, today)
    &&& weeks_fit(cal) ==> forall|k: int| 0 <= k < ls.len() ==> shows(#[trigger] ls[k], COL_WIDTH as nat)
}

/// A day's text is two plain characters.
proof fn lemma_day_text_shows(n: u8)
    requires
        n < 100,
    ensures
        plain(day_text(n)),
        day_text(n).len() == 2,
{
    reveal_with_fuel(nat_digits, 3);
    let d = nat_digits(n as nat);
    if n < 10 {
        assert(d.len() == 1);
        assert(day_text(n) =~= seq![' ', d[0]]);
    } else {
        assert(d.len() == 2);
        assert(day_text(n) == d);
    }
}

/// A cell of a week row takes two columns.
proof fn lemma_cell_shows(
    cell: Seq<char>,
    slot: Option<u8>,
    col: int,
    year: u32,
    month: u8,
    today: Option<(u32, u8, u8)>,
)
    requires
        cell_ok(cell, slot, col, year, month, today),
        slot matches Some(n) ==> n < 100,
    ensures
        shows(cell, 2),
{
    lemma_opens_shaped();
    match slot {
        None => {
            reveal_strlit("  ");
            lemma_plain_shows(cell);
        },
        Some(n) => {
            lemma_day_text_shows(n);
            if is_today(today, year, month, n) {
                lemma_styled_shows(cell, "\x1b[34;1m"@, day_text(n));
            } else if col == 0 || col == 6 {
                lemma_styled_shows(cell, "\x1b[91m"@, day_text(n));
            } else {
                lemma_plain_shows(cell);
            }
        },
    }
}

/// Two-column cells joined by single spaces take three columns each, but
/// for the last, which takes two.
proof fn lemma_join_shows(cells: Seq<Seq<char>>)
    requires
        cells.len() >= 1,
        forall|c: int| 0 <= c < cells.len() ==> shows(#[trigger] cells[c], 2),
    ensures
        shows(join_spec(cells, " "@), (3 * cells.len() - 1) as nat),
    decreases cells.len(),
{
    if cells.len() > 1 {
        let init = cells.drop_last();
        assert forall|c: int| 0 <= c < init.len() implies shows(#[trigger] init[c], 2) by {
            assert(init[c] == cells[c]);
        }
        lemma_join_shows(init);
        reveal_strlit(" ");
        lemma_plain_shows(" "@);
        lemma_shows_concat(join_spec(init, " "@), " "@, (3 * init.len() - 1) as nat, 1);
        lemma_shows_concat(join_spec(init, " "@) + " "@, cells.last(), (3 * init.len()) as nat, 2);
    }
}

/// Where the weeks fit, every line of a month takes one column's width.
proof fn lemma_month_widths(ls: Seq<Seq<char>>, cal: CalendarMonth, today: Option<(u32, u8, u8)>)
    requires
        1 <= cal.month <= 12,
        month_lines_shape(ls, cal, today),
    ensures
        month_lines_ok(ls, cal, today),
{
    if weeks_fit(cal) {
        lemma_opens_shaped();
        reveal_strlit("January");
        reveal_strlit("February");
        reveal_strlit("March");
        reveal_strlit("April");
        reveal_strlit("May");
        reveal_strlit("June");
        reveal_strlit("July");
        reveal_strlit("August");
        reveal_strlit("September");
        reveal_strlit("October");
        reveal_strlit("November");
        reveal_strlit("December");
        let name = month_name_spec(cal.month);
        assert(plain(name));
        assert(name.len() <= 9);
        let title = center_spec(name, COL_WIDTH as nat);
        assert(plain(title));
        lemma_styled_shows(ls[0], "\x1b[93;1m"@, title);
        let hcells = choose|cells: Seq<Seq<char>>|
            #![trigger join_spec(cells, " "@)]
            cells.len() == 7 && (forall|c: int|
                0 <= c < 7 ==> styled_as(#[trigger] cells[c], header_cell_start(c))) && ls[1]
                == join_spec(cells, " "@);
        assert forall|c: int| 0 <= c < hcells.len() implies shows(#[trigger] hcells[c], 2) by {
            reveal_strlit("Su");
            reveal_strlit("Mo");
            reveal_strlit("Tu");
            reveal_strlit("We");
            reveal_strlit("Th");
            reveal_strlit("Fr");
            reveal_strlit("Sa");
            let label = day_labels()[c];
            assert(plain(label) && label.len() == 2);
            if c == 0 || c == 6 {
                lemma_styled_shows(hcells[c], "\x1b[91;1m"@, label);
            } else {
                lemma_styled_shows(hcells[c], "\x1b[36;1m"@, label);
            }
        }
        lemma_join_shows(hcells);
        assert forall|k: int| 0 <= k < ls.len() implies shows(#[trigger] ls[k], COL_WIDTH as nat) by {
            if k == 0 {
            } else if k == 1 {
            } else if k < cal.weeks@.len() + 2 {
                let week = cal.weeks@[k - 2]@;
                assert(row_ok(ls[k], week, cal.year, cal.month, today));
                let cells = choose|cells: Seq<Seq<char>>|
                    #![trigger join_spec(cells, " "@)]
                    cells.len() == week.len() && (forall|c: int|
                        0 <= c < week.len() ==> cell_ok(
                            #[trigger] cells[c],
                            week[c],
                            c,
                            cal.year,
                            cal.month,
                            today,
                        )) && ls[k] == join_spec(cells, " "@);
                assert(week.len() == 7);
                assert forall|c: int| 0 <= c < cells.len() implies shows(#[trigger] cells[c], 2) by {
                    assert(cal.weeks@[k - 2]@[c] matches Some(n) ==> n < 100);
                    lemma_cell_shows(cells[c], week[c], c, cal.year, cal.month, today);
                }
                lemma_join_shows(cells);
            } else {
                lemma_plain_shows(ls[k]);
            }
        }
    }
}

/// The lines of one month: its title centred over the columns, the day
/// names, one line per week, and blank lines up to eight in all.
pub fn month_lines(cal: &CalendarMonth, today: Option<(u32, u8, u8)>) -> (res: Vec<String>)
    requires
        1 <= cal.month <= 12,
    ensures
        month_lines_ok(crate::text::strings_view(res@), *cal, today),
{
    let title_plain = month_name(cal.month);
    let title = center(title_plain, COL_WIDTH);
    proof {
        reveal_strlit("January");
        reveal_strlit("February");
        reveal_strlit("March");
        reveal_strlit("April");
        reveal_strlit("May");
        reveal_strlit("June");
        reveal_strlit("July");
        reveal_strlit("August");
        reveal_strlit("September");
        reveal_strlit("October");
        reveal_strlit("November");
        reveal_strlit("December");
        let name = month_name_spec(cal.month);
        assert(name.len() <= 9);
        let pad = (COL_WIDTH - name.len()) as nat;
        assert(title@ == repeat_spec(' ', pad / 2) + name + repeat_spec(' ', (pad - pad / 2) as nat));
        assert(title@[0] == ' ');
        assert(title@.len() == COL_WIDTH);
    }
    let title_line = style_title(title.as_str());
    let ghost tl = title_line@;
    let mut cells: Vec<String> = Vec::new();
    let mut col: usize = 0;
    while col < 7
        invariant
            col <= 7,
            cells@.len() == col,
            forall|c: int| 0 <= c < col ==> styled_as(#[trigger] cells@[c]@, header_cell_start(c)),
        decreases 7 - col,
    {
        let label = day_label(col);
        proof {
            reveal_strlit("Su");
            reveal_strlit("Mo");
            reveal_strlit("Tu");
            reveal_strlit("We");
            reveal_strlit("Th");
            reveal_strlit("Fr");
            reveal_strlit("Sa");
            assert(label@[0] != '\x1b');
        }
        cells.push(style_header_cell(label, col));
        col += 1;
    }
    let header_line = crate::text::join(&cells, " ");
    proof {
        let cs = crate::text::strings_view(cells@);
        assert forall|c: int| 0 <= c < 7 implies styled_as(#[trigger] cs[c], header_cell_start(c)) by {
            assert(cs[c] == cells@[c]@);
        }
        assert(header_line@ == join_spec(cs, " "@));
    }
    let ghost hl = header_line@;
    let mut lines: Vec<String> = Vec::new();
    lines.push(title_line);
    lines.push(header_line);
    let mut w: usize = 0;
    while w < cal.weeks.len()
        invariant
            w <= cal.weeks@.len(),
            lines@.len() == w + 2,
            lines@[0]@ == tl,
            lines@[1]@ == hl,
            forall|k: int|
                0 <= k < w ==> row_ok(
                    lines@[k + 2]@,
                    #[trigger] cal.weeks@[k]@,
                    cal.year,
                    cal.month,
                    today,
                ),
        decreases cal.weeks.len() - w,
    {
        let row = week_row(&cal.weeks[w], cal.year, cal.month, today);
        let ghost before = lines@;
        lines.push(row);
        proof {
            assert forall|k: int| 0 <= k < w + 1 implies row_ok(
                lines@[k + 2]@,
                #[trigger] cal.weeks@[k]@,
                cal.year,
                cal.month,
                today,
            ) by {
                if k < w {
                    assert(lines@[k + 2] == before[k + 2]);
                }
            }
        }
        w += 1;
    }
    while lines.len() < 8
        invariant
            lines@.len() >= cal.weeks@.len() + 2,
            lines@.len() <= 8 || lines@.len() == cal.weeks@.len() + 2,
            forall|k: int| cal.weeks@.len() + 2 <= k < lines@.len() ==> #[trigger] lines@[k]@
                == repeat_spec(' ', COL_WIDTH as nat),
            lines@[0]@ == tl,
            lines@[1]@ == hl,
            forall|k: int|
                0 <= k < cal.weeks@.len() ==> row_ok(
                    lines@[k + 2]@,
                    #[trigger] cal.weeks@[k]@,
                    cal.year,
                    cal.month,
                    today,
                ),
        decreases 8 - lines.len(),
    {
        let ghost before = lines@;
        lines.push(repeat_char(' ', COL_WIDTH));
        proof {
            assert forall|k: int| 0 <= k < cal.weeks@.len() implies row_ok(
                lines@[k + 2]@,
                #[trigger] cal.weeks@[k]@,
                cal.year,
                cal.month,
                today,
            ) by {
                assert(lines@[k + 2] == before[k + 2]);
            }
        }
    }
    proof {
        let ls = crate::text::strings_view(lines@);
        assert forall|k: int| cal.weeks@.len() + 2 <= k < ls.len() implies #[trigger] ls[k]
            == repeat_spec(' ', COL_WIDTH as nat) by {
            assert(ls[k] == lines@[k]@);
        }
        assert forall|k: int| 0 <= k < cal.weeks@.len() implies row_ok(
            ls[k + 2],
            #[trigger] cal.weeks@[k]@,
            cal.year,
            cal.month,
            today,
        ) by {
            assert(ls[k + 2] == lines@[k + 2]@);
        }
        assert(ls[0] == tl);
        assert(ls[1] == hl);
        lemma_month_widths(ls, *cal, today);
    }
    lines
}

/// One month, its lines joined.
pub fn render_month(cal: &CalendarMonth, today: Option<(u32, u8, u8)>) -> (res: String)
    requires
        1 <= cal.month <= 12,
    ensures
        exists|ls: Seq<Seq<char>>|
            #![trigger join_spec(ls, "\n"@)]
            month_lines_ok(ls, *cal, today) && res@ == join_spec(ls, "\n"@),
{
    let lines = month_lines(cal, today);
    let res = crate::text::join(&lines, "\n");
    assert(res@ == join_spec(crate::text::strings_view(lines@), "\n"@));
    res
}

/// `s` without trailing whitespace.
pub open spec fn trim_end_spec(s: Seq<char>) -> Seq<char>
    decreases s.len(),
{
    if s.len() > 0 && unicode_whitespace(s.last()) {
        trim_end_spec(s.drop_last())
    } else {
        s
    }
}

/// `s` without trailing whitespace.
pub fn trim_end(s: &str) -> (res: String)
    ensures
        res@ == trim_end_spec(s@),
{
    let cs = chars_of(s);
    let mut n = cs.len();
    assert(cs@.subrange(0, n as int) =~= cs@);
    while n > 0 && is_whitespace(cs[n - 1])
        invariant
            cs@ == s@,
            n <= cs@.len(),
            trim_end_spec(s@) == trim_end_spec(cs@.subrange(0, n as int)),
        decreases n,
    {
        assert(cs@.subrange(0, n as int).drop_last() =~= cs@.subrange(0, n - 1));
        n -= 1;
    }
    crate::text::string_of(cs.as_slice(), 0, n)
}

/// Line `i` of months set side by side: each month's line `i` (empty past
/// its last) padded to the column width, the columns joined by two spaces,
/// trailing whitespace trimmed.
pub open spec fn side_by_side(ms: Seq<Seq<Seq<char>>>, i: int) -> Seq<char> {
    trim_end_spec(
        join_spec(
            Seq::new(
                ms.len(),
                |r: int|
                    pad_to_spec(
                        if i < ms[r].len() {
                            ms[r][i]
                        } else {
                            Seq::empty()
                        },
                        COL_WIDTH as nat,
                    ),
            ),
            "  "@,
        ),
    )
}

/// The most lines any of `ms` has.
pub open spec fn most_lines(ms: Seq<Seq<Seq<char>>>) -> nat
    decreases ms.len(),
{
    if ms.len() == 0 {
        0
    } else if ms.last().len() > most_lines(ms.drop_last()) {
        ms.last().len()
    } else {
        most_lines(ms.drop_last())
    }
}

/// The first `n` lines of months set side by side, each ended by a line
/// break.
pub open spec fn block_lines(ms: Seq<Seq<Seq<char>>>, n: nat) -> Seq<char>
    decreases n,
{
    if n == 0 {
        Seq::empty()
    } else {
        block_lines(ms, (n - 1) as nat) + side_by_side(ms, n - 1) + "\n"@
    }
}

/// Months in rows of three (the last row holding what is left): each row
/// all its lines, then a blank line.
pub open spec fn year_body(mls: Seq<Seq<Seq<char>>>) -> Seq<char>
    decreases mls.len(),
{
    if mls.len() == 0 {
        Seq::empty()
    } else {
        let s = ((mls.len() - 1) / 3) * 3;
        let row = mls.subrange(s, mls.len() as int);
        year_body(mls.subrange(0, s)) + block_lines(row, most_lines(row)) + "\n"@
    }
}

/// All months of a year in rows of three, under a banner with the year,
/// each row of lines trimmed at the end.
pub fn render_year(cals: &Vec<CalendarMonth>, today: Option<(u32, u8, u8)>) -> (res: String)
    requires
        cals@.len() >= 1,
        forall|k: int| 0 <= k < cals@.len() ==> 1 <= #[trigger] cals@[k].month <= 12,
    ensures
        exists|mls: Seq<Seq<Seq<char>>>, banner: Seq<char>|
            #![trigger year_body(mls), styled_as(banner, "\x1b[96;1m"@ + center_spec(nat_digits(cals@[0].year as nat), 64))]
            {
                &&& mls.len() == cals@.len()
                &&& forall|k: int|
                    0 <= k < cals@.len() ==> month_lines_ok(#[trigger] mls[k], cals@[k], today)
                &&& styled_as(
                    banner,
                    "\x1b[96;1m"@ + center_spec(nat_digits(cals@[0].year as nat), 64),
                )
                &&& res@ == banner + "\n\n"@ + year_body(mls)
            },
{
    let banner_plain = center(u64_to_string(cals[0].year as u64).as_str(), 64);
    proof {
        let d = nat_digits(cals@[0].year as nat);
        lemma_digits_start(cals@[0].year as nat);
        if d.len() < 64 && (64 - d.len()) / 2 >= 1 {
            assert(banner_plain@[0] == ' ');
        } else if d.len() < 64 {
            assert(banner_plain@[0] == d[0]);
        }
    }
    let mut out = style_year_banner(banner_plain.as_str());
    let ghost banner = out@;
    append_str(&mut out, "\n\n");
    let ghost head = out@;
    let ghost mut mls: Seq<Seq<Seq<char>>> = Seq::empty();
    let ghost mut c: int = 0;
    let mut start: usize = 0;
    while start < cals.len()
        invariant
            forall|k: int| 0 <= k < cals@.len() ==> 1 <= #[trigger] cals@[k].month <= 12,
            start <= cals@.len(),
            start == 3 * c || start == cals@.len(),
            mls.len() == start,
            forall|k: int| 0 <= k < start ==> month_lines_ok(#[trigger] mls[k], cals@[k], today),
            out@ == head + year_body(mls),
        decreases cals.len() - start,
    {
        let end = if cals.len() - start < 3 {
            cals.len()
        } else {
            start + 3
        };
        let mut rendered: Vec<Vec<String>> = Vec::new();
        let ghost mut row: Seq<Seq<Seq<char>>> = Seq::empty();
        let mut max_lines: usize = 0;
        let mut k = start;
        while k < end
            invariant
                start <= k <= end <= cals@.len(),
                forall|q: int| 0 <= q < cals@.len() ==> 1 <= #[trigger] cals@[q].month <= 12,
                row.len() == k - start,
                rendered@.len() == k - start,
                forall|q: int|
                    0 <= q < k - start ==> #[trigger] row[q] == crate::text::strings_view(
                        rendered@[q]@,
                    ),
                forall|q: int|
                    0 <= q < k - start ==> month_lines_ok(#[trigger] row[q], cals@[start + q], today),
                max_lines == most_lines(row),
            decreases end - k,
        {
            let ls = month_lines(&cals[k], today);
            proof {
                let r2 = row.push(crate::text::strings_view(ls@));
                assert(r2.drop_last() == row);
                row = r2;
            }
            if ls.len() > max_lines {
                max_lines = ls.len();
            }
            rendered.push(ls);
            k += 1;
        }
        let ghost before = out@;
        let mut i: usize = 0;
        while i < max_lines
            invariant
                i <= max_lines,
                max_lines == most_lines(row),
                row.len() == rendered@.len(),
                forall|q: int|
                    0 <= q < row.len() ==> #[trigger] row[q] == crate::text::strings_view(
                        rendered@[q]@,
                    ),
                out@ == before + block_lines(row, i as nat),
            decreases max_lines - i,
        {
            let mut cells: Vec<String> = Vec::new();
            let mut r: usize = 0;
            while r < rendered.len()
                invariant
                    r <= rendered@.len(),
                    row.len() == rendered@.len(),
                    forall|q: int|
                        0 <= q < row.len() ==> #[trigger] row[q] == crate::text::strings_view(
                            rendered@[q]@,
                        ),
                    cells@.len() == r,
                    forall|q: int|
                        0 <= q < r ==> #[trigger] cells@[q]@ == pad_to_spec(
                            if i < row[q].len() {
                                row[q][i as int]
                            } else {
                                Seq::empty()
                            },
                            COL_WIDTH as nat,
                        ),
                decreases rendered.len() - r,
            {
                let s = if i < rendered[r].len() {
                    rendered[r][i].clone()
                } else {
                    String::new()
                };
                proof {
                    assert(row[r as int] == crate::text::strings_view(rendered@[r as int]@));
                    if i < rendered@[r as int]@.len() {
                        assert(row[r as int][i as int] == rendered@[r as int]@[i as int]@);
                    }
                }
                cells.push(pad_to(s.as_str(), COL_WIDTH));
                r += 1;
            }
            let joined = crate::text::join(&cells, "  ");
            let trimmed = trim_end(joined.as_str());
            proof {
                let want = Seq::new(
                    row.len(),
                    |q: int|
                        pad_to_spec(
                            if i < row[q].len() {
                                row[q][i as int]
                            } else {
                                Seq::empty()
                            },
                            COL_WIDTH as nat,
                        ),
                );
                assert(crate::text::strings_view(cells@) =~= want);
                assert(trimmed@ == side_by_side(row, i as int));
            }
            append_str(&mut out, trimmed.as_str());
            append_str(&mut out, "\n");
            i += 1;
        }
        append_str(&mut out, "\n");
        proof {
            let m2 = mls + row;
            let e = end as int;
            assert(((e - 1) / 3) * 3 == start) by (nonlinear_arith)
                requires
                    start == 3 * c,
                    start < e <= start + 3,
            ;
            assert(m2.subrange(0, start as int) =~= mls);
            assert(m2.subrange(start as int, e) =~= row);
            assert(out@ =~= head + year_body(m2));
            assert forall|k: int| 0 <= k < e implies month_lines_ok(#[trigger] m2[k], cals@[k], today) by {
                if k >= start {
                    assert(m2[k] == row[k - start]);
                }
            }
            mls = m2;
            c = c + 1;
        }
        start = end;
    }
    proof {
        reveal_strlit("\n\n");
        assert(head == banner + "\n\n"@);
        assert(out@ == banner + "\n\n"@ + year_body(mls));
    }
    out
}

} // verus!
