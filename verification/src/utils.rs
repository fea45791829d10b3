//! Reading dates given on the command line, date ranges, and moments as text.
use vstd::prelude::*;

use crate::datetime::{
    civil_from_days, civil_seconds, days_from_civil, is_leap_year, lemma_civil_from_days, lemma_exact_reads_back, lemma_minute_rounded, is_valid_date, local_date_time, local_from_timestamp,
    local_now, parse_rfc3339, readable_string, readable_text, readable_writing, reading_as_datetime,
    rfc3339_reading, rfc3339_string, rfc3339_text, rfc3339_writing, DateRange, DateTime, MAX_TIMESTAMP,
};
use crate::text::{chars_of, pieces};

verus! {

/// A date argument: `today`, or `[yyyy-]m-d` with one or two digits for the month and day.
#[derive(Clone, Copy, Debug, PartialEq, Eq, Structural)]
pub enum DateArg {
    Today,
    Day { year: Option<i32>, month: u32, day: u32 },
}

/// Why a date or a date range could not be had.
#[derive(Clone, Copy, Debug, PartialEq, Eq, Structural)]
pub enum DateError {
    /// The range is not `<date>`, `..<date>`, `<date>..` or `<date>..<date>`.
    InvalidRange,
    /// The month and day name no day of this year (`2-29` without a year, in a year that is
    /// not a leap year).
    NoSuchDay,
    /// The local clock never shows that time on that day, or shows it twice.
    NoSuchLocalTime,
    /// The local time's RFC 3339 text does not read back: its year is outside 0 to 9999, its
    /// offset rounds to a whole day, or it is a leap second with an offset of odd seconds.
    OutOfRange,
}

pub open spec fn is_digit(c: char) -> bool {
    '0' <= c <= '9'
}

/// One to `max` ASCII digits.
pub open spec fn is_number(s: Seq<char>, max: int) -> bool {
    1 <= s.len() <= max && forall|i: int| 0 <= i < s.len() ==> is_digit(#[trigger] s[i])
}

/// The value of a run of decimal digits.
pub open spec fn digits_value(s: Seq<char>) -> int
    decreases s.len(),
{
    if s.len() == 0 {
        0
    } else {
        10 * digits_value(s.drop_last()) + (s.last() as int - 48)
    }
}

/// `m-d`, with one or two digits each.
pub open spec fn month_day(t: Seq<char>) -> Option<(int, int)> {
    if t.len() >= 3 && t[1] == '-' && is_number(t.take(1), 2) && is_number(t.skip(2), 2) {
        Some((digits_value(t.take(1)), digits_value(t.skip(2))))
    } else if t.len() >= 4 && t[2] == '-' && is_number(t.take(2), 2) && is_number(t.skip(3), 2) {
        Some((digits_value(t.take(2)), digits_value(t.skip(3))))
    } else {
        None
    }
}

pub open spec fn is_today(s: Seq<char>) -> bool {
    s == seq!['t', 'o', 'd', 'a', 'y']
}

/// What a date argument says: `today`, or the pattern `^(\d{4}-)?(\d{1,2})-(\d{1,2})$`
/// over ASCII digits.
pub open spec fn date_arg_spec(s: Seq<char>) -> Option<DateArg> {
    if is_today(s) {
        Some(DateArg::Today)
    } else if s.len() >= 5 && is_number(s.take(4), 4) && s[4] == '-' {
        match month_day(s.skip(5)) {
            Some((m, d)) => Some(
                DateArg::Day {
                    year: Some(digits_value(s.take(4)) as i32),
                    month: m as u32,
                    day: d as u32,
                },
            ),
            None => None,
        }
    } else {
        match month_day(s) {
            Some((m, d)) => Some(DateArg::Day { year: None, month: m as u32, day: d as u32 }),
            None => None,
        }
    }
}

proof fn lemma_digits_value_bound(s: Seq<char>)
    requires
        forall|i: int| 0 <= i < s.len() ==> is_digit(#[trigger] s[i]),
    ensures
        0 <= digits_value(s),
        s.len() <= 1 ==> digits_value(s) < 10,
        s.len() <= 2 ==> digits_value(s) < 100,
        s.len() <= 3 ==> digits_value(s) < 1000,
        s.len() <= 4 ==> digits_value(s) < 10000,
    decreases s.len(),
{
    if s.len() > 0 {
        assert(is_digit(s[s.len() - 1]));
        lemma_digits_value_bound(s.drop_last());
    }
}

/// The value of the digits `v[lo..hi]`.
fn number_at(v: &Vec<char>, lo: usize, hi: usize) -> (r: u32)
    requires
        lo <= hi <= v.len(),
        hi - lo <= 4,
        forall|i: int| lo <= i < hi ==> is_digit(#[trigger] v@[i]),
    ensures
        r == digits_value(v@.subrange(lo as int, hi as int)),
        r < 10000,
{
    let mut r: u32 = 0;
    let mut i: usize = lo;
    while i < hi
        invariant
            lo <= i <= hi <= v.len(),
            hi - lo <= 4,
            forall|k: int| lo <= k < hi ==> is_digit(#[trigger] v@[k]),
            r == digits_value(v@.subrange(lo as int, i as int)),
            r < 10000,
        decreases hi - i,
    {
        proof {
            let next = v@.subrange(lo as int, i + 1);
            assert(next.drop_last() =~= v@.subrange(lo as int, i as int));
            assert(is_digit(v@[i as int]));
            lemma_digits_value_bound(next);
        }
        let c = v[i];
        r = r * 10 + (c as u32 - 48);
        i = i + 1;
    }
    r
}

/// Whether `v[lo..hi]` is one to `max` digits.
fn is_number_at(v: &Vec<char>, lo: usize, hi: usize, max: usize) -> (b: bool)
    requires
        lo <= hi <= v.len(),
    ensures
        b == is_number(v@.subrange(lo as int, hi as int), max as int),
        b ==> forall|k: int| lo <= k < hi ==> is_digit(#[trigger] v@[k]),
{
    if hi - lo < 1 || hi - lo > max {
        return false;
    }
    let mut i: usize = lo;
    while i < hi
        invariant
            lo <= i <= hi <= v.len(),
            forall|k: int| lo <= k < i ==> is_digit(#[trigger] v@[k]),
        decreases hi - i,
    {
        if !(v[i] >= '0' && v[i] <= '9') {
            assert(!is_digit(v@.subrange(lo as int, hi as int)[i - lo]));
            return false;
        }
        i = i + 1;
    }
    assert forall|k: int| 0 <= k < hi - lo implies is_digit(
        #[trigger] v@.subrange(lo as int, hi as int)[k],
    ) by {
        assert(is_digit(v@[k + lo]));
    }
    true
}

/// `month_day` of `v[lo..]`.
fn month_day_at(v: &Vec<char>, lo: usize) -> (r: Option<(u32, u32)>)
    requires
        lo <= v.len(),
    ensures
        r matches Some(p) ==> month_day(v@.skip(lo as int)) == Some((p.0 as int, p.1 as int)),
        r is None ==> month_day(v@.skip(lo as int)) is None,
{
    let n = v.len();
    let ghost t = v@.skip(lo as int);
    if n - lo >= 3 && v[lo + 1] == '-' && is_number_at(v, lo, lo + 1, 2) && is_number_at(
        v,
        lo + 2,
        n,
        2,
    ) {
        assert(t.take(1) =~= v@.subrange(lo as int, lo + 1));
        assert(t.skip(2) =~= v@.subrange(lo + 2, n as int));
        let m = number_at(v, lo, lo + 1);
        let d = number_at(v, lo + 2, n);
        return Some((m, d));
    }
    proof {
        if t.len() >= 3 && t[1] == '-' {
            assert(t.take(1) =~= v@.subrange(lo as int, lo + 1));
            assert(t.skip(2) =~= v@.subrange(lo + 2, n as int));
        }
    }
    if n - lo >= 4 && v[lo + 2] == '-' && is_number_at(v, lo, lo + 2, 2) && is_number_at(
        v,
        lo + 3,
        n,
        2,
    ) {
        assert(t.take(2) =~= v@.subrange(lo as int, lo + 2));
        assert(t.skip(3) =~= v@.subrange(lo + 3, n as int));
        let m = number_at(v, lo, lo + 2);
        let d = number_at(v, lo + 3, n);
        return Some((m, d));
    }
    proof {
        if t.len() >= 4 && t[2] == '-' {
            assert(t.take(2) =~= v@.subrange(lo as int, lo + 2));
            assert(t.skip(3) =~= v@.subrange(lo + 3, n as int));
        }
    }
    None
}

/// Reads a date argument: `today`, or `[yyyy-]m-d` with ASCII digits.
pub fn parse_date_arg(date_arg: &str) -> (r: Option<DateArg>)
    ensures
        r == date_arg_spec(date_arg@),
{
    let v = chars_of(date_arg);
    let n = v.len();
    if n == 5 && v[0] == 't' && v[1] == 'o' && v[2] == 'd' && v[3] == 'a' && v[4] == 'y' {
        assert(v@ =~= seq!['t', 'o', 'd', 'a', 'y']);
        return Some(DateArg::Today);
    }
    assert(v@.skip(0) =~= v@);
    if n >= 5 && is_number_at(&v, 0, 4, 4) && v[4] == '-' {
        assert(v@.take(4) =~= v@.subrange(0, 4));
        let year = number_at(&v, 0, 4);
        match month_day_at(&v, 5) {
            Some((m, d)) => {
                return Some(DateArg::Day { year: Some(year as i32), month: m, day: d });
            },
            None => {
                return None;
            },
        }
    }
    proof {
        if n >= 4 {
            assert(v@.take(4) =~= v@.subrange(0, 4));
        }
    }
    match month_day_at(&v, 0) {
        Some((m, d)) => Some(DateArg::Day { year: None, month: m, day: d }),
        None => None,
    }
}

// ---- Dates from arguments ----

/// The clock reading that a date argument stands for: the first second of the day,
/// or with `end` the last (23:59:59), so that a range includes the whole of its last day.
pub open spec fn time_of_day(end: bool) -> (u32, u32, u32) {
    if end {
        (23, 59, 59)
    } else {
        (0, 0, 0)
    }
}

/// The local date and time `(y, m, d, h, mi, s)` that a date argument stands for, given
/// today's local date: `today` is today, a date without a year is in today's year; the time
/// is that of `time_of_day`. `NoSuchDay` where that year has no such day.
pub open spec fn resolve_spec(arg: DateArg, end: bool, today: (i32, u32, u32)) -> Result<
    (i32, u32, u32, u32, u32, u32),
    DateError,
> {
    let (h, mi, s) = time_of_day(end);
    match arg {
        DateArg::Today => Ok((today.0, today.1, today.2, h, mi, s)),
        DateArg::Day { year, month, day } => {
            let y = match year {
                Some(y) => y,
                None => today.0,
            };
            if is_valid_date(y as int, month as int, day as int) {
                Ok((y, month, day, h, mi, s))
            } else {
                Err(DateError::NoSuchDay)
            }
        },
    }
}

pub open spec fn is_valid_today(today: (i32, u32, u32)) -> bool {
    is_valid_date(today.0 as int, today.1 as int, today.2 as int)
}

/// `u` is a moment at which the local clock reads `c` (as `chrono` finds one).
pub open spec fn is_clock_reading(u: DateTime, c: (i32, u32, u32, u32, u32, u32)) -> bool {
    &&& u.wf()
    &&& u.nanos == 0
    &&& u.wall() == civil_seconds(c.0 as int, c.1 as int, c.2 as int, c.3 as int, c.4 as int, c.5 as int)
}

/// What is kept of a moment of the local clock: its RFC 3339 text read back, which is the same
/// local date and time with the offset rounded to whole minutes; `OutOfRange` where the text
/// does not read back (a year outside 0 to 9999, an offset that rounds to a whole day, or a
/// leap second with an offset of odd seconds).
pub open spec fn kept_reading(u: DateTime) -> Result<DateTime, DateError> {
    if u.reads_back_rounded() {
        Ok(u.minute_rounded())
    } else {
        Err(DateError::OutOfRange)
    }
}

/// What the local clock reading `c` gives: `NoSuchLocalTime` where the local time zone has no
/// single moment with that reading, else what is kept of that moment.
pub open spec fn local_outcome(c: (i32, u32, u32, u32, u32, u32), r: Result<DateTime, DateError>) -> bool {
    ||| r == Err::<DateTime, DateError>(DateError::NoSuchLocalTime)
    ||| exists|u: DateTime| #[trigger] is_clock_reading(u, c) && r == kept_reading(u)
}

/// What reading the date argument `s` gives, when today's local date is `today`: `NoSuchDay`
/// where it names no day, and otherwise what the local clock reading of that date and time
/// gives (`local_outcome`).
pub open spec fn arg_reading(s: Seq<char>, end: bool, today: (i32, u32, u32), r: Result<
    DateTime,
    DateError,
>) -> bool {
    match date_arg_spec(s) {
        None => false,
        Some(arg) => match resolve_spec(arg, end, today) {
            Ok(c) => local_outcome(c, r),
            Err(e) => r == Err::<DateTime, DateError>(e),
        },
    }
}

/// A reading of the date argument that fails where it can: used where the argument is not read.
pub open spec fn failed_reading(s: Seq<char>, end: bool, today: (i32, u32, u32)) -> Result<
    DateTime,
    DateError,
> {
    match date_arg_spec(s) {
        None => Err(DateError::NoSuchDay),
        Some(arg) => match resolve_spec(arg, end, today) {
            Ok(_) => Err(DateError::NoSuchLocalTime),
            Err(e) => Err(e),
        },
    }
}

proof fn lemma_failed_reading(s: Seq<char>, end: bool, today: (i32, u32, u32))
    requires
        date_arg_spec(s) is Some,
    ensures
        arg_reading(s, end, today, failed_reading(s, end, today)),
{
}

/// Whether `y-m-d` is a real date within the years that `chrono` accepts.
pub fn valid_date(y: i32, m: u32, d: u32) -> (b: bool)
    ensures
        b == is_valid_date(y as int, m as int, d as int),
{
    if y < -262143 || y > 262142 || m < 1 || m > 12 || d < 1 {
        return false;
    }
    let a: u32 = if y >= 0 { y as u32 } else { (0 - y) as u32 };
    assert(y % 4 == 0 <==> a % 4 == 0);
    assert(y % 100 == 0 <==> a % 100 == 0);
    assert(y % 400 == 0 <==> a % 400 == 0);
    let leap = a % 4 == 0 && (a % 100 != 0 || a % 400 == 0);
    assert(leap == is_leap_year(y as int));
    let days: u32 = if m == 2 {
        if leap { 29 } else { 28 }
    } else if m == 4 || m == 6 || m == 9 || m == 11 {
        30
    } else {
        31
    };
    d <= days
}

/// The local date and time that a date argument stands for, given today's local date
/// (used only by `today` and by a date without a year).
pub fn resolve_date_arg(arg: DateArg, end: bool, today: (i32, u32, u32)) -> (r: Result<
    (i32, u32, u32, u32, u32, u32),
    DateError,
>)
    requires
        is_valid_today(today),
    ensures
        r == resolve_spec(arg, end, today),
{
    let h: u32 = if end { 23 } else { 0 };
    let mi: u32 = if end { 59 } else { 0 };
    let s: u32 = if end { 59 } else { 0 };
    match arg {
        DateArg::Today => Ok((today.0, today.1, today.2, h, mi, s)),
        DateArg::Day { year, month, day } => {
            let y = match year {
                Some(y) => y,
                None => today.0,
            };
            if valid_date(y, month, day) {
                Ok((y, month, day, h, mi, s))
            } else {
                Err(DateError::NoSuchDay)
            }
        },
    }
}

/// What is kept of a moment that `chrono` found on the local clock (`kept_reading`): the
/// moment with its offset rounded to whole minutes, as its RFC 3339 text reads back, or
/// `OutOfRange` where that text does not read back.
pub fn keep_local_reading(u: &DateTime) -> (r: Result<DateTime, DateError>)
    requires
        u.wf(),
    ensures
        r == kept_reading(*u),
        r matches Ok(t) ==> t.wf() && t.nanos == u.nanos && t.offset % 60 == 0 && t.wall() == u.wall(),
{
    if !u.rfc3339_reads_back() {
        return Err(DateError::OutOfRange);
    }
    proof {
        lemma_minute_rounded(*u);
    }
    match local_to_fixed_offset(u) {
        Some(t) => Ok(t),
        None => Err(DateError::OutOfRange),
    }
}

/// The moment at which the local clock reads `c`, as `chrono` finds it, kept as
/// `keep_local_reading` keeps it.
fn local_reading(c: (i32, u32, u32, u32, u32, u32)) -> (r: Result<DateTime, DateError>)
    ensures
        local_outcome(c, r),
{
    match local_date_time(c.0, c.1, c.2, c.3, c.4, c.5) {
        None => Err(DateError::NoSuchLocalTime),
        Some(u) => {
            let r = keep_local_reading(&u);
            assert(is_clock_reading(u, c));
            r
        },
    }
}

/// A moment of the local clock as RFC 3339 text keeps it: written and read back, which keeps
/// the local date and time and rounds the offset to whole minutes. Where it reads back
/// (`reads_back_rounded`) that is stated; elsewhere what `chrono` reads is named (it reads
/// nothing there for a year outside 0 to 9999 or an offset that rounds to a whole day, where
/// the command stops).
pub fn local_to_fixed_offset(date: &DateTime) -> (r: Option<DateTime>)
    requires
        date.wf(),
    ensures
        r == reading_as_datetime(rfc3339_reading(rfc3339_writing(date.secs, date.nanos, date.offset))),
        date.reads_back_rounded() ==> r == Some(date.minute_rounded()),
{
    let text = rfc3339_string(date);
    let v = chars_of(text.as_str());
    assert(v@.subrange(0, v@.len() as int) =~= v@);
    parse_rfc3339(&v, 0, v.len())
}

/// A date argument that names a day whatever today is: `today`, a real date `yyyy-m-d`, or
/// `m-d` naming a day of some year (of leap years, so `2-29` too).
pub open spec fn arg_text_ok(s: Seq<char>) -> bool {
    match date_arg_spec(s) {
        None => false,
        Some(DateArg::Today) => true,
        Some(DateArg::Day { year: Some(y), month, day }) => is_valid_date(y as int, month as int, day as int),
        Some(DateArg::Day { year: None, month, day }) => is_valid_date(2000, month as int, day as int),
    }
}

/// Whether the text is a date argument that names a day (`arg_text_ok`); the command stops on
/// any other.
pub fn date_arg_ok(date_arg: &str) -> (b: bool)
    ensures
        b == arg_text_ok(date_arg@),
{
    match parse_date_arg(date_arg) {
        None => false,
        Some(DateArg::Today) => true,
        Some(DateArg::Day { year: Some(y), month, day }) => valid_date(y, month, day),
        Some(DateArg::Day { year: None, month, day }) => valid_date(2000, month, day),
    }
}

/// The moment that a date argument stands for, on the local clock: `today`, or `[yyyy-]m-d`
/// (this year where no year is given), at 00:00:00, or with `end` at 23:59:59, kept as
/// `keep_local_reading` keeps it. The argument must name a day (`date_arg_ok`); `2-29` without
/// a year gives `NoSuchDay` in a year that is not a leap year, and `NoSuchLocalTime` comes
/// where the local time zone has no single such moment. Today's date is read from the clock,
/// only for `today` and a date without a year; it is some valid date, and which one depends on
/// the clock (`resolve_date_arg` says what each date gives).
pub fn get_date_from_arg(date_arg: &str, end: bool) -> (r: Result<DateTime, DateError>)
    requires
        arg_text_ok(date_arg@),
    ensures
        exists|today: (i32, u32, u32)|
            is_valid_today(today) && #[trigger] arg_reading(date_arg@, end, today, r),
{
    let arg = match parse_date_arg(date_arg) {
        None => {
            proof {
                assert(false);
            }
            return Err(DateError::NoSuchDay);
        },
        Some(a) => a,
    };
    let today: (i32, u32, u32) = match arg {
        DateArg::Day { year: Some(_), .. } => (1970, 1, 1),
        _ => {
            let (_, y, m, d) = local_now();
            (y, m, d)
        },
    };
    date_from_arg_on(date_arg, end, today)
}

/// The moment that a date argument stands for when today's local date is `today`: what
/// `get_date_from_arg` gives once the clock has been read, and what each end of a date range
/// gives, all ends read against one `today`.
pub fn date_from_arg_on(date_arg: &str, end: bool, today: (i32, u32, u32)) -> (r: Result<DateTime, DateError>)
    requires
        arg_text_ok(date_arg@),
        is_valid_today(today),
    ensures
        arg_reading(date_arg@, end, today, r),
{
    let arg = match parse_date_arg(date_arg) {
        None => {
            proof {
                assert(false);
            }
            return Err(DateError::NoSuchDay);
        },
        Some(a) => a,
    };
    match resolve_date_arg(arg, end, today) {
        Err(e) => Err(e),
        Ok(c) => local_reading(c),
    }
}

/// The first moment tracked: 1970-01-01 00:00:00 on the local clock, kept as
/// `keep_local_reading` keeps it.
pub open spec fn start_reading(r: Result<DateTime, DateError>) -> bool {
    local_outcome((1970, 1, 1, 0, 0, 0), r)
}

/// The first moment tracked: 1970-01-01 00:00:00 on the local clock, kept as
/// `keep_local_reading` keeps it; `NoSuchLocalTime` where the local time zone has no single
/// such moment.
pub fn get_start_date() -> (r: Result<DateTime, DateError>)
    ensures
        start_reading(r),
{
    local_reading((1970, 1, 1, 0, 0, 0))
}

// ---- Date ranges ----

/// `p` joined to the front of the first piece of `r`.
pub open spec fn glue(p: Seq<char>, r: Seq<Seq<char>>) -> Seq<Seq<char>> {
    seq![p + r[0]] + r.skip(1)
}

/// The pieces of `s` between occurrences of `..`, found from the left without overlap,
/// as `str::split("..")` gives them.
pub open spec fn split_dots(s: Seq<char>) -> Seq<Seq<char>>
    decreases s.len(),
{
    if s.len() < 2 {
        seq![s]
    } else if s[0] == '.' && s[1] == '.' {
        seq![Seq::<char>::empty()] + split_dots(s.skip(2))
    } else {
        glue(seq![s[0]], split_dots(s.drop_first()))
    }
}

proof fn lemma_split_dots_nonempty(s: Seq<char>)
    ensures
        split_dots(s).len() >= 1,
    decreases s.len(),
{
    if s.len() >= 2 {
        if s[0] == '.' && s[1] == '.' {
            lemma_split_dots_nonempty(s.skip(2));
        } else {
            lemma_split_dots_nonempty(s.drop_first());
        }
    }
}

/// The index ranges of the pieces of `v` between occurrences of `..`.
fn split_dots_bounds(v: &Vec<char>) -> (r: Vec<(usize, usize)>)
    ensures
        pieces(v@, r@) == split_dots(v@),
        forall|k: int| 0 <= k < r.len() ==> (#[trigger] r@[k]).0 <= r@[k].1 <= v.len(),
{
    let n = v.len();
    let mut done: Vec<(usize, usize)> = Vec::new();
    let mut start: usize = 0;
    let mut i: usize = 0;
    proof {
        lemma_split_dots_nonempty(v@);
        assert(v@.skip(0) =~= v@);
        let r = split_dots(v@);
        assert(v@.subrange(0, 0) + r[0] =~= r[0]);
        assert(pieces(v@, done@) + glue(v@.subrange(0, 0), r) =~= r);
    }
    while i < n
        invariant
            n == v.len(),
            start <= i <= n,
            forall|k: int| 0 <= k < done.len() ==> (#[trigger] done@[k]).0 <= done@[k].1 <= start,
            split_dots(v@) == pieces(v@, done@) + glue(
                v@.subrange(start as int, i as int),
                split_dots(v@.skip(i as int)),
            ),
        decreases n - i,
    {
        let ghost p = v@.subrange(start as int, i as int);
        let ghost t = v@.skip(i as int);
        if i + 1 < n && v[i] == '.' && v[i + 1] == '.' {
            proof {
                assert(t.skip(2) =~= v@.skip(i + 2));
                let rest = split_dots(v@.skip(i + 2));
                lemma_split_dots_nonempty(v@.skip(i + 2));
                assert(glue(p, split_dots(t)) =~= seq![p] + rest);
                assert(v@.subrange(i + 2, i + 2) + rest[0] =~= rest[0]);
                assert(glue(v@.subrange(i + 2, i + 2), rest) =~= rest);
                assert(pieces(v@, done@.push((start, i))) =~= pieces(v@, done@).push(p));
                assert(pieces(v@, done@) + (seq![p] + rest) =~= pieces(v@, done@).push(p) + rest);
            }
            done.push((start, i));
            start = i + 2;
            i = i + 2;
        } else {
            proof {
                let rest = split_dots(v@.skip(i + 1));
                lemma_split_dots_nonempty(v@.skip(i + 1));
                let c = seq![v@[i as int]];
                if t.len() < 2 {
                    assert(v@.skip(i + 1) =~= Seq::<char>::empty());
                    assert(rest == seq![Seq::<char>::empty()]);
                    assert(c + rest[0] =~= t);
                    assert(glue(c, rest) =~= seq![t]);
                } else {
                    assert(t.drop_first() =~= v@.skip(i + 1));
                    assert(t[0] == v@[i as int]);
                }
                assert(split_dots(t) == glue(c, rest));
                assert(v@.subrange(start as int, i + 1) =~= p + c);
                let g = glue(c, rest);
                assert(g[0] == c + rest[0]);
                assert(g.skip(1) =~= rest.skip(1));
                assert(p + (c + rest[0]) =~= (p + c) + rest[0]);
                assert(glue(p, g) =~= glue(v@.subrange(start as int, i + 1), rest));
            }
            i = i + 1;
        }
    }
    proof {
        let p = v@.subrange(start as int, n as int);
        assert(v@.skip(n as int) =~= Seq::<char>::empty());
        assert(glue(p, split_dots(v@.skip(n as int))) =~= seq![p]);
        assert(pieces(v@, done@.push((start, n))) =~= pieces(v@, done@).push(p));
    }
    done.push((start, n));
    done
}

/// `s` holds no `..`.
pub open spec fn no_double_dot(s: Seq<char>) -> bool {
    forall|i: int| 0 <= i < s.len() - 1 ==> !(#[trigger] s[i] == '.' && s[i + 1] == '.')
}

proof fn lemma_split_dots_joined(a: Seq<char>, b: Seq<char>)
    requires
        no_double_dot(a),
        a.len() == 0 || a.last() != '.',
    ensures
        split_dots(a + seq!['.', '.'] + b) == seq![a] + split_dots(b),
    decreases a.len(),
{
    let s = a + seq!['.', '.'] + b;
    if a.len() == 0 {
        assert(s.skip(2) =~= b);
        assert(a =~= Seq::<char>::empty());
    } else {
        let a1 = a.drop_first();
        assert forall|i: int| 0 <= i < a1.len() - 1 implies !(#[trigger] a1[i] == '.' && a1[i + 1]
            == '.') by {
            assert(a1[i] == a[i + 1] && a1[i + 1] == a[i + 2]);
        }
        if a1.len() > 0 {
            assert(a1.last() == a.last());
        }
        lemma_split_dots_joined(a1, b);
        assert(s.drop_first() =~= a1 + seq!['.', '.'] + b);
        if a1.len() == 0 {
            assert(s[1] == '.');
            assert(a[0] == a.last());
        } else {
            assert(s[1] == a[1]);
        }
        assert(!(s[0] == '.' && s[1] == '.'));
        lemma_split_dots_nonempty(b);
        let r = seq![a1] + split_dots(b);
        assert(seq![s[0]] + a1 =~= a);
        assert(glue(seq![s[0]], r) =~= seq![a] + split_dots(b));
    }
}

proof fn lemma_split_dots_plain(a: Seq<char>)
    requires
        no_double_dot(a),
    ensures
        split_dots(a) == seq![a],
    decreases a.len(),
{
    if a.len() >= 2 {
        let a1 = a.drop_first();
        assert forall|i: int| 0 <= i < a1.len() - 1 implies !(#[trigger] a1[i] == '.' && a1[i + 1]
            == '.') by {
            assert(a1[i] == a[i + 1] && a1[i + 1] == a[i + 2]);
        }
        lemma_split_dots_plain(a1);
        assert(!(a[0] == '.' && a[1] == '.'));
        assert(seq![a[0]] + a1 =~= a);
        assert(glue(seq![a[0]], seq![a1]) =~= seq![a]);
    }
}

/// `..<date>` names the same range as `<date>` (for a date argument without `..` in it).
pub proof fn lemma_leading_dots_same_range(x: Seq<char>)
    requires
        x.len() > 0,
        no_double_dot(x),
    ensures
        range_spec(seq!['.', '.'] + x) == range_spec(x),
{
    let e = Seq::<char>::empty();
    lemma_split_dots_joined(e, x);
    assert(e + seq!['.', '.'] + x =~= seq!['.', '.'] + x);
    lemma_split_dots_plain(x);
    assert(split_dots(seq!['.', '.'] + x) =~= seq![e, x]);
}

/// `<date>..` names the same range as `<date>..today` (for a date argument without `..` in it
/// that does not end with `.`).
pub proof fn lemma_trailing_dots_until_today(x: Seq<char>)
    requires
        x.len() > 0,
        no_double_dot(x),
        x.last() != '.',
    ensures
        range_spec(x + seq!['.', '.']) == range_spec(x + seq!['.', '.', 't', 'o', 'd', 'a', 'y']),
{
    let e = Seq::<char>::empty();
    let today = seq!['t', 'o', 'd', 'a', 'y'];
    lemma_split_dots_joined(x, e);
    assert(x + seq!['.', '.'] + e =~= x + seq!['.', '.']);
    lemma_split_dots_joined(x, today);
    assert(x + seq!['.', '.'] + today =~= x + seq!['.', '.', 't', 'o', 'd', 'a', 'y']);
    lemma_split_dots_plain(today);
    assert(split_dots(x + seq!['.', '.']) =~= seq![x, e]);
    assert(split_dots(x + seq!['.', '.', 't', 'o', 'd', 'a', 'y']) =~= seq![x, today]);
}

/// One end of a date range: the first moment tracked, or a date argument
/// (`true`: the end of that day, `false`: its start).
pub enum RangeEnd {
    Epoch,
    Arg(Seq<char>, bool),
}

/// The ends that a date range names: `<date>` and `..<date>` run from the first moment tracked
/// to the end of that date, `<date>..` from the start of that date to the end of today, and
/// `<date1>..<date2>` from the start of one to the end of the other. Anything else,
/// `..` alone among it, names no range.
pub open spec fn range_spec(s: Seq<char>) -> Option<(RangeEnd, RangeEnd)> {
    let p = split_dots(s);
    if p.len() == 1 {
        Some((RangeEnd::Epoch, RangeEnd::Arg(p[0], true)))
    } else if p.len() == 2 {
        if p[0].len() == 0 && p[1].len() == 0 {
            None
        } else if p[0].len() == 0 {
            Some((RangeEnd::Epoch, RangeEnd::Arg(p[1], true)))
        } else if p[1].len() == 0 {
            Some((RangeEnd::Arg(p[0], false), RangeEnd::Arg(seq!['t', 'o', 'd', 'a', 'y'], true)))
        } else {
            Some((RangeEnd::Arg(p[0], false), RangeEnd::Arg(p[1], true)))
        }
    } else {
        None
    }
}

/// What reading the range end `b` gives, when today's local date is `today`.
pub open spec fn end_reading(b: RangeEnd, today: (i32, u32, u32), r: Result<DateTime, DateError>) -> bool {
    match b {
        RangeEnd::Epoch => start_reading(r),
        RangeEnd::Arg(x, end) => arg_reading(x, end, today, r),
    }
}

/// A reading of the range end that fails where it can: used where the end is not read.
pub open spec fn unread_end(b: RangeEnd, r0: Result<DateTime, DateError>, today: (i32, u32, u32)) -> Result<DateTime, DateError> {
    match b {
        RangeEnd::Epoch => r0,
        RangeEnd::Arg(x, end) => failed_reading(x, end, today),
    }
}

/// The result of reading a range from the readings of its parts, in the order they are made:
/// first the first moment tracked (`r0`), then the start (`ra`, unless it is that first moment),
/// then the end (`rb`); the first failure is the result.
pub open spec fn combine(
    spec: Option<(RangeEnd, RangeEnd)>,
    r0: Result<DateTime, DateError>,
    ra: Result<DateTime, DateError>,
    rb: Result<DateTime, DateError>,
) -> Result<DateRange, DateError> {
    match r0 {
        Err(e) => Err(e),
        Ok(t0) => match spec {
            None => Err(DateError::InvalidRange),
            Some((a, b)) => {
                let start = match a {
                    RangeEnd::Epoch => Ok(t0),
                    RangeEnd::Arg(_, _) => ra,
                };
                match start {
                    Err(e) => Err(e),
                    Ok(st) => match rb {
                        Err(e) => Err(e),
                        Ok(en) => Ok(DateRange(st, en)),
                    },
                }
            },
        },
    }
}

/// `r` is what reading a range with ends `spec` gives, from readings `r0`, `ra`, `rb` of its
/// parts made on local dates `da` and `db`.
pub open spec fn range_outcome(
    spec: Option<(RangeEnd, RangeEnd)>,
    r0: Result<DateTime, DateError>,
    ra: Result<DateTime, DateError>,
    rb: Result<DateTime, DateError>,
    da: (i32, u32, u32),
    db: (i32, u32, u32),
    r: Result<DateRange, DateError>,
) -> bool {
    &&& start_reading(r0)
    &&& is_valid_today(da)
    &&& is_valid_today(db)
    &&& (spec matches Some((a, b)) ==> end_reading(a, da, ra) && end_reading(b, db, rb))
    &&& r == combine(spec, r0, ra, rb)
}

/// A range end that is the first moment tracked or a date argument that names a day.
pub open spec fn end_text_ok(b: RangeEnd) -> bool {
    match b {
        RangeEnd::Epoch => true,
        RangeEnd::Arg(x, _) => arg_text_ok(x),
    }
}

/// Every date in the range text names a day (the command stops on any other); text that names
/// no range at all is answered with `InvalidRange`.
pub open spec fn range_args_ok(s: Seq<char>) -> bool {
    match range_spec(s) {
        None => true,
        Some((a, b)) => end_text_ok(a) && end_text_ok(b),
    }
}

/// The first date of the range text that names no day, or nothing where every date does
/// (`range_args_ok`). The command stops on such a date.
pub fn bad_date_in_range(date_range: &str) -> (r: Option<String>)
    ensures
        r is None <==> range_args_ok(date_range@),
        r matches Some(p) ==> !arg_text_ok(p@) && (range_spec(date_range@) matches Some((a, b)) && (
        a == RangeEnd::Arg(p@, false) || b == RangeEnd::Arg(p@, true))),
{
    let v = chars_of(date_range);
    let parts = split_dots_bounds(&v);
    proof {
        lemma_split_dots_nonempty(v@);
        assert(parts@.len() == pieces(v@, parts@).len());
        assert(pieces(v@, parts@)[0] == v@.subrange(parts@[0].0 as int, parts@[0].1 as int));
    }
    if parts.len() == 1 {
        let p0 = date_range.substring_char(parts[0].0, parts[0].1);
        if date_arg_ok(p0) { None } else { Some(p0.to_string()) }
    } else if parts.len() == 2 {
        assert(pieces(v@, parts@)[1] == v@.subrange(parts@[1].0 as int, parts@[1].1 as int));
        let (a0, b0) = parts[0];
        let (a1, b1) = parts[1];
        if a0 == b0 && a1 == b1 {
            None
        } else if a0 == b0 {
            let p1 = date_range.substring_char(a1, b1);
            if date_arg_ok(p1) { None } else { Some(p1.to_string()) }
        } else {
            let p0 = date_range.substring_char(a0, b0);
            if !date_arg_ok(p0) {
                return Some(p0.to_string());
            }
            if a1 == b1 {
                proof {
                    assert(arg_text_ok(seq!['t', 'o', 'd', 'a', 'y']));
                }
                None
            } else {
                let p1 = date_range.substring_char(a1, b1);
                if date_arg_ok(p1) { None } else { Some(p1.to_string()) }
            }
        }
    } else {
        None
    }
}

proof fn lemma_unread_end(b: RangeEnd, r0: Result<DateTime, DateError>, today: (i32, u32, u32))
    requires
        start_reading(r0),
        end_text_ok(b),
    ensures
        end_reading(b, today, unread_end(b, r0, today)),
{
    match b {
        RangeEnd::Epoch => {},
        RangeEnd::Arg(x, end) => lemma_failed_reading(x, end, today),
    }
}

/// `r` is what reading the range text `s` gives, with every date in it read against one
/// local date `today`.
pub open spec fn range_result(s: Seq<char>, r: Result<DateRange, DateError>) -> bool {
    exists|
        r0: Result<DateTime, DateError>,
        ra: Result<DateTime, DateError>,
        rb: Result<DateTime, DateError>,
        today: (i32, u32, u32),
    | #[trigger] range_outcome(range_spec(s), r0, ra, rb, today, today, r)
}

/// The local calendar date `(y, m, d)` on which the moment falls.
pub open spec fn local_date(t: DateTime) -> (int, int, int) {
    civil_from_days(t.wall_day())
}

/// A date argument without a year: `m-d`.
pub open spec fn is_month_day(s: Seq<char>) -> bool {
    date_arg_spec(s) matches Some(DateArg::Day { year: None, .. })
}

/// A moment kept of the local clock reading `c` falls on the date of `c`, at the time of `c`.
proof fn lemma_reading_date(c: (i32, u32, u32, u32, u32, u32), r: Result<DateTime, DateError>)
    requires
        local_outcome(c, r),
        r is Ok,
        is_valid_date(c.0 as int, c.1 as int, c.2 as int),
        c.3 < 24 && c.4 < 60 && c.5 < 60,
    ensures
        local_date(r->Ok_0) == (c.0 as int, c.1 as int, c.2 as int),
        r->Ok_0.wall_second_of_day() == c.3 * 3600 + c.4 * 60 + c.5,
{
    let u = choose|u: DateTime| #[trigger] is_clock_reading(u, c) && r == kept_reading(u);
    lemma_minute_rounded(u);
    let t = r->Ok_0;
    let day = days_from_civil(c.0 as int, c.1 as int, c.2 as int);
    let k = c.3 * 3600 + c.4 * 60 + c.5;
    assert(t.wall() == day * 86400 + k);
    assert((day * 86400 + k) / 86400 == day && (day * 86400 + k) % 86400 == k) by (nonlinear_arith)
        requires
            0 <= k < 86400,
    ;
    lemma_civil_from_days(c.0 as int, c.1 as int, c.2 as int);
}

/// A range read with a date without a year at its start and, at its end, a date without a year
/// or `today` (so also `m-d..`) lies within one year: the start is that month and day of the
/// end's year, at 00:00:00, and the end is at 23:59:59 (for `today`, of today's date).
pub proof fn lemma_month_day_range_in_one_year(s: Seq<char>, r: Result<DateRange, DateError>)
    requires
        range_result(s, r),
        r is Ok,
        range_spec(s) matches Some((RangeEnd::Arg(x, false), RangeEnd::Arg(y, true))) && is_month_day(
            x,
        ) && (is_month_day(y) || is_today(y)),
    ensures
        ({
            let DateRange(start, end) = r->Ok_0;
            let (a, b) = range_spec(s)->0;
            let (mx, dx) = (date_arg_spec(a->0)->0->month, date_arg_spec(a->0)->0->day);
            &&& local_date(start) == (local_date(end).0, mx as int, dx as int)
            &&& start.wall_second_of_day() == 0
            &&& end.wall_second_of_day() == 23 * 3600 + 59 * 60 + 59
            &&& is_month_day(b->0) ==> local_date(end) == (local_date(end).0, date_arg_spec(b->0)->0->month
                as int, date_arg_spec(b->0)->0->day as int)
        }),
{
    let (r0, ra, rb, today) = choose|
        r0: Result<DateTime, DateError>,
        ra: Result<DateTime, DateError>,
        rb: Result<DateTime, DateError>,
        today: (i32, u32, u32),
    | #[trigger] range_outcome(range_spec(s), r0, ra, rb, today, today, r);
    let (a, b) = range_spec(s)->0;
    let x = a->0;
    let y = b->0;
    assert(ra is Ok && rb is Ok && r->Ok_0 == DateRange(ra->Ok_0, rb->Ok_0));
    let ca = resolve_spec(date_arg_spec(x)->0, false, today);
    let cb = resolve_spec(date_arg_spec(y)->0, true, today);
    assert(ca is Ok && cb is Ok);
    lemma_reading_date(ca->Ok_0, ra);
    lemma_reading_date(cb->Ok_0, rb);
}

/// Reads a date range: `<date>` or `..<date>` (from the first moment tracked to the end of
/// that date), `<date>..` (from the start of that date to the end of today) or
/// `<date1>..<date2>` (from the start of one to the end of the other); both ends inclusive.
/// `InvalidRange` where the text names no range. Every date in it must name a day
/// (`bad_date_in_range` finds one that does not); the errors of a date are those of
/// `get_date_from_arg`. Each date is read on its own, with today's local date at the time it
/// is read.
pub fn parse_date_range(date_range: &str) -> (r: Result<DateRange, DateError>)
    requires
        range_args_ok(date_range@),
    ensures
        range_result(date_range@, r),
{
    let v = chars_of(date_range);
    let parts = split_dots_bounds(&v);
    let ghost spec = range_spec(date_range@);
    let r0 = get_start_date();
    let (_, ty, tm, td) = local_now();
    let today: (i32, u32, u32) = (ty, tm, td);
    let ghost da = today;
    let ghost db = today;
    let ghost mut ra = r0;
    let ghost mut rb = r0;
    proof {
        lemma_split_dots_nonempty(v@);
        assert(parts@.len() == pieces(v@, parts@).len());
        assert(pieces(v@, parts@)[0] == v@.subrange(parts@[0].0 as int, parts@[0].1 as int));
        if let Some((a, b)) = spec {
            ra = unread_end(a, r0, today);
            rb = unread_end(b, r0, today);
            lemma_unread_end(a, r0, today);
            lemma_unread_end(b, r0, today);
        }
    }
    let t0 = match r0 {
        Ok(t) => t,
        Err(e) => {
            assert(range_outcome(spec, r0, ra, rb, da, db, Err(e)));
            return Err(e);
        },
    };
    let r = if parts.len() == 1 {
        let p0 = date_range.substring_char(parts[0].0, parts[0].1);
        let res = date_from_arg_on(p0, true, today);
        proof {
            rb = res;
        }
        match res {
            Ok(end) => Ok(DateRange(t0, end)),
            Err(e) => Err(e),
        }
    } else if parts.len() == 2 {
        assert(pieces(v@, parts@)[1] == v@.subrange(parts@[1].0 as int, parts@[1].1 as int));
        let (a0, b0) = parts[0];
        let (a1, b1) = parts[1];
        if a0 == b0 && a1 == b1 {
            Err(DateError::InvalidRange)
        } else if a0 == b0 {
            let p1 = date_range.substring_char(a1, b1);
            let res = date_from_arg_on(p1, true, today);
            proof {
                rb = res;
            }
            match res {
                Ok(end) => Ok(DateRange(t0, end)),
                Err(e) => Err(e),
            }
        } else {
            let p0 = date_range.substring_char(a0, b0);
            let res_a = date_from_arg_on(p0, false, today);
            proof {
                ra = res_a;
            }
            match res_a {
                Err(e) => Err(e),
                Ok(start) => {
                    let res_b = if a1 == b1 {
                        let today_arg = "today";
                        proof {
                            reveal_strlit("today");
                            assert(today_arg@ =~= seq!['t', 'o', 'd', 'a', 'y']);
                        }
                        date_from_arg_on(today_arg, true, today)
                    } else {
                        let p1 = date_range.substring_char(a1, b1);
                        date_from_arg_on(p1, true, today)
                    };
                    proof {
                        rb = res_b;
                    }
                    match res_b {
                        Ok(end) => Ok(DateRange(start, end)),
                        Err(e) => Err(e),
                    }
                },
            }
        }
    } else {
        Err(DateError::InvalidRange)
    };
    assert(range_outcome(spec, r0, ra, rb, da, db, r));
    r
}

// ---- Moments as text ----

/// The moment as RFC 3339 text, e.g. `2021-12-10T09:59:28-05:00` (the form of the log file).
pub fn format_datetime(time: &DateTime) -> (r: String)
    requires
        time.wf(),
    ensures
        r@ == rfc3339_writing(time.secs, time.nanos, time.offset),
        time.has_rfc3339_text() ==> r@ == rfc3339_text(*time),
        time.reads_back_rounded() ==> rfc3339_reading(r@) == Some(time.minute_rounded().parts()),
        time.is_rfc3339_exact() ==> rfc3339_reading(r@) == Some(time.parts()),
{
    proof {
        if time.is_rfc3339_exact() {
            lemma_exact_reads_back(*time);
        }
    }
    rfc3339_string(time)
}

/// The moment that RFC 3339 text gives, for text that `chrono` reads.
pub fn datetime_from_str(time: &str) -> (r: DateTime)
    requires
        rfc3339_reading(time@) is Some,
    ensures
        r == DateTime::from_parts(rfc3339_reading(time@).unwrap()),
        r.wf(),
        r.offset % 60 == 0,
{
    let v = chars_of(time);
    assert(v@.subrange(0, v@.len() as int) =~= v@);
    match parse_rfc3339(&v, 0, v.len()) {
        Some(t) => t,
        None => {
            proof {
                assert(false);
            }
            DateTime { secs: 0, nanos: 0, offset: 0 }
        },
    }
}

/// The moment that RFC 3339 text gives, or nothing where `chrono` refuses the text.
pub fn try_datetime_from_str(time: &str) -> (r: Option<DateTime>)
    ensures
        r == reading_as_datetime(rfc3339_reading(time@)),
{
    let v = chars_of(time);
    assert(v@.subrange(0, v@.len() as int) =~= v@);
    match parse_rfc3339(&v, 0, v.len()) {
        Some(_) => Some(datetime_from_str(time)),
        None => None,
    }
}

/// The moment on its own clock as `YYYY-MM-DD hh:mm:ss`.
pub fn datetime_to_readable_str(date: &DateTime) -> (r: String)
    requires
        date.wf(),
    ensures
        r@ == readable_writing(date.secs, date.nanos, date.offset),
        date.is_plain() ==> r@ == readable_text(*date),
{
    readable_string(date)
}

/// What is kept of a moment that `chrono` found on the local clock, as an option.
pub open spec fn kept_moment(u: DateTime) -> Option<DateTime> {
    match kept_reading(u) {
        Ok(t) => Some(t),
        Err(_) => None,
    }
}

/// `r` is what is kept of the moment `secs` seconds after the UNIX epoch, with the offset that
/// the local time zone has then (which offset that is depends on the machine).
pub open spec fn local_timestamp_outcome(secs: int, r: Option<DateTime>) -> bool {
    exists|u: DateTime| u.secs == secs && u.nanos == 0 && u.wf() && #[trigger] kept_moment(u) == r
}

/// The moment `secs_since_epoch` seconds after the UNIX epoch, with the offset of the local
/// time zone at that moment, kept as `keep_local_reading` keeps it; nothing where its RFC 3339
/// text does not read back (where the command stops).
pub fn system_time_to_datetime(secs_since_epoch: u64) -> (r: Option<DateTime>)
    requires
        secs_since_epoch <= MAX_TIMESTAMP,
    ensures
        local_timestamp_outcome(secs_since_epoch as int, r),
        r matches Some(t) ==> t.wf() && t.nanos == 0 && t.offset % 60 == 0,
{
    let u = local_from_timestamp(secs_since_epoch as i64);
    let r = match keep_local_reading(&u) {
        Ok(t) => Some(t),
        Err(_) => None,
    };
    assert(kept_moment(u) == r);
    r
}

} // verus!
