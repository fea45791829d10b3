//! A moment in time with a fixed UTC offset, the proleptic Gregorian calendar it is read in,
//! and the calls into `chrono` that read, write and find such moments.
use vstd::prelude::*;

use chrono::{Datelike, Local, Offset, TimeZone};

verus! {

/// The earliest and latest UNIX timestamps that `chrono` represents
/// (-262143-01-01T00:00:00Z and +262142-12-31T23:59:59Z).
pub const MIN_TIMESTAMP: i64 = -8334601228800i64;

pub const MAX_TIMESTAMP: i64 = 8210266876799i64;

/// A moment with a fixed offset from UTC: whole seconds since 1970-01-01T00:00:00Z,
/// nanoseconds past that second (past 10^9 only inside a leap second), and the offset
/// in seconds that local clocks are ahead of UTC.
#[derive(Clone, Copy, Debug, PartialEq, Eq, Structural)]
pub struct DateTime {
    pub secs: i64,
    pub nanos: u32,
    pub offset: i32,
}

/// A span between two moments: a session (start, end), or a date range (first, last).
#[derive(Clone, Copy, Debug, PartialEq, Eq, Structural)]
pub struct DateRange(pub DateTime, pub DateTime);

impl DateTime {
    /// The values that `chrono` can hold.
    pub open spec fn wf(self) -> bool {
        &&& MIN_TIMESTAMP <= self.secs <= MAX_TIMESTAMP
        &&& -86400 < self.offset < 86400
        &&& (self.nanos < 1_000_000_000 || (self.nanos < 2_000_000_000 && self.secs % 60 == 59))
    }

    /// Seconds since 1970-01-01T00:00:00 on the local clock of this moment.
    pub open spec fn wall(self) -> int {
        self.secs + self.offset
    }

    /// The local calendar day (days since 1970-01-01) and second of that day.
    pub open spec fn wall_day(self) -> int {
        self.wall() / 86400
    }

    pub open spec fn wall_second_of_day(self) -> int {
        self.wall() % 86400
    }

    /// The moment's fields as a tuple, the form in which outside readings are named.
    pub open spec fn parts(self) -> (i64, u32, i32) {
        (self.secs, self.nanos, self.offset)
    }

    pub open spec fn from_parts(p: (i64, u32, i32)) -> DateTime {
        DateTime { secs: p.0, nanos: p.1, offset: p.2 }
    }

    /// The local clock of the moment shows a year from 0 to 9999.
    pub open spec fn in_four_digit_years(self) -> bool {
        -62167219200 <= self.wall() < 253402300800
    }

    /// No leap second, and a local year from 0 to 9999: the moments that print
    /// as four-digit years with two-digit fields.
    pub open spec fn is_plain(self) -> bool {
        &&& self.wf()
        &&& self.nanos < 1_000_000_000
        &&& self.in_four_digit_years()
    }

    /// The moments whose RFC 3339 text is stated: a local year from 0 to 9999.
    pub open spec fn has_rfc3339_text(self) -> bool {
        self.wf() && self.in_four_digit_years()
    }

    /// The moments whose RFC 3339 text reads back: stated text, an offset that rounds to less
    /// than a day, and no leap second unless the offset is of whole minutes.
    pub open spec fn reads_back_rounded(self) -> bool {
        &&& self.has_rfc3339_text()
        &&& -86400 < minute_offset(self.offset as int) < 86400
        &&& (self.nanos < 1_000_000_000 || self.offset % 60 == 0)
    }

    /// The same local date and time with the offset rounded to whole minutes, as RFC 3339
    /// text keeps it.
    pub open spec fn minute_rounded(self) -> DateTime {
        DateTime {
            secs: (self.wall() - minute_offset(self.offset as int)) as i64,
            nanos: self.nanos,
            offset: minute_offset(self.offset as int) as i32,
        }
    }

    /// Stated text and an offset of whole minutes: the moments that RFC 3339 text gives back
    /// exactly (leap seconds included).
    pub open spec fn is_rfc3339_exact(self) -> bool {
        self.has_rfc3339_text() && self.offset % 60 == 0
    }

    /// Whether `chrono` can hold this moment.
    pub fn is_valid(&self) -> (r: bool)
        ensures
            r == self.wf(),
    {
        if !(MIN_TIMESTAMP <= self.secs && self.secs <= MAX_TIMESTAMP && -86400 < self.offset
            && self.offset < 86400) {
            return false;
        }
        let shifted = (self.secs - MIN_TIMESTAMP) as u64;
        assert(MIN_TIMESTAMP % 60 == 0);
        assert(shifted % 60 == self.secs % 60);
        self.nanos < 1_000_000_000 || (self.nanos < 2_000_000_000 && shifted % 60 == 59)
    }

    /// Whether the moment's RFC 3339 text reads back (`reads_back_rounded`).
    pub fn rfc3339_reads_back(&self) -> (r: bool)
        ensures
            r == self.reads_back_rounded(),
    {
        if !self.is_valid() {
            return false;
        }
        let wall = self.secs as i64 + self.offset as i64;
        if !(-62167219200 <= wall && wall < 253402300800) {
            return false;
        }
        let a: i64 = if self.offset < 0 { -(self.offset as i64) } else { self.offset as i64 };
        let rounded = (a + 30) / 60 * 60;
        assert(rounded == if self.offset < 0 { -minute_offset(self.offset as int) } else { minute_offset(self.offset as int) });
        if rounded >= 86400 {
            return false;
        }
        let whole_minutes = a % 60 == 0;
        assert(whole_minutes == (self.offset % 60 == 0));
        self.nanos < 1_000_000_000 || whole_minutes
    }

    /// The UNIX timestamp of this moment, in whole seconds.
    pub fn timestamp(&self) -> (r: i64)
        ensures
            r == self.secs,
    {
        self.secs
    }

    /// Nanoseconds past the whole second.
    pub fn subsec_nanos(&self) -> (r: u32)
        ensures
            r == self.nanos,
    {
        self.nanos
    }

    /// Seconds that the local clock of this moment is ahead of UTC.
    pub fn offset_seconds(&self) -> (r: i32)
        ensures
            r == self.offset,
    {
        self.offset
    }
}

impl DateRange {
    /// Length of the session in whole seconds, as the difference of the two timestamps.
    pub fn length_seconds(&self) -> (r: i64)
        requires
            self.0.wf(),
            self.1.wf(),
        ensures
            r == self.1.secs - self.0.secs,
    {
        self.1.secs - self.0.secs
    }
}

// ---- The proleptic Gregorian calendar ----

pub open spec fn is_leap_year(y: int) -> bool {
    y % 4 == 0 && (y % 100 != 0 || y % 400 == 0)
}

pub open spec fn days_in_month(y: int, m: int) -> int {
    if m == 2 {
        if is_leap_year(y) { 29 } else { 28 }
    } else if m == 4 || m == 6 || m == 9 || m == 11 {
        30
    } else {
        31
    }
}

/// A real calendar date within the years that `chrono` accepts.
pub open spec fn is_valid_date(y: int, m: int, d: int) -> bool {
    &&& -262143 <= y <= 262142
    &&& 1 <= m <= 12
    &&& 1 <= d <= days_in_month(y, m)
}

/// Leap years counted from year 1 up to and including year `y` (for positive `y`).
pub open spec fn leap_count(y: int) -> int {
    y / 4 - y / 100 + y / 400
}

/// Days in the months of a year before month `m`, leap day aside.
pub open spec fn days_before_month(m: int) -> int {
    if m <= 1 { 0 }
    else if m == 2 { 31 }
    else if m == 3 { 59 }
    else if m == 4 { 90 }
    else if m == 5 { 120 }
    else if m == 6 { 151 }
    else if m == 7 { 181 }
    else if m == 8 { 212 }
    else if m == 9 { 243 }
    else if m == 10 { 273 }
    else if m == 11 { 304 }
    else { 334 }
}

/// Days from 1970-01-01 to the date `y-m-d` (negative before it).
pub open spec fn days_from_civil(y: int, m: int, d: int) -> int {
    365 * (y - 1970) + (leap_count(y - 1) - leap_count(1969)) + days_before_month(m) + (if is_leap_year(y)
        && m > 2 { 1int } else { 0int }) + d - 1
}

/// Seconds from 1970-01-01T00:00:00 to `y-m-d h:mi:s`, all read on one clock.
pub open spec fn civil_seconds(y: int, m: int, d: int, h: int, mi: int, s: int) -> int {
    days_from_civil(y, m, d) * 86400 + h * 3600 + mi * 60 + s
}

/// The date whose day number is `day`.
pub open spec fn civil_from_days(day: int) -> (int, int, int) {
    choose|ymd: (int, int, int)|
        is_valid_date(ymd.0, ymd.1, ymd.2) && days_from_civil(ymd.0, ymd.1, ymd.2) == day
}

/// A year has 365 days, or 366 in a leap year.
proof fn lemma_next_year_start(y: int)
    ensures
        days_from_civil(y + 1, 1, 1) == days_from_civil(y, 1, 1) + 365 + (if is_leap_year(y) { 1int } else { 0int }),
{
    assert(leap_count(y) - leap_count(y - 1) == (if is_leap_year(y) { 1int } else { 0int }));
}

/// A valid date falls within its own year.
proof fn lemma_day_in_year(y: int, m: int, d: int)
    requires
        is_valid_date(y, m, d),
    ensures
        days_from_civil(y, 1, 1) <= days_from_civil(y, m, d) < days_from_civil(y + 1, 1, 1),
{
    lemma_next_year_start(y);
}

/// Years start later and later.
proof fn lemma_year_starts_grow(y1: int, y2: int)
    requires
        y1 < y2,
    ensures
        days_from_civil(y1 + 1, 1, 1) <= days_from_civil(y2, 1, 1),
    decreases y2 - y1,
{
    if y1 + 1 < y2 {
        lemma_year_starts_grow(y1, y2 - 1);
        lemma_next_year_start(y2 - 1);
    }
}

/// Later valid dates have larger day numbers.
proof fn lemma_days_grow(y1: int, m1: int, d1: int, y2: int, m2: int, d2: int)
    requires
        is_valid_date(y1, m1, d1),
        is_valid_date(y2, m2, d2),
        y1 < y2 || (y1 == y2 && m1 < m2) || (y1 == y2 && m1 == m2 && d1 < d2),
    ensures
        days_from_civil(y1, m1, d1) < days_from_civil(y2, m2, d2),
{
    if y1 < y2 {
        lemma_day_in_year(y1, m1, d1);
        lemma_day_in_year(y2, m2, d2);
        lemma_year_starts_grow(y1, y2);
    }
}

/// Each valid date has its own day number, so `civil_from_days` gives the date back.
pub proof fn lemma_civil_from_days(y: int, m: int, d: int)
    requires
        is_valid_date(y, m, d),
    ensures
        civil_from_days(days_from_civil(y, m, d)) == (y, m, d),
{
    let day = days_from_civil(y, m, d);
    assert(is_valid_date((y, m, d).0, (y, m, d).1, (y, m, d).2) && days_from_civil((y, m, d).0, (y, m, d).1, (y, m, d).2) == day);
    let c = civil_from_days(day);
    if c.0 < y || (c.0 == y && c.1 < m) || (c.0 == y && c.1 == m && c.2 < d) {
        lemma_days_grow(c.0, c.1, c.2, y, m, d);
    } else if c != (y, m, d) {
        lemma_days_grow(y, m, d, c.0, c.1, c.2);
    }
}

// ---- Text of moments ----

/// The decimal digit of `n` modulo 10.
pub open spec fn digit(n: int) -> char {
    ((n % 10) + 48) as char
}

pub open spec fn two_digits(n: int) -> Seq<char> {
    seq![digit(n / 10), digit(n)]
}

pub open spec fn three_digits(n: int) -> Seq<char> {
    seq![digit(n / 100), digit(n / 10), digit(n)]
}

pub open spec fn four_digits(n: int) -> Seq<char> {
    seq![digit(n / 1000), digit(n / 100), digit(n / 10), digit(n)]
}

pub open spec fn six_digits(n: int) -> Seq<char> {
    three_digits(n / 1000) + three_digits(n)
}

pub open spec fn nine_digits(n: int) -> Seq<char> {
    three_digits(n / 1000000) + three_digits(n / 1000) + three_digits(n)
}

/// `YYYY-MM-DD` of the local date, then `sep`, then `hh:mm:` of the local time.
pub open spec fn date_and_minute_text(t: DateTime, sep: char) -> Seq<char> {
    let (y, m, d) = civil_from_days(t.wall_day());
    let s = t.wall_second_of_day();
    four_digits(y) + seq!['-'] + two_digits(m) + seq!['-'] + two_digits(d) + seq![sep] + two_digits(
        s / 3600,
    ) + seq![':'] + two_digits((s / 60) % 60) + seq![':']
}

/// The offset rounded to the nearest whole minute, halves away from zero, in seconds.
pub open spec fn minute_offset(offset: int) -> int {
    if offset < 0 {
        -(((-offset) + 30) / 60 * 60)
    } else {
        (offset + 30) / 60 * 60
    }
}

/// 1 inside a leap second (nanoseconds past 10^9), else 0.
pub open spec fn leap(nanos: int) -> int {
    if nanos >= 1_000_000_000 { 1 } else { 0 }
}

/// The fraction of a second as RFC 3339 text: none, or 3, 6 or 9 digits, the fewest that are exact.
pub open spec fn fraction_text(nanos: int) -> Seq<char> {
    if nanos == 0 {
        Seq::empty()
    } else if nanos % 1000000 == 0 {
        seq!['.'] + three_digits(nanos / 1000000)
    } else if nanos % 1000 == 0 {
        seq!['.'] + six_digits(nanos / 1000)
    } else {
        seq!['.'] + nine_digits(nanos)
    }
}

/// The offset as `+hh:mm` or `-hh:mm`, rounded to the nearest minute; the sign is that of the
/// offset itself.
pub open spec fn offset_text(offset: int) -> Seq<char> {
    let a = if offset < 0 { -offset } else { offset };
    let minutes = (a + 30) / 60;
    seq![if offset < 0 { '-' } else { '+' }] + two_digits(minutes / 60) + seq![':'] + two_digits(
        minutes % 60,
    )
}

/// RFC 3339 text of a moment, e.g. `2021-12-10T09:59:28-05:00`; a leap second shows as `:60`.
pub open spec fn rfc3339_text(t: DateTime) -> Seq<char> {
    let l = leap(t.nanos as int);
    date_and_minute_text(t, 'T') + two_digits(t.wall_second_of_day() % 60 + l) + fraction_text(
        t.nanos - l * 1_000_000_000,
    ) + offset_text(t.offset as int)
}

/// `YYYY-MM-DD hh:mm:ss` of the local clock.
pub open spec fn readable_text(t: DateTime) -> Seq<char> {
    date_and_minute_text(t, ' ') + two_digits(t.wall_second_of_day() % 60)
}

/// The characters of RFC 3339 text: digits and `-T:.+`.
pub open spec fn is_rfc3339_char(c: char) -> bool {
    ('0' <= c <= '9') || c == '-' || c == 'T' || c == ':' || c == '.' || c == '+'
}

pub open spec fn all_rfc3339_chars(s: Seq<char>) -> bool {
    forall|i: int| 0 <= i < s.len() ==> is_rfc3339_char(#[trigger] s[i])
}

proof fn lemma_digit(n: int)
    ensures
        '0' <= digit(n) <= '9',
{
    assert(0 <= n % 10 < 10);
}

proof fn lemma_concat_chars(a: Seq<char>, b: Seq<char>)
    requires
        all_rfc3339_chars(a),
        all_rfc3339_chars(b),
    ensures
        all_rfc3339_chars(a + b),
{
    assert forall|i: int| 0 <= i < (a + b).len() implies is_rfc3339_char(#[trigger] (a + b)[i]) by {
        if i < a.len() {
            assert((a + b)[i] == a[i]);
        } else {
            assert((a + b)[i] == b[i - a.len()]);
        }
    }
}

proof fn lemma_three_digits(n: int)
    ensures
        all_rfc3339_chars(three_digits(n)),
{
    lemma_digit(n / 100);
    lemma_digit(n / 10);
    lemma_digit(n);
}

proof fn lemma_two_digits(n: int)
    ensures
        all_rfc3339_chars(two_digits(n)),
{
    lemma_digit(n / 10);
    lemma_digit(n);
}

proof fn lemma_six_digits(n: int)
    ensures
        all_rfc3339_chars(six_digits(n)),
{
    lemma_three_digits(n / 1000);
    lemma_three_digits(n);
    lemma_concat_chars(three_digits(n / 1000), three_digits(n));
}

proof fn lemma_nine_digits(n: int)
    ensures
        all_rfc3339_chars(nine_digits(n)),
{
    lemma_three_digits(n / 1000000);
    lemma_three_digits(n / 1000);
    lemma_three_digits(n);
    lemma_concat_chars(three_digits(n / 1000000), three_digits(n / 1000));
    lemma_concat_chars(three_digits(n / 1000000) + three_digits(n / 1000), three_digits(n));
}

proof fn lemma_fraction_text(n: int)
    ensures
        all_rfc3339_chars(fraction_text(n)),
{
    let dot = seq!['.'];
    assert(all_rfc3339_chars(dot));
    lemma_three_digits(n / 1000000);
    lemma_six_digits(n / 1000);
    lemma_nine_digits(n);
    lemma_concat_chars(dot, three_digits(n / 1000000));
    lemma_concat_chars(dot, six_digits(n / 1000));
    lemma_concat_chars(dot, nine_digits(n));
}

proof fn lemma_offset_text(o: int)
    ensures
        all_rfc3339_chars(offset_text(o)),
{
    let a = if o < 0 { -o } else { o };
    let minutes = (a + 30) / 60;
    let sign = seq![if o < 0 { '-' } else { '+' }];
    let colon = seq![':'];
    assert(all_rfc3339_chars(sign));
    assert(all_rfc3339_chars(colon));
    lemma_two_digits(minutes / 60);
    lemma_two_digits(minutes % 60);
    lemma_concat_chars(sign, two_digits(minutes / 60));
    lemma_concat_chars(sign + two_digits(minutes / 60), colon);
    lemma_concat_chars(sign + two_digits(minutes / 60) + colon, two_digits(minutes % 60));
}

proof fn lemma_date_and_minute_text(t: DateTime)
    ensures
        date_and_minute_text(t, 'T').len() > 0,
        all_rfc3339_chars(date_and_minute_text(t, 'T')),
{
    let (y, m, d) = civil_from_days(t.wall_day());
    let s = t.wall_second_of_day();
    lemma_digit(y / 1000);
    lemma_digit(y / 100);
    lemma_digit(y / 10);
    lemma_digit(y);
    assert(all_rfc3339_chars(four_digits(y)));
    lemma_two_digits(m);
    lemma_two_digits(d);
    lemma_two_digits(s / 3600);
    lemma_two_digits((s / 60) % 60);
    let sep = seq!['-'];
    let tt = seq!['T'];
    let colon = seq![':'];
    assert(all_rfc3339_chars(sep));
    assert(all_rfc3339_chars(tt));
    assert(all_rfc3339_chars(colon));
    let mut acc = four_digits(y);
    lemma_concat_chars(acc, sep);
    acc = acc + sep;
    lemma_concat_chars(acc, two_digits(m));
    acc = acc + two_digits(m);
    lemma_concat_chars(acc, sep);
    acc = acc + sep;
    lemma_concat_chars(acc, two_digits(d));
    acc = acc + two_digits(d);
    lemma_concat_chars(acc, tt);
    acc = acc + tt;
    lemma_concat_chars(acc, two_digits(s / 3600));
    acc = acc + two_digits(s / 3600);
    lemma_concat_chars(acc, colon);
    acc = acc + colon;
    lemma_concat_chars(acc, two_digits((s / 60) % 60));
    acc = acc + two_digits((s / 60) % 60);
    lemma_concat_chars(acc, colon);
    acc = acc + colon;
    assert(acc == date_and_minute_text(t, 'T'));
}

/// RFC 3339 text of a moment is not empty and holds only digits and `-T:.+`.
pub proof fn lemma_rfc3339_text_plain(t: DateTime)
    ensures
        rfc3339_text(t).len() > 0,
        all_rfc3339_chars(rfc3339_text(t)),
{
    let l = leap(t.nanos as int);
    let head = date_and_minute_text(t, 'T');
    let sec = two_digits(t.wall_second_of_day() % 60 + l);
    let frac = fraction_text(t.nanos - l * 1_000_000_000);
    let off = offset_text(t.offset as int);
    lemma_date_and_minute_text(t);
    lemma_two_digits(t.wall_second_of_day() % 60 + l);
    lemma_fraction_text(t.nanos - l * 1_000_000_000);
    lemma_offset_text(t.offset as int);
    lemma_concat_chars(head, sec);
    lemma_concat_chars(head + sec, frac);
    lemma_concat_chars(head + sec + frac, off);
}

/// An offset of whole minutes rounds to itself.
pub proof fn lemma_whole_minutes_round_to_themselves(o: int)
    requires
        o % 60 == 0,
    ensures
        minute_offset(o) == o,
{
    let a = if o < 0 { -o } else { o };
    assert(a % 60 == 0);
    let k = (a + 30) / 60;
    assert(k * 60 == a) by (nonlinear_arith)
        requires
            k == (a + 30) / 60,
            a % 60 == 0,
            a >= 0,
    ;
}

/// An exact moment reads back as itself.
pub proof fn lemma_exact_reads_back(t: DateTime)
    requires
        t.is_rfc3339_exact(),
    ensures
        t.reads_back_rounded(),
        t.minute_rounded() == t,
{
    lemma_whole_minutes_round_to_themselves(t.offset as int);
}

/// Rounding an offset of whole minutes leaves it as it is; a rounded offset is of whole
/// minutes; rounding keeps the local clock.
pub proof fn lemma_minute_rounded(t: DateTime)
    requires
        t.reads_back_rounded(),
    ensures
        minute_offset(t.offset as int) % 60 == 0,
        t.offset % 60 == 0 ==> t.minute_rounded() == t,
        t.minute_rounded().wall() == t.wall(),
        t.minute_rounded().wf(),
        t.minute_rounded().offset % 60 == 0,
{
    let o = t.offset as int;
    let a = if o < 0 { -o } else { o };
    let k = (a + 30) / 60;
    assert((k * 60) % 60 == 0) by (nonlinear_arith);
    assert((-(k * 60)) % 60 == 0) by (nonlinear_arith);
    if o % 60 == 0 {
        lemma_whole_minutes_round_to_themselves(o);
    }
    let r = t.minute_rounded();
    assert(r.offset == minute_offset(o));
    assert(r.wall() == t.wall());
}

// ---- Names for what chrono computes ----

/// What `chrono::DateTime::parse_from_rfc3339` reads from a text: the timestamp,
/// nanoseconds and offset, or nothing where it refuses the text.
pub uninterp spec fn rfc3339_reading(text: Seq<char>) -> Option<(i64, u32, i32)>;

/// What `chrono::DateTime::to_rfc3339` writes for a moment.
pub uninterp spec fn rfc3339_writing(secs: i64, nanos: u32, offset: i32) -> Seq<char>;

/// What `format("%Y-%m-%d %H:%M:%S")` of `chrono` writes for a moment.
pub uninterp spec fn readable_writing(secs: i64, nanos: u32, offset: i32) -> Seq<char>;

pub open spec fn reading_as_datetime(r: Option<(i64, u32, i32)>) -> Option<DateTime> {
    match r {
        Some(p) => Some(DateTime::from_parts(p)),
        None => None,
    }
}

/// `chrono::DateTime::<FixedOffset>::to_rfc3339` of the moment. For a local year from 0 to 9999
/// the text is stated exactly (four-digit year, `T`, seconds `60` inside a leap second, the
/// fewest fraction digits of 3, 6 or 9 that are exact, the offset rounded to `+hh:mm`); where
/// it `reads_back_rounded`, `parse_from_rfc3339` reads back the same local date and time with
/// the rounded offset. Outside those moments the text is only named.
#[verifier::external_body]
pub(crate) fn rfc3339_string(t: &DateTime) -> (s: String)
    requires
        t.wf(),
    ensures
        s@ == rfc3339_writing(t.secs, t.nanos, t.offset),
        t.has_rfc3339_text() ==> s@ == rfc3339_text(*t),
        t.reads_back_rounded() ==> rfc3339_reading(s@) == Some(t.minute_rounded().parts()),
{
    let tz = chrono::FixedOffset::east_opt(t.offset).unwrap();
    tz.timestamp_opt(t.secs, t.nanos).unwrap().to_rfc3339()
}

/// `chrono::DateTime::parse_from_rfc3339` of the characters `text[lo..hi]`. What it reads is
/// named; what it gives back is a moment that `chrono` can hold, with an offset of whole minutes.
#[verifier::external_body]
pub(crate) fn parse_rfc3339(text: &Vec<char>, lo: usize, hi: usize) -> (r: Option<DateTime>)
    requires
        lo <= hi <= text.len(),
    ensures
        r == reading_as_datetime(rfc3339_reading(text@.subrange(lo as int, hi as int))),
        r matches Some(t) ==> t.wf() && t.offset % 60 == 0,
{
    let s: String = text[lo..hi].iter().collect();
    match chrono::DateTime::parse_from_rfc3339(&s) {
        Ok(t) => Some(
            DateTime {
                secs: t.timestamp(),
                nanos: t.timestamp_subsec_nanos(),
                offset: t.offset().local_minus_utc(),
            },
        ),
        Err(_) => None,
    }
}

/// `format("%Y-%m-%d %H:%M:%S")` of `chrono` on the moment, read on its own clock.
/// For a plain moment the text is stated; otherwise it is only named.
#[verifier::external_body]
pub(crate) fn readable_string(t: &DateTime) -> (s: String)
    requires
        t.wf(),
    ensures
        s@ == readable_writing(t.secs, t.nanos, t.offset),
        t.is_plain() ==> s@ == readable_text(*t),
{
    let tz = chrono::FixedOffset::east_opt(t.offset).unwrap();
    tz.timestamp_opt(t.secs, t.nanos).unwrap().format("%Y-%m-%d %H:%M:%S").to_string()
}

/// `chrono::Local.with_ymd_and_hms(..).single()`: the moment at which the local clock reads
/// `y-m-d h:mi:s`. Nothing where the date or time does not exist, or where the local time zone
/// skips or repeats that reading; which readings it skips or repeats depends on the time zone
/// of the machine, and is not stated.
#[verifier::external_body]
pub(crate) fn local_date_time(y: i32, m: u32, d: u32, h: u32, mi: u32, s: u32) -> (r: Option<DateTime>)
    ensures
        r matches Some(t) ==> t.wf() && t.nanos == 0 && t.wall() == civil_seconds(
            y as int,
            m as int,
            d as int,
            h as int,
            mi as int,
            s as int,
        ),
        !(is_valid_date(y as int, m as int, d as int) && h < 24 && mi < 60 && s < 60) ==> r
            is None,
{
    match Local.with_ymd_and_hms(y, m, d, h, mi, s).single() {
        Some(t) => Some(
            DateTime {
                secs: t.timestamp(),
                nanos: t.timestamp_subsec_nanos(),
                offset: t.offset().fix().local_minus_utc(),
            },
        ),
        None => None,
    }
}

/// `chrono::Local::now()`: the current moment on the local clock, and its local date.
/// Which moment that is depends on the clock and time zone of the machine.
#[verifier::external_body]
pub(crate) fn local_now() -> (r: (DateTime, i32, u32, u32))
    ensures
        r.0.wf(),
        r.0.nanos < 1_000_000_000,
        is_valid_date(r.1 as int, r.2 as int, r.3 as int),
        days_from_civil(r.1 as int, r.2 as int, r.3 as int) == r.0.wall_day(),
{
    let now = Local::now();
    let day = now.date_naive();
    (
        DateTime {
            secs: now.timestamp(),
            nanos: now.timestamp_subsec_nanos(),
            offset: now.offset().fix().local_minus_utc(),
        },
        day.year(),
        day.month(),
        day.day(),
    )
}

/// `chrono::Local.timestamp(secs, 0)`: the moment `secs` seconds after the UNIX epoch, with the
/// offset that the local time zone has then (which offset depends on the machine).
#[verifier::external_body]
#[allow(deprecated)]
pub(crate) fn local_from_timestamp(secs: i64) -> (t: DateTime)
    requires
        MIN_TIMESTAMP <= secs <= MAX_TIMESTAMP,
    ensures
        t.wf(),
        t.secs == secs,
        t.nanos == 0,
{
    let t = Local.timestamp(secs, 0);
    DateTime {
        secs: t.timestamp(),
        nanos: t.timestamp_subsec_nanos(),
        offset: t.offset().fix().local_minus_utc(),
    }
}

} // verus!
