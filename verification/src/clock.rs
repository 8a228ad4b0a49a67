//! The time of creation: what the system clock reports, and the text that a
//! record keeps of it, `YYYY-MM-DDTHH:MM:SSZ`.
//!
//! The clock is read and the text is written by the `time` crate; this module
//! decides which readings have such a text and states what the text is.

use vstd::prelude::*;

verus! {

/// A moment in UTC, broken down into the fields in which the system clock
/// reports it.
#[derive(Clone, Copy, Debug, PartialEq, Eq)]
pub struct ClockReading {
    /// The year, counted from 1900.
    pub years_since_1900: i32,
    /// The month, counted from January, which is 0.
    pub months_since_january: i32,
    /// The day of the month, from 1.
    pub day_of_month: i32,
    /// Hours since midnight.
    pub hours: i32,
    /// Minutes after the hour.
    pub minutes: i32,
    /// Seconds after the minute; 60 in a leap second.
    pub seconds: i32,
}

impl ClockReading {
    /// The year of the common era.
    pub open spec fn year(&self) -> int {
        self.years_since_1900 + 1900
    }

    /// The month, from 1 to 12.
    pub open spec fn month(&self) -> int {
        self.months_since_january + 1
    }

    /// Whether the fields are those of a time of day on a day of a year with
    /// four digits.
    pub open spec fn is_calendar_time(&self) -> bool {
        &&& 1000 <= self.year() <= 9999
        &&& 1 <= self.month() <= 12
        &&& 1 <= self.day_of_month <= 31
        &&& 0 <= self.hours <= 23
        &&& 0 <= self.minutes <= 59
        &&& 0 <= self.seconds <= 60
    }

    /// Whether `self` is the moment of `other` or an earlier one: decided by
    /// the first of year, month, day, hours, minutes and seconds in which the
    /// two differ.
    pub open spec fn not_after(&self, other: ClockReading) -> bool {
        if self.years_since_1900 != other.years_since_1900 {
            self.years_since_1900 < other.years_since_1900
        } else if self.months_since_january != other.months_since_january {
            self.months_since_january < other.months_since_january
        } else if self.day_of_month != other.day_of_month {
            self.day_of_month < other.day_of_month
        } else if self.hours != other.hours {
            self.hours < other.hours
        } else if self.minutes != other.minutes {
            self.minutes < other.minutes
        } else {
            self.seconds <= other.seconds
        }
    }

    /// Tells whether the reading is a calendar time.
    pub fn check_calendar_time(&self) -> (ok: bool)
        ensures
            ok == self.is_calendar_time(),
    {
        -900 <= self.years_since_1900 && self.years_since_1900 <= 8099 && 0
            <= self.months_since_january && self.months_since_january <= 11 && 1
            <= self.day_of_month && self.day_of_month <= 31 && 0 <= self.hours && self.hours <= 23
            && 0 <= self.minutes && self.minutes <= 59 && 0 <= self.seconds && self.seconds <= 60
    }
}

/// The decimal digit for `n`, which is below 10.
pub open spec fn digit(n: int) -> char {
    (0x30 + n) as u8 as char
}

/// Whether `c` is a decimal digit.
pub open spec fn is_digit(c: char) -> bool {
    0x30 <= c as u32 <= 0x39
}

/// The two decimal digits of `n`, which is below 100.
pub open spec fn two_digits(n: int) -> Seq<char> {
    seq![digit(n / 10), digit(n % 10)]
}

/// The four decimal digits of `n`, which is below 10000: the two of its
/// hundreds and the two of what is left.
pub open spec fn four_digits(n: int) -> Seq<char> {
    two_digits(n / 100) + two_digits(n % 100)
}

/// The text of a calendar time: year, month and day with `-` between them,
/// `T`, hours, minutes and seconds with `:` between them, and `Z`.
pub open spec fn timestamp_text(t: ClockReading) -> Seq<char> {
    four_digits(t.year()) + seq!['-'] + two_digits(t.month()) + seq!['-'] + two_digits(
        t.day_of_month as int,
    ) + seq!['T'] + two_digits(t.hours as int) + seq![':'] + two_digits(t.minutes as int)
        + seq![':'] + two_digits(t.seconds as int) + seq!['Z']
}

/// The order of texts: `a` is `b` or comes before it. The first place where
/// the two differ decides; where one ends before they differ, it comes first.
pub open spec fn text_le(a: Seq<char>, b: Seq<char>) -> bool
    decreases a.len(),
{
    if a.len() == 0 {
        true
    } else if b.len() == 0 {
        false
    } else if a[0] != b[0] {
        (a[0] as u32) < (b[0] as u32)
    } else {
        text_le(a.skip(1), b.skip(1))
    }
}

/// Whether `s` has the shape `YYYY-MM-DDTHH:MM:SSZ`, each letter but `T` and
/// `Z` a decimal digit.
pub open spec fn is_timestamp(s: Seq<char>) -> bool {
    &&& s.len() == 20
    &&& is_digit(s[0]) && is_digit(s[1]) && is_digit(s[2]) && is_digit(s[3])
    &&& s[4] == '-'
    &&& is_digit(s[5]) && is_digit(s[6])
    &&& s[7] == '-'
    &&& is_digit(s[8]) && is_digit(s[9])
    &&& s[10] == 'T'
    &&& is_digit(s[11]) && is_digit(s[12])
    &&& s[13] == ':'
    &&& is_digit(s[14]) && is_digit(s[15])
    &&& s[16] == ':'
    &&& is_digit(s[17]) && is_digit(s[18])
    &&& s[19] == 'Z'
}

/// The format in which the text of a calendar time is asked for.
pub open spec fn timestamp_format() -> Seq<char> {
    "%Y-%m-%dT%H:%M:%SZ"@
}

/// The text of every calendar time has the shape of a timestamp.
pub proof fn lemma_timestamp_shape(t: ClockReading)
    requires
        t.is_calendar_time(),
    ensures
        is_timestamp(timestamp_text(t)),
{
}

/// Two texts that start with blocks of one length are ordered as the blocks
/// are, and as what follows them where the blocks are the same.
proof fn lemma_text_le_blocks(p: Seq<char>, q: Seq<char>, x: Seq<char>, y: Seq<char>)
    requires
        p.len() == q.len(),
    ensures
        text_le(p + x, q + y) == (if p == q {
            text_le(x, y)
        } else {
            text_le(p, q)
        }),
    decreases p.len(),
{
    if p.len() == 0 {
        assert(p =~= q);
    } else {
        assert((p + x).skip(1) =~= p.skip(1) + x);
        assert((q + y).skip(1) =~= q.skip(1) + y);
        if p[0] == q[0] {
            lemma_text_le_blocks(p.skip(1), q.skip(1), x, y);
            if p.skip(1) == q.skip(1) {
                assert(p =~= q) by {
                    assert forall|i: int| 0 <= i < p.len() implies p[i] == q[i] by {
                        if i > 0 {
                            assert(p.skip(1)[i - 1] == q.skip(1)[i - 1]);
                        }
                    }
                }
            }
        }
    }
}

/// Numbers below 100 are ordered as their two digits are.
proof fn lemma_two_digits_order(x: int, y: int)
    requires
        0 <= x <= 99,
        0 <= y <= 99,
    ensures
        (two_digits(x) == two_digits(y)) == (x == y),
        text_le(two_digits(x), two_digits(y)) == (x <= y),
{
    reveal_with_fuel(text_le, 3);
}

/// Numbers below 10000 are ordered as their four digits are.
proof fn lemma_four_digits_order(x: int, y: int)
    requires
        0 <= x <= 9999,
        0 <= y <= 9999,
    ensures
        (four_digits(x) == four_digits(y)) == (x == y),
        text_le(four_digits(x), four_digits(y)) == (x <= y),
{
    let (a, b) = (four_digits(x), four_digits(y));
    lemma_two_digits_order(x / 100, y / 100);
    lemma_two_digits_order(x % 100, y % 100);
    lemma_text_le_blocks(
        two_digits(x / 100),
        two_digits(y / 100),
        two_digits(x % 100),
        two_digits(y % 100),
    );
    if a == b {
        assert(two_digits(x / 100) =~= a.take(2));
        assert(two_digits(y / 100) =~= b.take(2));
        assert(two_digits(x % 100) =~= a.skip(2));
        assert(two_digits(y % 100) =~= b.skip(2));
    }
}

/// What follows the year in the text of `t`.
spec fn after_year(t: ClockReading) -> Seq<char> {
    seq!['-'] + (two_digits(t.month()) + after_month(t))
}

/// What follows the month in the text of `t`.
spec fn after_month(t: ClockReading) -> Seq<char> {
    seq!['-'] + (two_digits(t.day_of_month as int) + after_day(t))
}

/// What follows the day in the text of `t`.
spec fn after_day(t: ClockReading) -> Seq<char> {
    seq!['T'] + (two_digits(t.hours as int) + after_hours(t))
}

/// What follows the hours in the text of `t`.
spec fn after_hours(t: ClockReading) -> Seq<char> {
    seq![':'] + (two_digits(t.minutes as int) + after_minutes(t))
}

/// What follows the minutes in the text of `t`.
spec fn after_minutes(t: ClockReading) -> Seq<char> {
    seq![':'] + (two_digits(t.seconds as int) + seq!['Z'])
}

/// A field of two digits behind a separator, in two texts: the texts are
/// ordered as the fields are, and as what follows where the fields are equal.
proof fn lemma_field_order(
    mark: char,
    x: int,
    y: int,
    rest_x: Seq<char>,
    rest_y: Seq<char>,
)
    requires
        0 <= x <= 99,
        0 <= y <= 99,
    ensures
        text_le(seq![mark] + (two_digits(x) + rest_x), seq![mark] + (two_digits(y) + rest_y)) == (
        if x == y {
            text_le(rest_x, rest_y)
        } else {
            x < y
        }),
{
    lemma_two_digits_order(x, y);
    lemma_text_le_blocks(two_digits(x), two_digits(y), rest_x, rest_y);
    lemma_text_le_blocks(
        seq![mark],
        seq![mark],
        two_digits(x) + rest_x,
        two_digits(y) + rest_y,
    );
}

/// The texts of two calendar times are ordered as the times are: the text of
/// the earlier comes first.
pub proof fn lemma_timestamp_order(a: ClockReading, b: ClockReading)
    requires
        a.is_calendar_time(),
        b.is_calendar_time(),
    ensures
        text_le(timestamp_text(a), timestamp_text(b)) == a.not_after(b),
{
    assert(timestamp_text(a) =~= four_digits(a.year()) + after_year(a));
    assert(timestamp_text(b) =~= four_digits(b.year()) + after_year(b));
    lemma_four_digits_order(a.year(), b.year());
    lemma_text_le_blocks(
        four_digits(a.year()),
        four_digits(b.year()),
        after_year(a),
        after_year(b),
    );
    lemma_field_order('-', a.month(), b.month(), after_month(a), after_month(b));
    lemma_field_order(
        '-',
        a.day_of_month as int,
        b.day_of_month as int,
        after_day(a),
        after_day(b),
    );
    lemma_field_order('T', a.hours as int, b.hours as int, after_hours(a), after_hours(b));
    lemma_field_order(':', a.minutes as int, b.minutes as int, after_minutes(a), after_minutes(b));
    lemma_field_order(':', a.seconds as int, b.seconds as int, seq!['Z'], seq!['Z']);
    assert(text_le(seq!['Z'], seq!['Z'])) by {
        reveal_with_fuel(text_le, 2);
    }
}

/// The error of `time::strftime`.
#[verifier::external_type_specification]
#[verifier::external_body]
pub struct ExParseError(time::ParseError);

/// `time::now_utc`: the time that the system clock gives, in UTC whatever the
/// time zone of the process, field by field. Nothing is claimed of the fields.
/// The call does not return where the system cannot break its time down.
#[verifier::external_body]
pub(crate) fn now_utc() -> ClockReading {
    let tm = time::now_utc();
    ClockReading {
        years_since_1900: tm.tm_year,
        months_since_january: tm.tm_mon,
        day_of_month: tm.tm_mday,
        hours: tm.tm_hour,
        minutes: tm.tm_min,
        seconds: tm.tm_sec,
    }
}

/// `time::strftime` with the format of a timestamp, on a calendar time whose
/// other fields are those of `time::empty_tm`. It succeeds, since the month
/// is one of the twelve. For `%Y` it writes the year in decimal, which here
/// has four digits; for `%m` the month from 01; for `%d`, `%H`, `%M` and `%S`
/// the field with two digits; and each other letter of the format as it is.
#[verifier::external_body]
fn strftime(format: &str, t: &ClockReading) -> (r: Result<String, time::ParseError>)
    requires
        format@ == timestamp_format(),
        t.is_calendar_time(),
    ensures
        r is Ok,
        r matches Ok(s) ==> s@ == timestamp_text(*t),
{
    let tm = time::Tm {
        tm_year: t.years_since_1900,
        tm_mon: t.months_since_january,
        tm_mday: t.day_of_month,
        tm_hour: t.hours,
        tm_min: t.minutes,
        tm_sec: t.seconds,
        ..time::empty_tm()
    };
    time::strftime(format, &tm)
}

/// The text of `t`, where `t` is a calendar time.
pub fn timestamp_at(t: &ClockReading) -> (r: Option<String>)
    ensures
        r is Some <==> t.is_calendar_time(),
        r matches Some(s) ==> s@ == timestamp_text(*t) && is_timestamp(s@),
{
    if !t.check_calendar_time() {
        return None;
    }
    proof {
        lemma_timestamp_shape(*t);
    }
    match strftime("%Y-%m-%dT%H:%M:%SZ", t) {
        Ok(s) => Some(s),
        Err(_) => None,
    }
}

/// The text of the present moment in UTC, where the clock gives a calendar
/// time.
pub fn now_iso_8601() -> (r: Option<String>)
    ensures
        r matches Some(s) ==> is_timestamp(s@) && exists|t: ClockReading|
            t.is_calendar_time() && s@ == #[trigger] timestamp_text(t),
{
    let now = now_utc();
    timestamp_at(&now)
}

} // verus!
