//! Instants of a run and how a record states them: as RFC 3339 text
//! (written by chrono) and as the whole milliseconds between them.
use vstd::prelude::*;
use crate::text::{decimal, digit, digit_char, push_all, push_decimal};

verus! {

/// An instant on the UTC time line: whole seconds since the Unix epoch and
/// nanoseconds within that second.
#[derive(Clone, Copy, Debug, PartialEq, Eq, Structural)]
pub struct UtcInstant {
    pub secs: i64,
    pub nanos: u32,
}

/// The first second that chrono's `DateTime<Utc>` can hold: the timestamp
/// of `DateTime::<Utc>::MIN_UTC`, year -262143, January 1, 00:00:00.
pub const MIN_SECS: i64 = -8_334_601_228_800i64;

/// The last second that chrono's `DateTime<Utc>` can hold: the timestamp
/// of `DateTime::<Utc>::MAX_UTC`, year 262142, December 31, 23:59:59.
pub const MAX_SECS: i64 = 8_210_266_876_799i64;

/// An instant that chrono can hold without a leap second.
pub open spec fn representable(t: UtcInstant) -> bool {
    &&& t.nanos < 1_000_000_000
    &&& MIN_SECS <= t.secs <= MAX_SECS
}

/// The text that chrono's `DateTime::<Utc>::to_rfc3339` gives for the
/// instant `secs` seconds and `nanos` nanoseconds after the Unix epoch.
pub uninterp spec fn rfc3339_text(secs: i64, nanos: u32) -> Seq<char>;

/// The characters that RFC 3339 text is made of here: ASCII digits and
/// `-`, `+`, `:`, `T`, `.` and `Z`.
pub open spec fn rfc3339_char(c: char) -> bool {
    ||| ('0' <= c && c <= '9')
    ||| c == '-'
    ||| c == '+'
    ||| c == ':'
    ||| c == 'T'
    ||| c == '.'
    ||| c == 'Z'
}

/// The instant in RFC 3339, such as `2025-10-22T15:30:45+00:00`.
///
/// Calls `chrono::DateTime::from_timestamp` (which gives `Some` for every
/// representable instant) and `DateTime::to_rfc3339` on the result. The
/// contract names that text and says only that it is made of digits and the
/// fixed characters that chrono's `write_rfc3339` writes (the signs of the
/// year and the offset, `-`, `T`, `:` and `.`), so it holds no line break.
#[verifier::external_body]
pub(crate) fn to_rfc3339(t: UtcInstant) -> (r: String)
    requires
        representable(t),
    ensures
        r@ == rfc3339_text(t.secs, t.nanos),
        forall|i: int| 0 <= i < r@.len() ==> rfc3339_char(#[trigger] r@[i]),
{
    chrono::DateTime::from_timestamp(t.secs, t.nanos).unwrap_or_default().to_rfc3339()
}

/// Whole milliseconds from `start` to `end`, rounded toward zero (negative
/// when `end` is before `start`).
pub open spec fn elapsed_ms(start: UtcInstant, end: UtcInstant) -> int {
    let d: int = (end.secs - start.secs) * 1_000_000_000 + (end.nanos - start.nanos);
    if d >= 0 {
        d / 1_000_000
    } else {
        -((-d) / 1_000_000)
    }
}

/// The duration of a run that started at `start` and ended at `end`, in
/// whole milliseconds: what chrono's `TimeDelta::num_milliseconds` gives for
/// `end - start`.
pub fn duration_ms(start: UtcInstant, end: UtcInstant) -> (r: i64)
    requires
        representable(start),
        representable(end),
    ensures
        r == elapsed_ms(start, end),
{
    let ds: i128 = end.secs as i128 - start.secs as i128;
    let dn: i128 = end.nanos as i128 - start.nanos as i128;
    let d: i128 = ds * 1_000_000_000i128 + dn;
    if d >= 0 {
        let m: u128 = d as u128;
        (m / 1_000_000u128) as i64
    } else {
        let m: u128 = (-d) as u128;
        let q: i64 = (m / 1_000_000u128) as i64;
        -q
    }
}

/// A local date and time as the clock reads it, field by field (a leap
/// second shows as a nanosecond count of one second or more).
#[derive(Clone, Copy, Debug, PartialEq, Eq, Structural)]
pub struct LocalTime {
    pub year: i32,
    pub month: u32,
    pub day: u32,
    pub hour: u32,
    pub minute: u32,
    pub second: u32,
    pub nanosecond: u32,
}

/// The ranges that a clock reading keeps to.
pub open spec fn valid_local_time(t: LocalTime) -> bool {
    &&& 1 <= t.month <= 12
    &&& 1 <= t.day <= 31
    &&& t.hour < 24
    &&& t.minute < 60
    &&& t.second < 60
    &&& t.nanosecond < 2_000_000_000
}

/// The digits of `n`, with zeros in front up to `width` characters.
pub open spec fn zero_padded(n: nat, width: nat) -> Seq<char> {
    let d = decimal(n);
    if d.len() < width {
        Seq::new((width - d.len()) as nat, |i: int| '0') + d
    } else {
        d
    }
}

/// The year as chrono's `%Y` writes it: at least four digits, after a sign
/// for a year before 0 or after 9999.
pub open spec fn year_text(y: int) -> Seq<char> {
    if y < 0 {
        seq!['-'] + zero_padded((-y) as nat, 4)
    } else if y > 9999 {
        seq!['+'] + zero_padded(y as nat, 4)
    } else {
        zero_padded(y as nat, 4)
    }
}

/// A number below 100 in two digits, as chrono's `%m`, `%d`, `%H`, `%M` and
/// `%S` write it.
pub open spec fn two_digits(v: nat) -> Seq<char> {
    seq![digit_char(v / 10), digit_char(v % 10)]
}

/// The time as `%H%M%S` writes it (a leap second as second 60).
pub open spec fn hms_text(t: LocalTime) -> Seq<char> {
    two_digits(t.hour as nat) + two_digits(t.minute as nat) + two_digits(
        (t.second + t.nanosecond / 1_000_000_000) as nat,
    )
}

fn push_zero_padded(v: &mut Vec<char>, n: u64, width: usize)
    ensures
        final(v)@ == old(v)@ + zero_padded(n as nat, width as nat),
{
    let mut d: Vec<char> = Vec::new();
    push_decimal(&mut d, n as u128);
    assert(d@ =~= decimal(n as nat));
    let mut k: usize = d.len();
    let ghost start = v@;
    while k < width
        invariant
            d.len() <= k <= width || (k == d.len() && k >= width),
            v@ == start + Seq::new((k - d.len()) as nat, |i: int| '0'),
        decreases width - k,
    {
        v.push('0');
        k = k + 1;
        assert(v@ =~= start + Seq::new((k - d.len()) as nat, |i: int| '0'));
    }
    if d.len() >= width {
        assert(Seq::new((k - d.len()) as nat, |i: int| '0') =~= Seq::<char>::empty());
    }
    push_all(v, d.as_slice());
    assert(v@ =~= start + zero_padded(n as nat, width as nat));
}

fn push_two_digits(v: &mut Vec<char>, n: u32)
    requires
        n < 100,
    ensures
        final(v)@ == old(v)@ + two_digits(n as nat),
{
    v.push(digit((n / 10) as u128));
    v.push(digit((n % 10) as u128));
    assert(v@ =~= old(v)@ + two_digits(n as nat));
}

/// The year in `%Y` form (see [`year_text`]).
pub fn format_year(year: i32) -> (s: String)
    ensures
        s@ == year_text(year as int),
{
    let mut v: Vec<char> = Vec::new();
    if year < 0 {
        v.push('-');
        let m: u64 = (0i64 - (year as i64)) as u64;
        push_zero_padded(&mut v, m, 4);
    } else {
        if year > 9999 {
            v.push('+');
        }
        push_zero_padded(&mut v, year as u64, 4);
    }
    assert(v@ =~= year_text(year as int));
    crate::text::string_of(v.as_slice())
}

/// A month, day, hour, minute or second in two digits (see [`two_digits`]).
pub fn format_two_digits(n: u32) -> (s: String)
    requires
        n < 100,
    ensures
        s@ == two_digits(n as nat),
{
    let mut v: Vec<char> = Vec::new();
    push_two_digits(&mut v, n);
    assert(v@ =~= two_digits(n as nat));
    crate::text::string_of(v.as_slice())
}

/// The time of day in `%H%M%S` form (see [`hms_text`]).
pub fn format_hms(t: &LocalTime) -> (s: String)
    requires
        valid_local_time(*t),
    ensures
        s@ == hms_text(*t),
{
    let mut v: Vec<char> = Vec::new();
    push_two_digits(&mut v, t.hour);
    push_two_digits(&mut v, t.minute);
    let sec: u32 = t.second + t.nanosecond / 1_000_000_000;
    push_two_digits(&mut v, sec);
    assert(v@ =~= hms_text(*t));
    crate::text::string_of(v.as_slice())
}

} // verus!
