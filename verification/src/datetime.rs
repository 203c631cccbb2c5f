//! Calendar date-times as plain fields, the fixed-width `YYYYMMDDTHHMMSS`
//! value format, decimal rendering, and lexicographic byte comparison.
use vstd::prelude::*;

verus! {

/// A wall-clock date-time, second precision. Whether it stands for a local or
/// a UTC instant is decided by where it is used.
#[derive(Clone, Copy, Debug, PartialEq, Eq, Structural)]
pub struct DateTime {
    pub year: u16,
    pub month: u8,
    pub day: u8,
    pub hour: u8,
    pub minute: u8,
    pub second: u8,
}

pub open spec fn is_leap_year(y: int) -> bool {
    y % 4 == 0 && (y % 100 != 0 || y % 400 == 0)
}

pub open spec fn days_in_month(y: int, m: int) -> int {
    if m == 2 {
        if is_leap_year(y) {
            29
        } else {
            28
        }
    } else if m == 4 || m == 6 || m == 9 || m == 11 {
        30
    } else {
        31
    }
}

impl DateTime {
    /// A real calendar date-time whose textual form is four digits of year
    /// followed by two of each smaller field.
    pub open spec fn valid(self) -> bool {
        self.year <= 9999 && 1 <= self.month <= 12 && 1 <= self.day && self.day as int
            <= days_in_month(self.year as int, self.month as int) && self.hour < 24 && self.minute
            < 60 && self.second < 60
    }
}

/// The ASCII digit for `n` modulo 10.
pub open spec fn digit(n: int) -> u8 {
    (48 + n % 10) as u8
}

/// `n` in two zero-padded ASCII digits (modulo 100).
pub open spec fn dec2(n: int) -> Seq<u8> {
    seq![digit(n / 10), digit(n)]
}

/// `n` in four zero-padded ASCII digits (modulo 10000).
pub open spec fn dec4(n: int) -> Seq<u8> {
    seq![digit(n / 1000), digit(n / 100), digit(n / 10), digit(n)]
}

/// `YYYYMMDD` for a date-time.
pub open spec fn date_str(d: DateTime) -> Seq<u8> {
    dec4(d.year as int) + dec2(d.month as int) + dec2(d.day as int)
}

/// `YYYYMMDDTHHMMSSZ` for a UTC date-time: 84 is `T`, 90 is `Z`.
pub open spec fn utc_str(d: DateTime) -> Seq<u8> {
    date_str(d) + seq![84u8] + dec2(d.hour as int) + dec2(d.minute as int) + dec2(d.second as int)
        + seq![90u8]
}

pub open spec fn is_digit(b: u8) -> bool {
    48 <= b <= 57
}

/// The number that a sequence of ASCII digits denotes.
pub open spec fn digits_val(s: Seq<u8>) -> int
    decreases s.len(),
{
    if s.len() == 0 {
        0
    } else {
        digits_val(s.drop_last()) * 10 + (s.last() - 48)
    }
}

/// The date-time that a 15-byte `YYYYMMDDTHHMMSS` value denotes, if it is
/// well-formed and a real calendar date-time of year at least 1.
pub open spec fn parse_datetime_spec(s: Seq<u8>) -> Option<DateTime> {
    if s.len() == 15 && (forall|i: int| 0 <= i < 15 && i != 8 ==> is_digit(s[i])) && s[8] == 84u8 {
        let d = DateTime {
            year: digits_val(s.subrange(0, 4)) as u16,
            month: digits_val(s.subrange(4, 6)) as u8,
            day: digits_val(s.subrange(6, 8)) as u8,
            hour: digits_val(s.subrange(9, 11)) as u8,
            minute: digits_val(s.subrange(11, 13)) as u8,
            second: digits_val(s.subrange(13, 15)) as u8,
        };
        if d.valid() && d.year >= 1 {
            Some(d)
        } else {
            None
        }
    } else {
        None
    }
}

/// Lexicographic order on byte strings, as Rust compares `str` values:
/// `a >= b`.
pub open spec fn lex_ge(a: Seq<u8>, b: Seq<u8>) -> bool
    decreases a.len(),
{
    if b.len() == 0 {
        true
    } else if a.len() == 0 {
        false
    } else if a[0] > b[0] {
        true
    } else if a[0] < b[0] {
        false
    } else {
        lex_ge(a.drop_first(), b.drop_first())
    }
}

pub fn lex_ge_bytes(a: &[u8], b: &[u8]) -> (r: bool)
    ensures
        r == lex_ge(a@, b@),
{
    let mut i: usize = 0;
    proof {
        assert(a@.skip(0) =~= a@);
        assert(b@.skip(0) =~= b@);
    }
    while i < a.len() && i < b.len()
        invariant
            i <= a.len(),
            i <= b.len(),
            lex_ge(a@, b@) == lex_ge(a@.skip(i as int), b@.skip(i as int)),
        decreases a.len() - i,
    {
        if a[i] > b[i] {
            return true;
        }
        if a[i] < b[i] {
            return false;
        }
        proof {
            assert(a@.skip(i as int).drop_first() =~= a@.skip(i + 1));
            assert(b@.skip(i as int).drop_first() =~= b@.skip(i + 1));
        }
        i = i + 1;
    }
    proof {
        if i >= b.len() {
            assert(b@.skip(i as int).len() == 0);
        } else {
            assert(a@.skip(i as int).len() == 0);
            assert(b@.skip(i as int).len() > 0);
        }
    }
    i >= b.len()
}

/// Number of days in a month of a given year.
pub fn days_in_month_of(year: u16, month: u8) -> (r: u8)
    ensures
        r as int == days_in_month(year as int, month as int),
{
    if month == 2 {
        if year % 4 == 0 && (year % 100 != 0 || year % 400 == 0) {
            29
        } else {
            28
        }
    } else if month == 4 || month == 6 || month == 9 || month == 11 {
        30
    } else {
        31
    }
}

/// Reads the two-digit number at positions `i`, `i + 1`.
fn two_digits(s: &[u8], i: usize) -> (r: u8)
    requires
        i + 2 <= s@.len(),
        is_digit(s@[i as int]),
        is_digit(s@[i + 1]),
    ensures
        r as int == digits_val(s@.subrange(i as int, i + 2)),
        r < 100,
{
    let r = (s[i] - 48) * 10 + (s[i + 1] - 48);
    proof {
        let t = s@.subrange(i as int, i + 2);
        assert(t.drop_last() =~= s@.subrange(i as int, i + 1));
        assert(t.drop_last().drop_last() =~= s@.subrange(i as int, i as int));
        assert(digits_val(s@.subrange(i as int, i as int)) == 0);
        assert(digits_val(s@.subrange(i as int, i + 1)) == s@[i as int] - 48);
        assert(digits_val(t) == (s@[i as int] - 48) * 10 + (s@[i + 1] - 48));
    }
    r
}

/// Parses a 15-byte `YYYYMMDDTHHMMSS` value.
pub fn parse_datetime(s: &[u8]) -> (r: Option<DateTime>)
    ensures
        r == parse_datetime_spec(s@),
{
    if s.len() != 15 {
        return None;
    }
    let mut i: usize = 0;
    while i < 15
        invariant
            i <= 15,
            s@.len() == 15,
            forall|k: int| 0 <= k < i && k != 8 ==> is_digit(s@[k]),
            forall|k: int| 0 <= k < i && k == 8 ==> s@[k] == 84u8,
        decreases 15 - i,
    {
        if i == 8 {
            if s[i] != 84 {
                return None;
            }
        } else {
            if s[i] < 48 || s[i] > 57 {
                return None;
            }
        }
        i = i + 1;
    }
    let y_hi = two_digits(s, 0);
    let y_lo = two_digits(s, 2);
    let year: u16 = (y_hi as u16) * 100 + (y_lo as u16);
    proof {
        let t = s@.subrange(0, 4);
        assert(t.drop_last() =~= s@.subrange(0, 3));
        assert(t.drop_last().drop_last() =~= s@.subrange(0, 2));
        assert(s@.subrange(0, 3).drop_last() =~= s@.subrange(0, 2));
        let t2 = s@.subrange(0, 2);
        assert(t2.drop_last() =~= s@.subrange(0, 1));
        assert(t2.drop_last().drop_last() =~= s@.subrange(0, 0));
        let t3 = s@.subrange(2, 4);
        assert(t3.drop_last() =~= s@.subrange(2, 3));
        assert(t3.drop_last().drop_last() =~= s@.subrange(2, 2));
        assert(digits_val(s@.subrange(0, 0)) == 0);
        assert(digits_val(s@.subrange(0, 1)) == s@[0] - 48);
        assert(digits_val(s@.subrange(0, 2)) == (s@[0] - 48) * 10 + (s@[1] - 48));
        assert(digits_val(s@.subrange(0, 3)) == digits_val(s@.subrange(0, 2)) * 10 + (s@[2] - 48));
        assert(digits_val(s@.subrange(0, 4)) == digits_val(s@.subrange(0, 3)) * 10 + (s@[3] - 48));
        assert(digits_val(s@.subrange(2, 2)) == 0);
        assert(digits_val(s@.subrange(2, 3)) == s@[2] - 48);
        assert(digits_val(s@.subrange(2, 4)) == (s@[2] - 48) * 10 + (s@[3] - 48));
        assert(digits_val(s@.subrange(0, 4)) == digits_val(s@.subrange(0, 2)) * 100 + digits_val(
            s@.subrange(2, 4),
        ));
    }
    let month = two_digits(s, 4);
    let day = two_digits(s, 6);
    let hour = two_digits(s, 9);
    let minute = two_digits(s, 11);
    let second = two_digits(s, 13);
    let d = DateTime { year, month, day, hour, minute, second };
    if year < 1 || month < 1 || month > 12 || day < 1 || day > days_in_month_of(year, month)
        || hour >= 24 || minute >= 60 || second >= 60 {
        return None;
    }
    Some(d)
}

/// Renders `n` modulo 100 as two zero-padded digits.
pub fn push_dec2(out: &mut Vec<u8>, n: u16)
    ensures
        final(out)@ == old(out)@ + dec2(n as int),
{
    out.push((48 + (n / 10) % 10) as u8);
    out.push((48 + n % 10) as u8);
    proof {
        assert(out@ =~= old(out)@ + dec2(n as int));
    }
}

/// Renders a date-time as `YYYYMMDD`.
pub fn format_date(d: &DateTime) -> (r: Vec<u8>)
    ensures
        r@ == date_str(*d),
{
    let mut out: Vec<u8> = Vec::new();
    out.push((48 + (d.year / 1000) % 10) as u8);
    out.push((48 + (d.year / 100) % 10) as u8);
    push_dec2(&mut out, d.year);
    push_dec2(&mut out, d.month as u16);
    push_dec2(&mut out, d.day as u16);
    proof {
        assert(out@ =~= date_str(*d));
    }
    out
}

/// Appends a UTC date-time as `YYYYMMDDTHHMMSSZ`.
pub fn push_utc(out: &mut Vec<u8>, d: &DateTime)
    ensures
        final(out)@ == old(out)@ + utc_str(*d),
{
    out.push((48 + (d.year / 1000) % 10) as u8);
    out.push((48 + (d.year / 100) % 10) as u8);
    push_dec2(out, d.year);
    push_dec2(out, d.month as u16);
    push_dec2(out, d.day as u16);
    out.push(84);
    push_dec2(out, d.hour as u16);
    push_dec2(out, d.minute as u16);
    push_dec2(out, d.second as u16);
    out.push(90);
    proof {
        assert(out@ =~= old(out)@ + utc_str(*d));
    }
}

} // verus!
