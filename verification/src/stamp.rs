//! Creation timestamps: a plain calendar value, its fixed-offset textual
//! form (`YYYY-MM-DDTHH:MM:SS+00:00`), and its chronological order.

use crate::strutil::{digit_char, digit_str, digit_val, is_digit};
use vstd::prelude::*;
use vstd::string::StrSliceExecFns;
use vstd::string::StringExecFns;

verus! {

/// A second-precision UTC calendar time plus a fractional-second component,
/// captured when an entry is inserted and immutable thereafter.
#[derive(Clone, Copy, Debug, PartialEq, Eq, Structural)]
pub struct Timestamp {
    pub year: u16,
    pub month: u8,
    pub day: u8,
    pub hour: u8,
    pub minute: u8,
    pub second: u8,
    pub microsecond: u32,
}

impl Timestamp {
    /// Every field within the range that the textual form can carry.
    pub open spec fn valid(self) -> bool {
        self.year <= 9999 && 1 <= self.month <= 12 && 1 <= self.day <= 31 && self.hour < 24
            && self.minute < 60 && self.second < 60 && self.microsecond < 1000000
    }

    /// Build a timestamp from raw clock parts, clamping each field into the
    /// range the textual form can carry. In-range parts pass through
    /// unchanged.
    pub fn from_clock_parts(
        year: i32,
        month: u8,
        day: u8,
        hour: u8,
        minute: u8,
        second: u8,
        microsecond: u32,
    ) -> (t: Timestamp)
        ensures
            t.valid(),
            0 <= year <= 9999 ==> t.year == year,
            1 <= month <= 12 ==> t.month == month,
            1 <= day <= 31 ==> t.day == day,
            hour < 24 ==> t.hour == hour,
            minute < 60 ==> t.minute == minute,
            second < 60 ==> t.second == second,
            microsecond < 1000000 ==> t.microsecond == microsecond,
    {
        Timestamp {
            year: if year < 0 {
                0
            } else if year > 9999 {
                9999
            } else {
                year as u16
            },
            month: if month < 1 {
                1
            } else if month > 12 {
                12
            } else {
                month
            },
            day: if day < 1 {
                1
            } else if day > 31 {
                31
            } else {
                day
            },
            hour: if hour >= 24 {
                23
            } else {
                hour
            },
            minute: if minute >= 60 {
                59
            } else {
                minute
            },
            second: if second >= 60 {
                59
            } else {
                second
            },
            microsecond: if microsecond >= 1000000 {
                999999
            } else {
                microsecond
            },
        }
    }
}

/// Chronological order on timestamps: lexicographic over the fields from
/// year down to microsecond; reflexive on equal values.
pub open spec fn stamp_le(a: Timestamp, b: Timestamp) -> bool {
    if a.year != b.year {
        a.year < b.year
    } else if a.month != b.month {
        a.month < b.month
    } else if a.day != b.day {
        a.day < b.day
    } else if a.hour != b.hour {
        a.hour < b.hour
    } else if a.minute != b.minute {
        a.minute < b.minute
    } else if a.second != b.second {
        a.second < b.second
    } else {
        a.microsecond <= b.microsecond
    }
}

/// Decide `stamp_le`.
pub fn stamp_le_exec(a: &Timestamp, b: &Timestamp) -> (r: bool)
    ensures
        r == stamp_le(*a, *b),
{
    if a.year != b.year {
        a.year < b.year
    } else if a.month != b.month {
        a.month < b.month
    } else if a.day != b.day {
        a.day < b.day
    } else if a.hour != b.hour {
        a.hour < b.hour
    } else if a.minute != b.minute {
        a.minute < b.minute
    } else if a.second != b.second {
        a.second < b.second
    } else {
        a.microsecond <= b.microsecond
    }
}

/// Two zero-padded decimal digits.
pub open spec fn fmt2(n: int) -> Seq<char> {
    seq![digit_char(n / 10 % 10), digit_char(n % 10)]
}

/// Four zero-padded decimal digits.
pub open spec fn fmt4(n: int) -> Seq<char> {
    seq![digit_char(n / 1000 % 10), digit_char(n / 100 % 10), digit_char(n / 10 % 10), digit_char(
        n % 10,
    )]
}

/// The textual form of a timestamp's date-and-time part: second precision,
/// fixed UTC offset. The fractional-second component is stored separately.
pub open spec fn stamp_rep(t: Timestamp) -> Seq<char> {
    seq![
        digit_char(t.year as int / 1000 % 10),
        digit_char(t.year as int / 100 % 10),
        digit_char(t.year as int / 10 % 10),
        digit_char(t.year as int % 10),
        '-',
        digit_char(t.month as int / 10 % 10),
        digit_char(t.month as int % 10),
        '-',
        digit_char(t.day as int / 10 % 10),
        digit_char(t.day as int % 10),
        'T',
        digit_char(t.hour as int / 10 % 10),
        digit_char(t.hour as int % 10),
        ':',
        digit_char(t.minute as int / 10 % 10),
        digit_char(t.minute as int % 10),
        ':',
        digit_char(t.second as int / 10 % 10),
        digit_char(t.second as int % 10),
        '+',
        '0',
        '0',
        ':',
        '0',
        '0',
    ]
}

fn append_2(r: &mut String, n: u8)
    requires
        n < 100,
    ensures
        final(r)@ == old(r)@ + fmt2(n as int),
{
    r.append(digit_str(n / 10));
    r.append(digit_str(n % 10));
    proof {
        assert(n as int / 10 % 10 == n as int / 10);
        assert(final(r)@ =~= old(r)@ + fmt2(n as int));
    }
}

fn append_4(r: &mut String, n: u16)
    requires
        n < 10000,
    ensures
        final(r)@ == old(r)@ + fmt4(n as int),
{
    r.append(digit_str((n / 1000) as u8));
    r.append(digit_str((n / 100 % 10) as u8));
    r.append(digit_str((n / 10 % 10) as u8));
    r.append(digit_str((n % 10) as u8));
    proof {
        assert(n as int / 1000 % 10 == n as int / 1000);
        assert(final(r)@ =~= old(r)@ + fmt4(n as int));
    }
}

/// Render the date-and-time part of a timestamp.
pub fn fmt_stamp(t: &Timestamp) -> (r: String)
    requires
        t.valid(),
    ensures
        r@ == stamp_rep(*t),
{
    proof {
        reveal_strlit("-");
        reveal_strlit("T");
        reveal_strlit(":");
        reveal_strlit("+00:00");
    }
    let mut r = String::new();
    append_4(&mut r, t.year);
    r.append("-");
    append_2(&mut r, t.month);
    r.append("-");
    append_2(&mut r, t.day);
    r.append("T");
    append_2(&mut r, t.hour);
    r.append(":");
    append_2(&mut r, t.minute);
    r.append(":");
    append_2(&mut r, t.second);
    r.append("+00:00");
    proof {
        assert(r@ =~= stamp_rep(*t));
    }
    r
}

/// What parsing the date-and-time field yields: a timestamp (with a zero
/// fractional part) exactly when the text has the fixed 25-character shape
/// and every component is in range; nothing otherwise.
pub open spec fn parse_stamp_spec(t: Seq<char>) -> Option<Timestamp> {
    if t.len() == 25 && is_digit(t[0]) && is_digit(t[1]) && is_digit(t[2]) && is_digit(t[3])
        && t[4] == '-' && is_digit(t[5]) && is_digit(t[6]) && t[7] == '-' && is_digit(t[8])
        && is_digit(t[9]) && t[10] == 'T' && is_digit(t[11]) && is_digit(t[12]) && t[13] == ':'
        && is_digit(t[14]) && is_digit(t[15]) && t[16] == ':' && is_digit(t[17]) && is_digit(t[18])
        && t[19] == '+' && t[20] == '0' && t[21] == '0' && t[22] == ':' && t[23] == '0' && t[24]
        == '0' {
        let st = Timestamp {
            year: (digit_val(t[0]) * 1000 + digit_val(t[1]) * 100 + digit_val(t[2]) * 10
                + digit_val(t[3])) as u16,
            month: (digit_val(t[5]) * 10 + digit_val(t[6])) as u8,
            day: (digit_val(t[8]) * 10 + digit_val(t[9])) as u8,
            hour: (digit_val(t[11]) * 10 + digit_val(t[12])) as u8,
            minute: (digit_val(t[14]) * 10 + digit_val(t[15])) as u8,
            second: (digit_val(t[17]) * 10 + digit_val(t[18])) as u8,
            microsecond: 0,
        };
        if st.valid() {
            Option::Some(st)
        } else {
            Option::None
        }
    } else {
        Option::None
    }
}

fn parse_2(s: &str, at: usize) -> (r: Option<u8>)
    requires
        at + 2 <= s@.len(),
        s@.len() <= usize::MAX,
    ensures
        match r {
            Some(v) => is_digit(s@[at as int]) && is_digit(s@[at + 1]) && v == digit_val(
                s@[at as int],
            ) * 10 + digit_val(s@[at + 1]),
            None => !(is_digit(s@[at as int]) && is_digit(s@[at + 1])),
        },
{
    let d1 = crate::strutil::digit_of(s.get_char(at));
    let d2 = crate::strutil::digit_of(s.get_char(at + 1));
    match (d1, d2) {
        (Some(a), Some(b)) => Some(a * 10 + b),
        _ => None,
    }
}

fn expect_char(s: &str, at: usize, c: char) -> (r: bool)
    requires
        at < s@.len(),
        s@.len() <= usize::MAX,
    ensures
        r == (s@[at as int] == c),
{
    s.get_char(at) == c
}

/// Parse the date-and-time field of a stored record.
pub fn parse_stamp(s: &str) -> (r: Option<Timestamp>)
    ensures
        r == parse_stamp_spec(s@),
{
    let n = s.unicode_len();
    if n != 25 {
        return None;
    }
    let y1 = match parse_2(s, 0) {
        Some(v) => v,
        None => {
            return None;
        },
    };
    let y2 = match parse_2(s, 2) {
        Some(v) => v,
        None => {
            return None;
        },
    };
    if !expect_char(s, 4, '-') {
        return None;
    }
    let month = match parse_2(s, 5) {
        Some(v) => v,
        None => {
            return None;
        },
    };
    if !expect_char(s, 7, '-') {
        return None;
    }
    let day = match parse_2(s, 8) {
        Some(v) => v,
        None => {
            return None;
        },
    };
    if !expect_char(s, 10, 'T') {
        return None;
    }
    let hour = match parse_2(s, 11) {
        Some(v) => v,
        None => {
            return None;
        },
    };
    if !expect_char(s, 13, ':') {
        return None;
    }
    let minute = match parse_2(s, 14) {
        Some(v) => v,
        None => {
            return None;
        },
    };
    if !expect_char(s, 16, ':') {
        return None;
    }
    let second = match parse_2(s, 17) {
        Some(v) => v,
        None => {
            return None;
        },
    };
    if !(expect_char(s, 19, '+') && expect_char(s, 20, '0') && expect_char(s, 21, '0')
        && expect_char(s, 22, ':') && expect_char(s, 23, '0') && expect_char(s, 24, '0')) {
        return None;
    }
    let year: u16 = (y1 as u16) * 100 + (y2 as u16);
    let st = Timestamp { year, month, day, hour, minute, second, microsecond: 0 };
    if 1 <= st.month && st.month <= 12 && 1 <= st.day && st.day <= 31 && st.hour < 24 && st.minute
        < 60 && st.second < 60 {
        Some(st)
    } else {
        None
    }
}

/// Rendering a valid timestamp and parsing the text back yields the same
/// calendar fields (the fractional part travels in a separate field).
#[verifier::rlimit(60)]
pub proof fn lemma_stamp_round_trip(t: Timestamp)
    requires
        t.valid(),
    ensures
        parse_stamp_spec(stamp_rep(t)) == Some(
            Timestamp { microsecond: 0, ..t },
        ),
{
    let s = stamp_rep(t);
    let y = t.year as int;
    let mo = t.month as int;
    let d = t.day as int;
    let h = t.hour as int;
    let mi = t.minute as int;
    let sec = t.second as int;
    lemma_two_digit_value(mo);
    lemma_two_digit_value(d);
    lemma_two_digit_value(h);
    lemma_two_digit_value(mi);
    lemma_two_digit_value(sec);
    lemma_four_digit_value(y);
}

proof fn lemma_two_digit_value(n: int)
    requires
        0 <= n < 100,
    ensures
        digit_val(digit_char(n / 10 % 10)) * 10 + digit_val(digit_char(n % 10)) == n,
{
    assert(0 <= n / 10 % 10 < 10);
    assert(0 <= n % 10 < 10);
    assert(digit_val(digit_char(n / 10 % 10)) == n / 10 % 10);
    assert(digit_val(digit_char(n % 10)) == n % 10);
    assert(n / 10 % 10 == n / 10);
    assert(n / 10 * 10 + n % 10 == n) by (nonlinear_arith)
        requires
            0 <= n,
    ;
}

proof fn lemma_four_digit_value(n: int)
    requires
        0 <= n < 10000,
    ensures
        digit_val(digit_char(n / 1000 % 10)) * 1000 + digit_val(digit_char(n / 100 % 10)) * 100
            + digit_val(digit_char(n / 10 % 10)) * 10 + digit_val(digit_char(n % 10)) == n,
{
    assert(digit_val(digit_char(n / 1000 % 10)) == n / 1000 % 10);
    assert(digit_val(digit_char(n / 100 % 10)) == n / 100 % 10);
    assert(digit_val(digit_char(n / 10 % 10)) == n / 10 % 10);
    assert(digit_val(digit_char(n % 10)) == n % 10);
    assert((n / 1000 % 10) * 1000 + (n / 100 % 10) * 100 + (n / 10 % 10) * 10 + n % 10 == n)
        by (nonlinear_arith)
        requires
            0 <= n < 10000,
    ;
}

/// Relies on `dtt::datetime::DateTime::new`, which returns the current UTC
/// time, and on its getters `year`, `month`, `day`, `hour`, `minute`,
/// `second` and `microsecond`. The underlying `time` crate keeps the year
/// in `-9999..=9999` and the time-of-day and fractional components within
/// their calendar ranges.
#[verifier::external_body]
fn clock_now_parts() -> (r: (i32, u8, u8, u8, u8, u8, u32))
    ensures
        -9999 <= r.0 <= 9999,
        1 <= r.1 <= 12,
        1 <= r.2 <= 31,
        r.3 < 24,
        r.4 < 60,
        r.5 < 60,
        r.6 < 1000000,
{
    let d = dtt::datetime::DateTime::new();
    (d.year(), d.month() as u8, d.day(), d.hour(), d.minute(), d.second(), d.microsecond())
}

/// The current UTC time as a timestamp. Whatever the clock returns, the
/// result is a valid timestamp.
pub fn now_timestamp() -> (t: Timestamp)
    ensures
        t.valid(),
{
    let (year, month, day, hour, minute, second, microsecond) = clock_now_parts();
    Timestamp::from_clock_parts(year, month, day, hour, minute, second, microsecond)
}

} // verus!
