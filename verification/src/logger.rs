//! Hourly log files: which file a line written at a given time belongs to.

use vstd::prelude::*;
use vstd::string::*;
use crate::text::{dec_text, digit_char, digits, magnitude, pad_text, push_pad};

verus! {

/// The quotient of a division that rounds towards zero.
pub open spec fn quot(a: int, b: int) -> int {
    if a < 0 {
        -((-a) / b)
    } else {
        a / b
    }
}

/// What a division that rounds towards zero leaves; it has the sign of the dividend.
pub open spec fn rest(a: int, b: int) -> int {
    a - quot(a, b) * b
}

/// A year of the Gregorian calendar has a leap day.
pub open spec fn leap(y: int) -> bool {
    y % 4 == 0 && (y % 100 != 0 || y % 400 == 0)
}

/// The days of a month, counted from zero, in an ordinary or a leap year.
pub open spec fn month_days(m: int, is_leap: bool) -> int {
    if m == 1 {
        if is_leap {
            29
        } else {
            28
        }
    } else if m == 3 || m == 5 || m == 8 || m == 10 {
        30
    } else {
        31
    }
}

/// The month (counted from one) and the day in it (counted from zero) that `day` days behind the
/// beginning of month `m` fall into; month zero where the year has ended before.
pub open spec fn month_scan(day: int, m: int, is_leap: bool) -> (int, int)
    decreases 12 - m,
{
    if m >= 12 {
        (0, day)
    } else if day < month_days(m, is_leap) {
        (m + 1, day)
    } else {
        month_scan(day - month_days(m, is_leap), m + 1, is_leap)
    }
}

/// A count of seconds read as a signed 64-bit number.
pub open spec fn signed(ts: u64) -> int {
    if ts < 0x8000_0000_0000_0000 {
        ts as int
    } else {
        ts - 0x1_0000_0000_0000_0000
    }
}

/// The year and the day in it that belong to a day number counted from the epoch of the key.
pub open spec fn year_day(unix_days: int) -> (int, int) {
    let r400 = rest(unix_days, 146097);
    let r100 = rest(r400, 36524);
    let r4 = rest(r100, 1461);
    let year = 1970 + quot(unix_days, 146097) * 400 + quot(r400, 36524) * 100 + quot(r100, 1461) * 4
        + quot(r4, 365);
    (year, rest(r4, 365))
}

/// The days by which the key's day count is shifted.
pub const EPOCH_SHIFT: i64 = 719542;

/// The hour of the day that a time stamp falls into; negative before the epoch.
pub open spec fn hour_of(ts: u64) -> int {
    quot(rest(signed(ts), 86400), 3600)
}

/// The key of the hour that a time stamp falls into: `year-month-day_hour`.
pub open spec fn hour_key_text(ts: u64) -> Seq<char> {
    let secs = signed(ts);
    let (year, doy) = year_day(quot(secs, 86400) - EPOCH_SHIFT);
    let (month, day) = month_scan(doy, 0, leap(year));
    pad_text(year, 4) + seq!['-'] + pad_text(month, 2) + seq!['-'] + pad_text(day + 1, 2)
        + seq!['_'] + pad_text(hour_of(ts), 2)
}

/// A logger that keeps one file per hour: the key of the hour whose file is open.
pub struct HourlyLogger {
    current: Option<String>,
}

impl View for HourlyLogger {
    type V = Option<Seq<char>>;

    closed spec fn view(&self) -> Option<Seq<char>> {
        match self.current {
            Some(k) => Some(k@),
            None => None,
        }
    }
}

/// Where a log line goes.
pub enum LogTarget {
    /// To the file that is open.
    Current,
    /// To the file of another hour, to be opened first.
    Open { key: String, file: String },
}

/// What a log target stands for.
pub enum LogTargetModel {
    Current,
    Open { key: Seq<char>, file: Seq<char> },
}

impl View for LogTarget {
    type V = LogTargetModel;

    open spec fn view(&self) -> LogTargetModel {
        match self {
            LogTarget::Current => LogTargetModel::Current,
            LogTarget::Open { key, file } => LogTargetModel::Open { key: key@, file: file@ },
        }
    }
}

/// Where a line written at `ts` goes while the file of `current` is open.
pub open spec fn log_target(current: Option<Seq<char>>, ts: u64) -> LogTargetModel {
    let key = hour_key_text(ts);
    if current == Some(key) {
        LogTargetModel::Current
    } else {
        LogTargetModel::Open { key, file: key + ".log"@ }
    }
}

/// Divides, rounding towards zero.
fn divide(a: i64, b: i64) -> (q: i64)
    requires
        b > 1,
    ensures
        q == quot(a as int, b as int),
{
    let m: u64 = magnitude(a) / (b as u64);
    assert(m <= 0x4000_0000_0000_0000) by (nonlinear_arith)
        requires
            m == magnitude_of(a as int) / (b as int),
            b > 1,
            magnitude_of(a as int) <= 0x8000_0000_0000_0000,
    ;
    if a < 0 {
        -(m as i64)
    } else {
        m as i64
    }
}

spec fn magnitude_of(a: int) -> int {
    if a < 0 {
        -a
    } else {
        a
    }
}

/// Whether a year has a leap day.
pub fn is_leap(y: i64) -> (r: bool)
    ensures
        r == leap(y as int),
{
    let m = magnitude(y);
    m % 4 == 0 && (m % 100 != 0 || m % 400 == 0)
}

/// Every time stamp falls into one of the twelve months.
pub proof fn law_month_found(ts: u64)
    ensures
        ({
            let (year, doy) = year_day(quot(signed(ts), 86400) - EPOCH_SHIFT);
            1 <= month_scan(doy, 0, leap(year)).0 <= 12
        }),
{
    reveal_with_fuel(month_scan, 13);
}

fn year_and_day(unix_days: i64) -> (r: (i64, i64))
    requires
        -0x1_0000_0000_0000 < unix_days < 0x1_0000_0000_0000,
    ensures
        (r.0 as int, r.1 as int) == year_day(unix_days as int),
        -365 < r.1 < 365,
{
    let y400: i64 = divide(unix_days, 146097);
    let r400: i64 = unix_days - y400 * 146097;
    let y100: i64 = divide(r400, 36524);
    let r100: i64 = r400 - y100 * 36524;
    let y4: i64 = divide(r100, 1461);
    let r4: i64 = r100 - y4 * 1461;
    let y1: i64 = divide(r4, 365);
    (1970 + y400 * 400 + y100 * 100 + y4 * 4 + y1, r4 - y1 * 365)
}

fn month_and_day(doy: i64, leap_year: bool) -> (r: (i64, i64))
    requires
        -365 < doy < 365,
    ensures
        (r.0 as int, r.1 as int) == month_scan(doy as int, 0, leap_year),
        -365 < r.1 < 365,
{
    let mut day: i64 = doy;
    let mut m: i64 = 0;
    while m < 12
        invariant
            0 <= m <= 12,
            -365 < day < 365,
            month_scan(doy as int, 0, leap_year) == month_scan(day as int, m as int, leap_year),
        decreases 12 - m,
    {
        let md: i64 = if m == 1 {
            if leap_year {
                29
            } else {
                28
            }
        } else if m == 3 || m == 5 || m == 8 || m == 10 {
            30
        } else {
            31
        };
        if day < md {
            return (m + 1, day);
        }
        day = day - md;
        m = m + 1;
    }
    (0, day)
}

impl HourlyLogger {
    /// A logger that has no file open yet.
    pub fn new() -> (r: Self)
        ensures
            r@ == None::<Seq<char>>,
    {
        HourlyLogger { current: None }
    }

    /// The key of the hour that a time stamp, in seconds, falls into.
    pub fn hour_key(ts: u64) -> (r: String)
        ensures
            r@ == hour_key_text(ts),
    {
        let secs: i64 = if ts < 0x8000_0000_0000_0000 {
            ts as i64
        } else {
            -((0xffff_ffff_ffff_ffff - ts) as i64) - 1
        };
        let days: i64 = divide(secs, 86400);
        let hour: i64 = divide(secs - days * 86400, 3600);
        let (year, doy) = year_and_day(days - EPOCH_SHIFT);
        let (month, day) = month_and_day(doy, is_leap(year));
        let mut out = String::new();
        push_pad(&mut out, year, 4);
        out.push('-');
        push_pad(&mut out, month, 2);
        out.push('-');
        push_pad(&mut out, day + 1, 2);
        out.push('_');
        push_pad(&mut out, hour, 2);
        assert(out@ =~= hour_key_text(ts));
        out
    }

    /// Decides where a line written at `ts` goes: to the file that is open, or to another one.
    pub fn target(&self, ts: u64) -> (r: LogTarget)
        ensures
            r@ == log_target(self@, ts),
    {
        let key = Self::hour_key(ts);
        match &self.current {
            Some(cur) => {
                if *cur == key {
                    return LogTarget::Current;
                }
            },
            None => {},
        }
        let mut file = key.clone();
        file.append(".log");
        LogTarget::Open { key, file }
    }

    /// The file of `key` is open from now on.
    pub fn opened(&mut self, key: String)
        ensures
            final(self)@ == Some(key@),
    {
        self.current = Some(key);
    }
}

/// Two time stamps of one hour have one key.
pub proof fn law_one_key_per_hour(a: u64, b: u64)
    requires
        a / 3600 == b / 3600,
        a < 0x8000_0000_0000_0000,
        b < 0x8000_0000_0000_0000,
    ensures
        hour_key_text(a) == hour_key_text(b),
{
    assert(a / 86400 == (a / 3600) / 24);
    assert(b / 86400 == (b / 3600) / 24);
    assert(rest(a as int, 86400) / 3600 == (a / 3600) % 24);
    assert(rest(b as int, 86400) / 3600 == (b / 3600) % 24);
}

proof fn lemma_two_digits(n: nat)
    requires
        n < 100,
    ensures
        dec_text(n) == if n < 10 {
            seq![digit_char(n as u8)]
        } else {
            seq![digit_char((n / 10) as u8), digit_char((n % 10) as u8)]
        },
{
    reveal_with_fuel(digits, 2);
    assert(dec_text(n) =~= if n < 10 {
        seq![digit_char(n as u8)]
    } else {
        seq![digit_char((n / 10) as u8), digit_char((n % 10) as u8)]
    });
}

proof fn lemma_hour_range(ts: u64)
    ensures
        -24 < hour_of(ts) < 24,
{
}

proof fn lemma_hour_text(h: int)
    requires
        -24 < h < 24,
    ensures
        pad_text(h, 2) == if h < 0 && -h < 10 {
            seq!['-', digit_char((-h) as u8)]
        } else if h < 0 {
            seq!['-', digit_char(((-h) / 10) as u8), digit_char(((-h) % 10) as u8)]
        } else {
            seq![digit_char((h / 10) as u8), digit_char((h % 10) as u8)]
        },
        forall|i: int| 0 <= i < pad_text(h, 2).len() ==> #[trigger] pad_text(h, 2)[i] != '_',
{
    let n = if h < 0 {
        (-h) as nat
    } else {
        h as nat
    };
    lemma_two_digits(n);
    assert(pad_text(h, 2) =~= if h < 0 && -h < 10 {
        seq!['-', digit_char((-h) as u8)]
    } else if h < 0 {
        seq!['-', digit_char(((-h) / 10) as u8), digit_char(((-h) % 10) as u8)]
    } else {
        seq![digit_char((h / 10) as u8), digit_char((h % 10) as u8)]
    });
}

proof fn lemma_hour_text_length(a: u64, b: u64)
    requires
        hour_key_text(a) == hour_key_text(b),
    ensures
        pad_text(hour_of(a), 2).len() >= pad_text(hour_of(b), 2).len(),
{
    lemma_hour_range(b);
    lemma_hour_text(hour_of(b));
    let k = hour_key_text(a);
    let ha = pad_text(hour_of(a), 2);
    let hb = pad_text(hour_of(b), 2);
    if ha.len() < hb.len() {
        let i = k.len() - ha.len() - 1;
        assert(k[i] == '_');
        assert(hour_key_text(b)[i] == hb[i - (k.len() - hb.len())]);
    }
}

proof fn lemma_hour_text_injective(x: int, y: int)
    requires
        -24 < x < 24,
        -24 < y < 24,
        pad_text(x, 2) == pad_text(y, 2),
    ensures
        x == y,
{
    lemma_hour_text(x);
    lemma_hour_text(y);
    let s = pad_text(x, 2);
    let t = pad_text(y, 2);
    assert(s.len() == t.len() && s[0] == t[0] && s[1] == t[1]);
    if s.len() == 3 {
        assert(s[2] == t[2]);
    }
}

/// Time stamps that fall into different hours of the day have different keys.
pub proof fn law_hours_have_different_keys(a: u64, b: u64)
    requires
        hour_of(a) != hour_of(b),
    ensures
        hour_key_text(a) != hour_key_text(b),
{
    if hour_key_text(a) == hour_key_text(b) {
        lemma_hour_text_length(a, b);
        lemma_hour_text_length(b, a);
        lemma_hour_range(a);
        lemma_hour_range(b);
        let k = hour_key_text(a);
        let ha = pad_text(hour_of(a), 2);
        let hb = pad_text(hour_of(b), 2);
        assert(k.skip(k.len() - ha.len()) =~= ha);
        assert(hour_key_text(b).skip(k.len() - hb.len()) =~= hb);
        lemma_hour_text_injective(hour_of(a), hour_of(b));
    }
}

/// As long as the hour lasts, lines go on to the file that was opened in it.
pub proof fn law_file_kept_within_hour(current: Option<Seq<char>>, a: u64, b: u64)
    requires
        a / 3600 == b / 3600,
        a < 0x8000_0000_0000_0000,
        b < 0x8000_0000_0000_0000,
    ensures
        log_target(Some(hour_key_text(a)), b) == LogTargetModel::Current,
        log_target(current, a) == log_target(current, b),
{
    law_one_key_per_hour(a, b);
}

} // verus!
