//! Result timestamps: `YYYY.MM.DD-hh:mm:ss` in UTC, written for every stored
//! result and read back when the chart data is served.

use vstd::prelude::*;
use vstd::utf8::*;
use vstd::string::*;
use crate::calendar::{
    civil_from_days, days_before_month, days_from_civil, is_leap, leaps_before, lemma_civil_from_days, lemma_date_within_year, lemma_december_step,
    lemma_month_step, lemma_year_step, lemma_years_ordered, month_len, valid_date, year_len,
};
use crate::bytes::{lacks, lemma_lacks_concat};
use crate::numbers::{
    decimal, is_digit, lemma_decimal_are_digits, lemma_padded_digits_are_digits, lemma_parse_decimal, lemma_parse_padded,
    lemma_parse_without_minus, padded_digits, pow10, parse_int, parse_int_spec, push_decimal, push_padded, IntErrorKind,
};
use crate::text::{
    all_ascii, ascii_string, ascii_text, lemma_ascii_utf8, lemma_bytes_deep_view,
    lemma_split_on_concat, lemma_split_on_none, lemma_split_on_nonempty, lemma_split_on_pieces,
    split_bytes, split_on,
};

verus! {

/// Seconds from the epoch to the start of year 2147485548, the first year
/// whose number less 1900 is no `i32`: the C library's broken-down UTC time
/// (`gmtime`), which the timestamps follow, has no date from then on.
pub const CLOCK_LIMIT: u64 = 67768036191676800;

/// The last year with a date.
pub open spec fn last_year() -> int {
    2147485547
}

/// Seconds from the epoch to the start of year 2147483648, from which on a
/// year no longer reads back as an `i32`.
pub open spec fn readable_limit() -> int {
    67767976233532800
}

/// The year as `%Y` writes it: its decimal digits, at least four.
pub open spec fn year_text(y: int) -> Seq<u8> {
    if y < 10000 { padded_digits(y as nat, 4) } else { decimal(y as nat) }
}

pub open spec fn clock_limit() -> int {
    CLOCK_LIMIT as int
}

pub open spec fn date_text(y: int, m: int, d: int) -> Seq<u8> {
    year_text(y) + seq![46u8] + (padded_digits(m as nat, 2) + seq![46u8] + padded_digits(d as nat, 2))
}

pub open spec fn time_text(h: int, mi: int, s: int) -> Seq<u8> {
    padded_digits(h as nat, 2) + seq![58u8] + (padded_digits(mi as nat, 2) + seq![58u8] + padded_digits(s as nat, 2))
}

/// The text of instant `secs` (seconds since 1970-01-01 00:00:00 UTC):
/// the UTC date and time as `%Y.%m.%d-%H:%M:%S`.
pub open spec fn clock_text(secs: int) -> Seq<u8> {
    let (y, m, d) = civil_from_days(secs / 86400);
    let r = secs % 86400;
    date_text(y, m, d) + seq![45u8] + time_text(r / 3600, r % 3600 / 60, r % 60)
}

/// `clock_text` followed by a dot and the three-digit milliseconds.
pub open spec fn clock_text_millis(secs: int, millis: int) -> Seq<u8> {
    clock_text(secs) + seq![46u8] + padded_digits(millis as nat, 3)
}

fn is_leap_exec(y: u64) -> (r: bool)
    ensures
        r == is_leap(y as int),
{
    y % 4 == 0 && (y % 100 != 0 || y % 400 == 0)
}

fn month_len_exec(y: u64, m: u64) -> (r: u64)
    ensures
        r == month_len(y as int, m as int),
{
    if m == 2 {
        if is_leap_exec(y) { 29 } else { 28 }
    } else if m == 4 || m == 6 || m == 9 || m == 11 {
        30
    } else {
        31
    }
}

proof fn lemma_era_step(y: int)
    ensures
        days_from_civil(y + 400, 1, 1) == days_from_civil(y, 1, 1) + 146097,
{
    assert((y + 399) / 4 == (y - 1) / 4 + 100);
    assert((y + 399) / 100 == (y - 1) / 100 + 4);
    assert((y + 399) / 400 == (y - 1) / 400 + 1);
}

/// Day `1970-01-01` plus `k` eras of 400 years.
proof fn lemma_eras(k: nat)
    ensures
        days_from_civil(1970 + 400 * (k as int), 1, 1) == 146097 * k,
    decreases k,
{
    if k > 0 {
        lemma_eras((k - 1) as nat);
        lemma_era_step(1970 + 400 * (k - 1));
        assert(1970 + 400 * (k - 1) + 400 == 1970 + 400 * (k as int));
    }
}

/// The calendar date of day `z` (`z >= 0`), found by counting from 1970.
fn civil_from_days_exec(z: u64) -> (r: (u64, u64, u64))
    requires
        z < 784352270737,
    ensures
        valid_date(r.0 as int, r.1 as int, r.2 as int),
        days_from_civil(r.0 as int, r.1 as int, r.2 as int) == z,
        1970 <= r.0 <= last_year(),
{
    proof {
        assert(days_from_civil(2147485548, 1, 1) == 784352270737);
    }
    let era: u64 = z / 146097;
    let rem: u64 = z % 146097;
    assert(z == 146097 * era + rem && rem < 146097);
    assert(era <= 5368708);
    let mut y: u64 = 1970 + 400 * era;
    let mut rest: u64 = rem;
    proof {
        lemma_eras(era as nat);
    }
    let mut ylen: u64 = if is_leap_exec(y) { 366 } else { 365 };
    while rest >= ylen
        invariant
            ylen == year_len(y as int),
            1970 <= y <= last_year(),
            days_from_civil(y as int, 1, 1) + rest == z,
            z < 784352270737,
            rest < 146097,
            days_from_civil(2147485548, 1, 1) == 784352270737,
        decreases rest,
    {
        proof {
            lemma_year_step(y as int);
        }
        rest = rest - ylen;
        y = y + 1;
        ylen = if is_leap_exec(y) { 366 } else { 365 };
    }
    proof {
        lemma_year_step(y as int);
    }
    let mut m: u64 = 1;
    while rest >= month_len_exec(y, m)
        invariant
            1970 <= y <= last_year(),
            1 <= m <= 12,
            days_from_civil(y as int, m as int, 1) + rest == z,
            days_from_civil(y as int, m as int, 1) + rest < days_from_civil(y as int + 1, 1, 1),
        decreases 12 - m,
    {
        proof {
            if m == 12 {
                lemma_december_step(y as int);
            } else {
                lemma_month_step(y as int, m as int);
            }
        }
        rest = rest - month_len_exec(y, m);
        m = m + 1;
    }
    (y, m, rest + 1)
}

proof fn lemma_text_ascii(secs: int)
    requires
        0 <= secs < clock_limit(),
    ensures
        all_ascii(clock_text(secs)),
{
    lemma_clock_text_bytes(secs);
    let t = clock_text(secs);
    assert forall|i: int| 0 <= i < t.len() implies #[trigger] t[i] < 128 by {
        let c = t[i];
        assert(is_digit(c) || c == 45 || c == 46 || c == 58);
    }
}

pub(crate) fn clock_bytes(secs: u64, out: &mut Vec<u8>)
    requires
        secs < clock_limit(),
    ensures
        final(out)@ == old(out)@ + clock_text(secs as int),
{
    let days = secs / 86400;
    let r = secs % 86400;
    let (y, m, d) = civil_from_days_exec(days);
    proof {
        lemma_civil_from_days(y as int, m as int, d as int);
    }
    if y < 10000 {
        push_padded(out, y, 4);
    } else {
        push_decimal(out, y);
    }
    out.push(46);
    push_padded(out, m, 2);
    out.push(46);
    push_padded(out, d, 2);
    out.push(45);
    push_padded(out, r / 3600, 2);
    out.push(58);
    push_padded(out, r % 3600 / 60, 2);
    out.push(58);
    push_padded(out, r % 60, 2);
    assert(final(out)@ =~= old(out)@ + clock_text(secs as int));
}

/// The UTC time of instant `secs` as `YYYY.MM.DD-hh:mm:ss`.
pub fn timestr(secs: u64) -> (r: String)
    requires
        secs < clock_limit(),
    ensures
        r@ == ascii_text(clock_text(secs as int)),
        encode_utf8(r@) == clock_text(secs as int),
{
    let mut out: Vec<u8> = Vec::new();
    clock_bytes(secs, &mut out);
    proof {
        assert(out@ =~= clock_text(secs as int));
        lemma_text_ascii(secs as int);
        lemma_ascii_utf8(out@);
    }
    ascii_string(out)
}

/// The UTC time of instant `secs` plus `millis` milliseconds as
/// `YYYY.MM.DD-hh:mm:ss.mmm`.
pub fn timestr_millis(secs: u64, millis: u32) -> (r: String)
    requires
        secs < clock_limit(),
        millis < 1000,
    ensures
        r@ == ascii_text(clock_text_millis(secs as int, millis as int)),
{
    let mut out: Vec<u8> = Vec::new();
    clock_bytes(secs, &mut out);
    out.push(46);
    push_padded(&mut out, millis as u64, 3);
    proof {
        assert(out@ =~= clock_text_millis(secs as int, millis as int));
        lemma_text_ascii(secs as int);
        lemma_padded_digits_are_digits(millis as nat, 3);
        let t = clock_text_millis(secs as int, millis as int);
        assert forall|i: int| 0 <= i < t.len() implies #[trigger] t[i] < 128 by {
            if i < clock_text(secs as int).len() {
                assert(t[i] == clock_text(secs as int)[i]);
            }
        }
    }
    ascii_string(out)
}

/// Why a timestamp text was refused.
#[derive(Debug, Clone, Copy, PartialEq, Eq, Structural)]
pub enum TimestrError {
    /// There is no `-` between date and time.
    NoTime,
    /// A field is not a decimal `i32`.
    BadField(IntErrorKind),
}

/// A date or time field: a decimal `i32`.
pub open spec fn field_value(p: Seq<u8>) -> Result<int, IntErrorKind> {
    parse_int_spec(p, 10, true, -2147483648, 2147483647)
}

/// The six fields of a timestamp text, read in order: year, month, day,
/// hour, minute, second.  The date is the text before the first `-` split at
/// `.`, the time the text after it up to any second `-`, split at `:`.
/// `None` stands for a text that lacks a field once all fields before it
/// have been read (a missing month, day, minute or second).
pub open spec fn timestr_fields(s: Seq<u8>) -> Option<Result<(int, int, int, int, int, int), TimestrError>> {
    let parts = split_on(s, 45);
    if parts.len() < 2 {
        Some(Err(TimestrError::NoTime))
    } else {
        let date = split_on(parts[0], 46);
        let time = split_on(parts[1], 58);
        match field_value(date[0]) {
            Err(e) => Some(Err(TimestrError::BadField(e))),
            Ok(year) => if date.len() < 2 { None } else {
                match field_value(date[1]) {
                    Err(e) => Some(Err(TimestrError::BadField(e))),
                    Ok(month) => if date.len() < 3 { None } else {
                        match field_value(date[2]) {
                            Err(e) => Some(Err(TimestrError::BadField(e))),
                            Ok(mday) => match field_value(time[0]) {
                                Err(e) => Some(Err(TimestrError::BadField(e))),
                                Ok(hour) => if time.len() < 2 { None } else {
                                    match field_value(time[1]) {
                                        Err(e) => Some(Err(TimestrError::BadField(e))),
                                        Ok(min) => if time.len() < 3 { None } else {
                                            match field_value(time[2]) {
                                                Err(e) => Some(Err(TimestrError::BadField(e))),
                                                Ok(sec) => Some(Ok((year, month, mday, hour, min, sec))),
                                            }
                                        },
                                    }
                                },
                            },
                        }
                    },
                }
            },
        }
    }
}

/// Seconds since the epoch of a broken-down UTC time as `timegm` reads it:
/// the month (0-based) may lie outside `0..12` and moves the year; day, hour,
/// minute and second count on linearly.
pub open spec fn broken_down_secs(year: int, mon0: int, mday: int, hour: int, min: int, sec: int) -> int {
    (days_from_civil(year + mon0 / 12, mon0 % 12 + 1, 1) + mday - 1) * 86400 + hour * 3600 + min * 60 + sec
}

/// The instant lies in a year whose number less 1900 is an `i32`, so that
/// `timegm` can represent it; otherwise `timegm` answers -1.
pub open spec fn in_tm_range(t: int) -> bool {
    days_from_civil(-2147481748, 1, 1) * 86400 <= t < days_from_civil(2147485548, 1, 1) * 86400
}

pub open spec fn timegm(year: int, mon0: int, mday: int, hour: int, min: int, sec: int) -> int {
    let t = broken_down_secs(year, mon0, mday, hour, min, sec);
    if in_tm_range(t) { t } else { -1 }
}

/// The low 32 bits of `t`, as `t as u32` keeps them.
pub open spec fn low32(t: int) -> u32 {
    (t % 0x1_0000_0000) as u32
}

/// What reading the timestamp text `s` gives: `None` where a field is
/// missing, else the error or the instant cut to 32 bits.
pub open spec fn parse_timestr_spec(s: Seq<u8>) -> Option<Result<u32, TimestrError>> {
    match timestr_fields(s) {
        None => None,
        Some(Err(e)) => Some(Err(e)),
        Some(Ok(f)) => Some(Ok(low32(timegm(f.0, f.1 - 1, f.2, f.3, f.4, f.5)))),
    }
}

proof fn lemma_shifted_leaps(y: int, a: int)
    requires
        a == y + 399,
        a >= 0,
    ensures
        a / 4 - a / 100 + a / 400 - 97 == leaps_before(y),
{
    assert(a / 4 == (y - 1) / 4 + 100);
    assert(a / 100 == (y - 1) / 100 + 4);
    assert(a / 400 == (y - 1) / 400 + 1);
}

proof fn lemma_shifted_leap(y: int, yp: int)
    requires
        yp == y + 400,
    ensures
        (yp % 4 == 0 && (yp % 100 != 0 || yp % 400 == 0)) == is_leap(y),
{
    assert(yp % 4 == y % 4);
    assert(yp % 100 == y % 100);
    assert(yp % 400 == y % 400);
}

/// Days from 1970-01-01 to the first of month `m` of year `y`.
fn first_of_month_days(y: i64, m: i64) -> (r: i64)
    requires
        -1 <= y <= 2400000000,
        1 <= m <= 12,
    ensures
        r == days_from_civil(y as int, m as int, 1),
{
    let a: u64 = (y + 399) as u64;
    let lb: i64 = (a / 4) as i64 - (a / 100) as i64 + (a / 400) as i64 - 97;
    proof {
        lemma_shifted_leaps(y as int, a as int);
    }
    let yp: u64 = (y + 400) as u64;
    let leap = yp % 4 == 0 && (yp % 100 != 0 || yp % 400 == 0);
    proof {
        lemma_shifted_leap(y as int, yp as int);
    }
    let base: i64 = if m <= 1 { 0 }
        else if m == 2 { 31 }
        else if m == 3 { 59 }
        else if m == 4 { 90 }
        else if m == 5 { 120 }
        else if m == 6 { 151 }
        else if m == 7 { 181 }
        else if m == 8 { 212 }
        else if m == 9 { 243 }
        else if m == 10 { 273 }
        else if m == 11 { 304 }
        else { 334 };
    let extra: i64 = if m > 2 && leap { 1 } else { 0 };
    proof {
        assert(leaps_before(1970) == 477);
        assert(base + extra == days_before_month(y as int, m as int));
    }
    365 * (y - 1970) + lb - 477 + base + extra
}

proof fn lemma_first_of_month_lower(y: int, m: int)
    requires
        -1 <= y,
        1 <= m <= 12,
    ensures
        days_from_civil(y, m, 1) >= days_from_civil(-1, 1, 1),
{
    if y > -1 {
        lemma_years_ordered(-1, y);
        lemma_year_step(-1);
    }
}

proof fn lemma_range_constants()
    ensures
        days_from_civil(-2147481748, 1, 1) < -800000,
        days_from_civil(2147485548, 1, 1) > 2932897,
        days_from_civil(10000, 1, 1) == 2932897,
        days_from_civil(-1, 1, 1) > -800000 + 1,
{
}

/// `timegm` of the fields read from a timestamp text (all non-negative,
/// as the text splits at `-`), cut to 32 bits.
#[verifier::rlimit(40)]
fn timegm_low32(year: i32, mon0: i32, mday: i32, hour: i32, min: i32, sec: i32) -> (r: u32)
    requires
        year >= 0,
        mon0 >= -1,
        mday >= 0,
        hour >= 0,
        min >= 0,
        sec >= 0,
    ensures
        r == low32(timegm(year as int, mon0 as int, mday as int, hour as int, min as int, sec as int)),
{
    let (y, m): (i64, i64) = if mon0 < 0 {
        (year as i64 - 1, 12)
    } else {
        (year as i64 + (mon0 / 12) as i64, (mon0 % 12) as i64 + 1)
    };
    proof {
        if mon0 < 0 {
            assert((mon0 as int) / 12 == -1);
            assert((mon0 as int) % 12 == 11);
        }
    }
    let first = first_of_month_days(y, m);
    let days: i64 = first + mday as i64 - 1;
    let t: i64 = days * 86400 + hour as i64 * 3600 + min as i64 * 60 + sec as i64;
    let hi: i64 = first_of_month_days(2147485548, 1) * 86400;
    proof {
        lemma_first_of_month_lower(y as int, m as int);
        lemma_range_constants();
        assert(t == broken_down_secs(year as int, mon0 as int, mday as int, hour as int, min as int, sec as int));
    }
    proof {
        lemma_range_constants();
        assert(t >= (days_from_civil(-1, 1, 1) - 1) * 86400);
    }
    if t < hi {
        let u: u64 = (t + 0x10_0000_0000) as u64;
        proof {
            assert((u as int) % 0x1_0000_0000 == (t as int) % 0x1_0000_0000);
        }
        (u % 0x1_0000_0000) as u32
    } else {
        0xffff_ffff
    }
}

fn field_exec(p: &[u8]) -> (r: Result<i32, IntErrorKind>)
    ensures
        r matches Ok(v) ==> field_value(p@) == Ok::<int, IntErrorKind>(v as int),
        r matches Err(e) ==> field_value(p@) == Err::<int, IntErrorKind>(e),
{
    match parse_int(p, 10, true, -2147483648, 2147483647) {
        Ok(v) => Ok(v as i32),
        Err(e) => Err(e),
    }
}

/// Whether reading the timestamp text `s` would find a field missing.
pub fn timestr_lacks_field(s: &str) -> (r: bool)
    ensures
        r == (timestr_fields(s.spec_bytes()) is None),
{
    match read_fields(s.as_bytes()) {
        None => true,
        Some(_) => false,
    }
}

fn read_fields(b: &[u8]) -> (r: Option<Result<(i32, i32, i32, i32, i32, i32), TimestrError>>)
    ensures
        r is None <==> timestr_fields(b@) is None,
        r matches Some(Err(e)) ==> timestr_fields(b@) == Some(Err::<(int, int, int, int, int, int), TimestrError>(e)),
        r matches Some(Ok(f)) ==> timestr_fields(b@) == Some(Ok::<(int, int, int, int, int, int), TimestrError>(
            (f.0 as int, f.1 as int, f.2 as int, f.3 as int, f.4 as int, f.5 as int))),
{
    let parts = split_bytes(b, 45);
    if parts.len() < 2 {
        return Some(Err(TimestrError::NoTime));
    }
    proof {
        lemma_bytes_deep_view(parts@[0]);
        lemma_bytes_deep_view(parts@[1]);
    }
    let date = split_bytes(parts[0].as_slice(), 46);
    let time = split_bytes(parts[1].as_slice(), 58);
    proof {
        lemma_split_on_nonempty(parts@[0]@, 46);
        lemma_split_on_nonempty(parts@[1]@, 58);
        lemma_bytes_deep_view(date@[0]);
        lemma_bytes_deep_view(time@[0]);
        if date.len() > 1 { lemma_bytes_deep_view(date@[1]); }
        if date.len() > 2 { lemma_bytes_deep_view(date@[2]); }
        if time.len() > 1 { lemma_bytes_deep_view(time@[1]); }
        if time.len() > 2 { lemma_bytes_deep_view(time@[2]); }
    }
    let year = match field_exec(date[0].as_slice()) {
        Err(e) => return Some(Err(TimestrError::BadField(e))),
        Ok(v) => v,
    };
    if date.len() < 2 {
        return None;
    }
    let month = match field_exec(date[1].as_slice()) {
        Err(e) => return Some(Err(TimestrError::BadField(e))),
        Ok(v) => v,
    };
    if date.len() < 3 {
        return None;
    }
    let mday = match field_exec(date[2].as_slice()) {
        Err(e) => return Some(Err(TimestrError::BadField(e))),
        Ok(v) => v,
    };
    let hour = match field_exec(time[0].as_slice()) {
        Err(e) => return Some(Err(TimestrError::BadField(e))),
        Ok(v) => v,
    };
    if time.len() < 2 {
        return None;
    }
    let min = match field_exec(time[1].as_slice()) {
        Err(e) => return Some(Err(TimestrError::BadField(e))),
        Ok(v) => v,
    };
    if time.len() < 3 {
        return None;
    }
    let sec = match field_exec(time[2].as_slice()) {
        Err(e) => return Some(Err(TimestrError::BadField(e))),
        Ok(v) => v,
    };
    Some(Ok((year, month, mday, hour, min, sec)))
}

proof fn lemma_fields_nonneg(s: Seq<u8>)
    ensures
        timestr_fields(s) matches Some(Ok(f)) ==> f.0 >= 0 && f.1 >= 0 && f.2 >= 0 && f.3 >= 0 && f.4 >= 0 && f.5 >= 0,
{
    let parts = split_on(s, 45);
    lemma_split_on_pieces(s, 45, 45);
    if parts.len() >= 2 {
        let p0 = parts[0];
        let p1 = parts[1];
        assert(forall|i: int| 0 <= i < p0.len() ==> #[trigger] p0[i] != 45);
        assert(forall|i: int| 0 <= i < p1.len() ==> #[trigger] p1[i] != 45);
        lemma_split_on_pieces(p0, 46, 45);
        lemma_split_on_pieces(p1, 58, 45);
        lemma_split_on_nonempty(p0, 46);
        lemma_split_on_nonempty(p1, 58);
        let date = split_on(p0, 46);
        let time = split_on(p1, 58);
        assert forall|k: int| 0 <= k < date.len() implies
            (field_value(#[trigger] date[k]) matches Ok(v) ==> v >= 0) by {
            assert(forall|i: int| 0 <= i < date[k].len() ==> #[trigger] date[k][i] != 45);
            lemma_parse_without_minus(date[k], 10, true, -2147483648, 2147483647);
        }
        assert forall|k: int| 0 <= k < time.len() implies
            (field_value(#[trigger] time[k]) matches Ok(v) ==> v >= 0) by {
            assert(forall|i: int| 0 <= i < time[k].len() ==> #[trigger] time[k][i] != 45);
            lemma_parse_without_minus(time[k], 10, true, -2147483648, 2147483647);
        }
    }
}

/// Reads a result timestamp back as seconds since the epoch, cut to 32 bits;
/// the fields go through the same normalisation as `timegm`.  The text must
/// not lack a field (see `timestr_lacks_field`).
pub fn parse_timestr(s: &str) -> (r: Result<u32, TimestrError>)
    requires
        timestr_fields(s.spec_bytes()) is Some,
    ensures
        parse_timestr_spec(s.spec_bytes()) == Some(r),
{
    parse_timestr_bytes(s.as_bytes())
}

/// `parse_timestr` on the bytes of a text.
pub fn parse_timestr_bytes(b: &[u8]) -> (r: Result<u32, TimestrError>)
    requires
        timestr_fields(b@) is Some,
    ensures
        parse_timestr_spec(b@) == Some(r),
{
    proof {
        lemma_fields_nonneg(b@);
    }
    match read_fields(b) {
        None => {
            proof {
                assert(false);
            }
            Err(TimestrError::NoTime)
        },
        Some(Err(e)) => Err(e),
        Some(Ok(f)) => Ok(timegm_low32(f.0, f.1 - 1, f.2, f.3, f.4, f.5)),
    }
}

/// Whether reading timestamp bytes `b` would find a field missing.
pub fn timestr_bytes_lack_field(b: &[u8]) -> (r: bool)
    ensures
        r == (timestr_fields(b@) is None),
{
    match read_fields(b) {
        None => true,
        Some(_) => false,
    }
}

/// The year that day `z` falls in, searched from year `y` on.
proof fn lemma_year_of_day(y: int, z: int) -> (yy: int)
    requires
        1970 <= y <= last_year(),
        days_from_civil(y, 1, 1) <= z < days_from_civil(last_year() + 1, 1, 1),
    ensures
        y <= yy <= last_year(),
        days_from_civil(yy, 1, 1) <= z < days_from_civil(yy + 1, 1, 1),
    decreases last_year() + 1 - y,
{
    lemma_year_step(y);
    if z < days_from_civil(y + 1, 1, 1) {
        y
    } else {
        lemma_year_of_day(y + 1, z)
    }
}

/// The month of year `y` that day `z` falls in, searched from month `m` on.
proof fn lemma_month_of_day(y: int, m: int, z: int) -> (mm: int)
    requires
        1 <= m <= 12,
        days_from_civil(y, m, 1) <= z < days_from_civil(y + 1, 1, 1),
    ensures
        m <= mm <= 12,
        days_from_civil(y, mm, 1) <= z < days_from_civil(y, mm, 1) + month_len(y, mm),
    decreases 12 - m,
{
    if m == 12 {
        lemma_december_step(y);
        m
    } else {
        lemma_month_step(y, m);
        if z < days_from_civil(y, m, 1) + month_len(y, m) {
            m
        } else {
            lemma_month_of_day(y, m + 1, z)
        }
    }
}

/// Every day from 1970 up to the end of the last year has its date.
proof fn lemma_date_of_day(z: int)
    requires
        0 <= z < days_from_civil(last_year() + 1, 1, 1),
    ensures
        valid_date(civil_from_days(z).0, civil_from_days(z).1, civil_from_days(z).2),
        days_from_civil(civil_from_days(z).0, civil_from_days(z).1, civil_from_days(z).2) == z,
        1970 <= civil_from_days(z).0 <= last_year(),
{
    let y = lemma_year_of_day(1970, z);
    let m = lemma_month_of_day(y, 1, z);
    let d = z - days_from_civil(y, m, 1) + 1;
    assert(valid_date(y, m, d));
    assert(days_from_civil(y, m, d) == z);
    lemma_civil_from_days(y, m, d);
}

/// A zero-padded number of `w` digits reads back as its value.
proof fn lemma_field_padded(n: nat, w: nat)
    requires
        1 <= w,
        n < pow10(w),
        n <= 2147483647,
    ensures
        field_value(padded_digits(n, w)) == Ok::<int, IntErrorKind>(n as int),
{
    lemma_padded_digits_are_digits(n, w);
    lemma_parse_padded(n, w, -2147483648, 2147483647);
    assert(is_digit(padded_digits(n, w)[0]));
}

/// Three separator-free pieces joined by the separator split back apart.
proof fn lemma_split_three(a: Seq<u8>, b: Seq<u8>, c: Seq<u8>, sep: u8)
    requires
        forall|i: int| 0 <= i < a.len() ==> #[trigger] a[i] != sep,
        forall|i: int| 0 <= i < b.len() ==> #[trigger] b[i] != sep,
        forall|i: int| 0 <= i < c.len() ==> #[trigger] c[i] != sep,
    ensures
        split_on(a + seq![sep] + (b + seq![sep] + c), sep) == seq![a, b, c],
{
    lemma_split_on_none(a, sep);
    lemma_split_on_none(b, sep);
    lemma_split_on_none(c, sep);
    lemma_split_on_concat(b, c, sep);
    lemma_split_on_concat(a, b + seq![sep] + c, sep);
    assert(seq![a] + (seq![b] + seq![c]) =~= seq![a, b, c]);
}

/// The bytes that a timestamp text is made of.
pub open spec fn clock_char(c: u8) -> bool {
    is_digit(c) || c == 45 || c == 46 || c == 58
}

pub open spec fn clock_chars(s: Seq<u8>) -> bool {
    forall|i: int| 0 <= i < s.len() ==> clock_char(#[trigger] s[i])
}

pub open spec fn all_digits(s: Seq<u8>) -> bool {
    forall|i: int| 0 <= i < s.len() ==> is_digit(#[trigger] s[i])
}

proof fn lemma_clock_chars_concat(a: Seq<u8>, b: Seq<u8>)
    requires
        clock_chars(a),
        clock_chars(b),
    ensures
        clock_chars(a + b),
{
    assert forall|i: int| 0 <= i < (a + b).len() implies clock_char(#[trigger] (a + b)[i]) by {
        if i < a.len() {
            assert((a + b)[i] == a[i]);
        } else {
            assert((a + b)[i] == b[i - a.len()]);
        }
    }
}

proof fn lemma_digits_chars(s: Seq<u8>)
    requires
        all_digits(s),
    ensures
        clock_chars(s),
        lacks(s, 45),
        lacks(s, 46),
        lacks(s, 58),
{
    assert forall|i: int| 0 <= i < s.len() implies clock_char(#[trigger] s[i]) by {
        assert(is_digit(s[i]));
    }
    assert forall|i: int| 0 <= i < s.len() implies #[trigger] s[i] != 45 && s[i] != 46 && s[i] != 58 by {
        assert(is_digit(s[i]));
    }
}

proof fn lemma_year_text(y: int)
    requires
        0 <= y,
    ensures
        all_digits(year_text(y)),
        year_text(y).len() >= 1,
{
    if y < 10000 {
        lemma_padded_digits_are_digits(y as nat, 4);
    } else {
        lemma_decimal_are_digits(y as nat);
    }
}

proof fn lemma_padded_digits(n: nat, w: nat)
    ensures
        all_digits(padded_digits(n, w)),
{
    lemma_padded_digits_are_digits(n, w);
}

/// The pieces of a timestamp text: year, month, day, hour, minute, second.
proof fn lemma_clock_pieces(secs: int)
    requires
        0 <= secs < clock_limit(),
    ensures
        ({
            let (y, m, d) = civil_from_days(secs / 86400);
            let r = secs % 86400;
            &&& 1970 <= y <= last_year()
            &&& valid_date(y, m, d)
            &&& days_from_civil(y, m, d) == secs / 86400
            &&& all_digits(year_text(y)) && year_text(y).len() >= 1
            &&& all_digits(padded_digits(m as nat, 2)) && all_digits(padded_digits(d as nat, 2))
            &&& all_digits(padded_digits((r / 3600) as nat, 2)) && all_digits(padded_digits((r % 3600 / 60) as nat, 2))
            &&& all_digits(padded_digits((r % 60) as nat, 2))
        }),
{
    let z = secs / 86400;
    let r = secs % 86400;
    assert(days_from_civil(2147485548, 1, 1) == 784352270737);
    lemma_date_of_day(z);
    let (y, m, d) = civil_from_days(z);
    lemma_year_text(y);
    lemma_padded_digits(m as nat, 2);
    lemma_padded_digits(d as nat, 2);
    lemma_padded_digits((r / 3600) as nat, 2);
    lemma_padded_digits((r % 3600 / 60) as nat, 2);
    lemma_padded_digits((r % 60) as nat, 2);
}

/// A timestamp text holds digits, `.`, `-` and `:` only.
pub proof fn lemma_clock_text_bytes(secs: int)
    requires
        0 <= secs < clock_limit(),
    ensures
        forall|i: int| 0 <= i < clock_text(secs).len() ==> {
            let c = #[trigger] clock_text(secs)[i];
            is_digit(c) || c == 45 || c == 46 || c == 58
        },
{
    lemma_clock_pieces(secs);
    let (y, m, d) = civil_from_days(secs / 86400);
    let r = secs % 86400;
    let py = year_text(y);
    let pm = padded_digits(m as nat, 2);
    let pd = padded_digits(d as nat, 2);
    let ph = padded_digits((r / 3600) as nat, 2);
    let pmi = padded_digits((r % 3600 / 60) as nat, 2);
    let ps = padded_digits((r % 60) as nat, 2);
    lemma_digits_chars(py);
    lemma_digits_chars(pm);
    lemma_digits_chars(pd);
    lemma_digits_chars(ph);
    lemma_digits_chars(pmi);
    lemma_digits_chars(ps);
    assert(clock_chars(seq![46u8]) && clock_chars(seq![45u8]) && clock_chars(seq![58u8]));
    lemma_clock_chars_concat(pm, seq![46u8]);
    lemma_clock_chars_concat(pm + seq![46u8], pd);
    lemma_clock_chars_concat(py, seq![46u8]);
    lemma_clock_chars_concat(py + seq![46u8], pm + seq![46u8] + pd);
    lemma_clock_chars_concat(pmi, seq![58u8]);
    lemma_clock_chars_concat(pmi + seq![58u8], ps);
    lemma_clock_chars_concat(ph, seq![58u8]);
    lemma_clock_chars_concat(ph + seq![58u8], pmi + seq![58u8] + ps);
    let date = date_text(y, m, d);
    let time = time_text(r / 3600, r % 3600 / 60, r % 60);
    lemma_clock_chars_concat(date, seq![45u8]);
    lemma_clock_chars_concat(date + seq![45u8], time);
    let t = clock_text(secs);
    assert forall|i: int| 0 <= i < t.len() implies {
        let c = #[trigger] t[i];
        is_digit(c) || c == 45 || c == 46 || c == 58
    } by {
        assert(clock_char(t[i]));
    }
}

/// A year written by `year_text` reads back as a field.
proof fn lemma_field_year(y: int)
    requires
        0 <= y <= 2147483647,
    ensures
        field_value(year_text(y)) == Ok::<int, IntErrorKind>(y),
{
    if y < 10000 {
        reveal_with_fuel(pow10, 5);
        assert(pow10(4) == 10000);
        lemma_field_padded(y as nat, 4);
    } else {
        lemma_decimal_are_digits(y as nat);
        lemma_parse_decimal(y as nat, -2147483648, 2147483647);
        assert(is_digit(decimal(y as nat)[0]));
    }
}

/// A timestamp written by `timestr` reads back, through `parse_timestr`, as
/// the instant it was written for (cut to 32 bits, as the reader keeps it),
/// for every instant whose year reads back as an `i32`.
#[verifier::spinoff_prover]
#[verifier::rlimit(60)]
pub proof fn lemma_timestr_roundtrip(secs: int)
    requires
        0 <= secs < readable_limit(),
    ensures
        parse_timestr_spec(clock_text(secs)) == Some(Ok::<u32, TimestrError>(low32(secs))),
{
    let z = secs / 86400;
    let r = secs % 86400;
    lemma_range_constants();
    assert(days_from_civil(2147483648, 1, 1) == 784351576777);
    lemma_clock_pieces(secs);
    let (y, m, d) = civil_from_days(z);
    lemma_date_within_year(y, m, d);
    if y > 2147483647 {
        lemma_years_ordered(2147483647, y);
    }
    let (h, mi, s) = (r / 3600, r % 3600 / 60, r % 60);
    let py = year_text(y);
    let pm = padded_digits(m as nat, 2);
    let pd = padded_digits(d as nat, 2);
    let ph = padded_digits(h as nat, 2);
    let pmi = padded_digits(mi as nat, 2);
    let ps = padded_digits(s as nat, 2);
    lemma_digits_chars(py);
    lemma_digits_chars(pm);
    lemma_digits_chars(pd);
    lemma_digits_chars(ph);
    lemma_digits_chars(pmi);
    lemma_digits_chars(ps);
    lemma_split_three(py, pm, pd, 46);
    lemma_split_three(ph, pmi, ps, 58);
    let date = date_text(y, m, d);
    let time = time_text(h, mi, s);
    assert(lacks(seq![46u8], 45) && lacks(seq![58u8], 45));
    lemma_lacks_concat(pm, seq![46u8], 45);
    lemma_lacks_concat(pm + seq![46u8], pd, 45);
    lemma_lacks_concat(py, seq![46u8], 45);
    lemma_lacks_concat(py + seq![46u8], pm + seq![46u8] + pd, 45);
    lemma_lacks_concat(pmi, seq![58u8], 45);
    lemma_lacks_concat(pmi + seq![58u8], ps, 45);
    lemma_lacks_concat(ph, seq![58u8], 45);
    lemma_lacks_concat(ph + seq![58u8], pmi + seq![58u8] + ps, 45);
    lemma_split_on_none(date, 45);
    lemma_split_on_none(time, 45);
    lemma_split_on_concat(date, time, 45);
    assert(split_on(clock_text(secs), 45) =~= seq![date, time]);
    reveal_with_fuel(pow10, 5);
    assert(pow10(2) == 100);
    lemma_field_year(y);
    lemma_field_padded(m as nat, 2);
    lemma_field_padded(d as nat, 2);
    lemma_field_padded(h as nat, 2);
    lemma_field_padded(mi as nat, 2);
    lemma_field_padded(s as nat, 2);
    assert(timestr_fields(clock_text(secs)) == Some(Ok::<(int, int, int, int, int, int), TimestrError>((y, m, d, h, mi, s))));
    assert((m - 1) / 12 == 0 && (m - 1) % 12 + 1 == m);
    assert(h * 3600 + mi * 60 + s == r);
    assert(broken_down_secs(y, m - 1, d, h, mi, s) == secs);
    assert(in_tm_range(secs));
}

} // verus!
