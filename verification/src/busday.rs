//! The business-day resolver. Forex trading days roll over at the New York
//! market close, 17:00 America/New_York, not at local midnight. A UTC
//! instant is shifted by seven hours so that the roll-over falls on a NY
//! calendar-day boundary, and the NY calendar date of the shifted instant
//! is the business date. Time-zone offsets come from `chrono-tz`; all
//! calendar arithmetic on top of them is verified.

use vstd::prelude::*;
use crate::calendar::{
    civil_from_days,
    days_in_month,
    epoch_day_of,
    previous_date,
    valid_date,
    BusinessDate,
};
use crate::num::floor_div;
use crate::parse::{all_digits, digits_span_value, digits_value, str_chars};
use crate::record::{TIME_MAX, TIME_MIN};

verus! {

/// Seconds between the New York close and NY midnight: 7 hours.
pub const CLOSE_SHIFT: i64 = 25200;

/// Earliest instant the resolver accepts.
pub const BDAY_UNIX_MIN: i64 = crate::record::TIME_LO;

/// Latest instant the resolver accepts.
pub const BDAY_UNIX_MAX: i64 = crate::record::TIME_HI;

/// The UTC offset, in seconds, that America/New_York has at the UTC
/// instant `t`. Fixed by the time-zone database compiled into the engine.
pub uninterp spec fn ny_utc_offset(t: int) -> int;

/// The UTC instant, in seconds, of the America/New_York civil time
/// `y-m-d h:mi:s`, or `None` where that civil time does not exist or is
/// ambiguous. Fixed by the time-zone database compiled into the engine.
pub uninterp spec fn ny_local_epoch(y: int, m: int, d: int, h: int, mi: int, s: int) -> Option<
    int,
>;

/// The UTC instant, in seconds, of the Asia/Tokyo civil time
/// `y-m-d h:mi:s`, or `None` where that civil time does not exist or is
/// ambiguous. Fixed by the time-zone database compiled into the engine.
pub uninterp spec fn jst_local_epoch(y: int, m: int, d: int, h: int, mi: int, s: int) -> Option<
    int,
>;

/// Relies on `chrono::DateTime::from_timestamp` and
/// `chrono_tz`'s `TimeZone::offset_from_utc_datetime` for
/// America/New_York: every `i64` instant falls in exactly one time span,
/// and the offset, as a `chrono::FixedOffset`, is strictly between plus
/// and minus one day.
#[verifier::external_body]
fn ny_offset_seconds(t: i64) -> (r: i32)
    requires
        TIME_MIN - 172800 <= t <= TIME_MAX + 172800,
    ensures
        r as int == ny_utc_offset(t as int),
        -86400 < r < 86400,
{
    let dt = chrono::DateTime::from_timestamp(t, 0).unwrap();
    let off = chrono::TimeZone::offset_from_utc_datetime(
        &chrono_tz::America::New_York,
        &dt.naive_utc(),
    );
    chrono::Offset::fix(&off).local_minus_utc()
}

/// Relies on `chrono`'s `TimeZone::with_ymd_and_hms` for
/// America/New_York: `single()` is `Some` exactly when the civil time
/// exists unambiguously, and `timestamp()` is its UTC instant. Relies
/// further on the zone law of `chrono-tz`'s conversion: the resolved
/// instant lies inside the very zone span that converted it, so the
/// instant plus its own UTC offset gives back the requested proleptic
/// Gregorian civil seconds.
#[verifier::external_body]
fn ny_local_timestamp(y: i64, m: i64, d: i64, h: i64, mi: i64, s: i64) -> (r: Option<i64>)
    requires
        1 <= y <= 9999,
        1 <= m <= 12,
        1 <= d <= 31,
        0 <= h <= 23,
        0 <= mi <= 59,
        0 <= s <= 59,
    ensures
        (r is Some <==> ny_local_epoch(
            y as int,
            m as int,
            d as int,
            h as int,
            mi as int,
            s as int,
        ) is Some),
        r is Some ==> r->0 as int == ny_local_epoch(
            y as int,
            m as int,
            d as int,
            h as int,
            mi as int,
            s as int,
        )->0,
        r is Some ==> r->0 as int + ny_utc_offset(r->0 as int) == epoch_day_of(
            y as int,
            m as int,
            d as int,
        ) * 86400 + h * 3600 + mi * 60 + s,
{
    let res = chrono::TimeZone::with_ymd_and_hms(
        &chrono_tz::America::New_York,
        y as i32,
        m as u32,
        d as u32,
        h as u32,
        mi as u32,
        s as u32,
    );
    match res.single() {
        Some(dt) => Some(dt.timestamp()),
        None => None,
    }
}

/// Relies on `chrono`'s `TimeZone::with_ymd_and_hms` for Asia/Tokyo:
/// `single()` is `Some` exactly when the civil time exists unambiguously,
/// and `timestamp()` is its UTC instant.
#[verifier::external_body]
fn jst_local_timestamp(y: i64, m: i64, d: i64, h: i64, mi: i64, s: i64) -> (r: Option<i64>)
    requires
        1 <= y <= 9999,
        1 <= m <= 12,
        1 <= d <= 31,
        0 <= h <= 23,
        0 <= mi <= 59,
        0 <= s <= 59,
    ensures
        (r is Some <==> jst_local_epoch(
            y as int,
            m as int,
            d as int,
            h as int,
            mi as int,
            s as int,
        ) is Some),
        r is Some ==> r->0 as int == jst_local_epoch(
            y as int,
            m as int,
            d as int,
            h as int,
            mi as int,
            s as int,
        )->0,
{
    let res = chrono::TimeZone::with_ymd_and_hms(
        &chrono_tz::Asia::Tokyo,
        y as i32,
        m as u32,
        d as u32,
        h as u32,
        mi as u32,
        s as u32,
    );
    match res.single() {
        Some(dt) => Some(dt.timestamp()),
        None => None,
    }
}

/// The epoch-day number of the business date that the UTC instant `t`
/// belongs to: the NY calendar day of `t` shifted by seven hours.
pub open spec fn business_day_spec(t: int) -> int {
    (t + CLOSE_SHIFT + ny_utc_offset(t + CLOSE_SHIFT)) / 86400
}

/// An instant one second past a business-day boundary starts the next
/// business date: if the NY offset does not move across the two instants
/// and the first ends its business day, the second opens the following
/// one.
pub proof fn lemma_business_day_boundary(t1: int, t2: int)
    requires
        t1 < t2,
        ny_utc_offset(t1 + CLOSE_SHIFT) == ny_utc_offset(t2 + CLOSE_SHIFT),
        (t1 + CLOSE_SHIFT + ny_utc_offset(t1 + CLOSE_SHIFT)) % 86400 + (t2 - t1) >= 86400,
        (t1 + CLOSE_SHIFT + ny_utc_offset(t1 + CLOSE_SHIFT)) % 86400 + (t2 - t1) < 172800,
    ensures
        business_day_spec(t2) == business_day_spec(t1) + 1,
{
    let s1 = t1 + CLOSE_SHIFT + ny_utc_offset(t1 + CLOSE_SHIFT);
    let s2 = t2 + CLOSE_SHIFT + ny_utc_offset(t2 + CLOSE_SHIFT);
    let q = s1 / 86400;
    let r = s1 % 86400;
    vstd::arithmetic::div_mod::lemma_fundamental_div_mod(s1, 86400);
    vstd::arithmetic::div_mod::lemma_mod_bound(s1, 86400);
    assert(s2 == (q + 1) * 86400 + (r + (t2 - t1) - 86400)) by {
        vstd::arithmetic::mul::lemma_mul_is_distributive_add_other_way(86400, q, 1);
        vstd::arithmetic::mul::lemma_mul_is_commutative(86400, q + 1);
    };
    vstd::arithmetic::div_mod::lemma_fundamental_div_mod_converse_div(
        s2,
        86400,
        q + 1,
        r + (t2 - t1) - 86400,
    );
}

/// The business date of a UTC instant: the NY calendar date of the
/// instant shifted by seven hours, so that an instant at or after the NY
/// close belongs to the next calendar date.
#[verifier::loop_isolation(false)]
pub fn get_business_date_from_unix(unix: i64) -> (r: BusinessDate)
    requires
        BDAY_UNIX_MIN <= unix <= BDAY_UNIX_MAX,
    ensures
        r.wf(),
        epoch_day_of(r.year as int, r.month as int, r.day as int) == business_day_spec(
            unix as int,
        ),
{
    let day = business_epoch_day(unix);
    civil_from_days(day)
}

/// The epoch-day number of the business date of a UTC instant; always a
/// day the calendar holds.
#[verifier::loop_isolation(false)]
pub fn business_epoch_day(unix: i64) -> (r: i64)
    requires
        BDAY_UNIX_MIN <= unix <= BDAY_UNIX_MAX,
    ensures
        r == business_day_spec(unix as int),
        epoch_day_of(1, 1, 1) <= r <= epoch_day_of(9999, 12, 31),
{
    let off: i32 = ny_offset_seconds(unix + CLOSE_SHIFT);
    let shifted: i64 = unix + CLOSE_SHIFT + (off as i64);
    let day: i64 = floor_div(shifted, 86400);
    proof {
        assert(epoch_day_of(1, 1, 1) == -719162);
        assert(epoch_day_of(9999, 12, 31) == 2932896) by {
            crate::calendar::lemma_dbm_full(9999);
            reveal_with_fuel(crate::calendar::days_before_month, 14);
        };
        assert(-719162 * 86400 <= shifted) by {
            assert(shifted >= TIME_MIN + 86400 + CLOSE_SHIFT - 86399);
        };
        assert(day >= -719162) by {
            vstd::arithmetic::div_mod::lemma_div_is_ordered(
                -719162 * 86400,
                shifted as int,
                86400,
            );
            vstd::arithmetic::div_mod::lemma_div_multiples_vanish(-719162, 86400);
            vstd::arithmetic::mul::lemma_mul_is_commutative(-719162, 86400);
        };
        assert(day <= 2932896) by {
            assert(shifted <= 2932896 * 86400 + 86399);
            vstd::arithmetic::div_mod::lemma_div_is_ordered(
                shifted as int,
                (2932896 * 86400 + 86399) as int,
                86400,
            );
            vstd::arithmetic::div_mod::lemma_fundamental_div_mod_converse_div(
                (2932896 * 86400 + 86399) as int,
                86400,
                2932896,
                86399,
            );
        };
    }
    day
}

/// What an eight-digit `YYYYMMDD` key names, if it is a valid date.
pub open spec fn parse_yyyymmdd_spec(s: Seq<char>) -> Option<(int, int, int)> {
    if s.len() != 8 || !all_digits(s) {
        None
    } else {
        let y = digits_value(s.subrange(0, 4));
        let m = digits_value(s.subrange(4, 6));
        let d = digits_value(s.subrange(6, 8));
        if valid_date(y, m, d) {
            Some((y, m, d))
        } else {
            None
        }
    }
}

/// The half-open UTC instant range of a business-date key: from the NY
/// close of the previous calendar date to the NY close of the date
/// itself.
pub open spec fn business_range_spec(s: Seq<char>) -> Option<(int, int)> {
    match parse_yyyymmdd_spec(s) {
        None => None,
        Some((y, m, d)) => {
            if y == 1 && m == 1 && d == 1 {
                None
            } else {
                let p = prev_date_spec(y, m, d);
                match (ny_local_epoch(p.0, p.1, p.2, 17, 0, 0), ny_local_epoch(y, m, d, 17, 0, 0)) {
                    (Some(a), Some(b)) => Some((a, b)),
                    _ => None,
                }
            }
        },
    }
}

/// The civil date one day earlier.
pub open spec fn prev_date_spec(y: int, m: int, d: int) -> (int, int, int) {
    if d > 1 {
        (y, m, d - 1)
    } else if m > 1 {
        (y, m - 1, days_in_month(y, m - 1))
    } else {
        (y - 1, 12, 31)
    }
}

/// The UTC instant range `[start, end)` of the business date named by an
/// eight-digit `YYYYMMDD` key: both ends are NY 17:00 boundaries,
/// converted through the full zoned-time rules.
#[verifier::loop_isolation(false)]
pub fn get_unix_range_from_business_date(date_str: &str) -> (r: Option<(i64, i64)>)
    ensures
        match r {
            Some(p) => business_range_spec(date_str@) == Some((p.0 as int, p.1 as int)),
            None => business_range_spec(date_str@) is None,
        },
        (match (r, parse_yyyymmdd_spec(date_str@)) {
            (Some(p), Some(t)) => p.0 as int + ny_utc_offset(p.0 as int) == (epoch_day_of(
                t.0,
                t.1,
                t.2,
            ) - 1) * 86400 + 61200 && p.1 as int + ny_utc_offset(p.1 as int) == epoch_day_of(
                t.0,
                t.1,
                t.2,
            ) * 86400 + 61200,
            _ => true,
        }),
{
    let v = str_chars(date_str);
    business_range_chars(&v)
}

/// The business-day range of a key given as characters.
#[verifier::loop_isolation(false)]
pub fn business_range_chars(v: &Vec<char>) -> (r: Option<(i64, i64)>)
    ensures
        match r {
            Some(p) => business_range_spec(v@) == Some((p.0 as int, p.1 as int)),
            None => business_range_spec(v@) is None,
        },
        (match (r, parse_yyyymmdd_spec(v@)) {
            (Some(p), Some(t)) => p.0 as int + ny_utc_offset(p.0 as int) == (epoch_day_of(
                t.0,
                t.1,
                t.2,
            ) - 1) * 86400 + 61200 && p.1 as int + ny_utc_offset(p.1 as int) == epoch_day_of(
                t.0,
                t.1,
                t.2,
            ) * 86400 + 61200,
            _ => true,
        }),
{
    if v.len() != 8 {
        return None;
    }
    let y = match digits_span_value(v, 0, 4) {
        Some(x) => x,
        None => {
            return None;
        },
    };
    let m = match digits_span_value(v, 4, 6) {
        Some(x) => x,
        None => {
            return None;
        },
    };
    let d = match digits_span_value(v, 6, 8) {
        Some(x) => x,
        None => {
            return None;
        },
    };
    proof {
        if all_digits(v@.subrange(0, 4)) && all_digits(v@.subrange(4, 6)) && all_digits(
            v@.subrange(6, 8),
        ) {
            assert forall|i: int| 0 <= i < v@.len() implies crate::parse::is_digit(
                #[trigger] v@[i],
            ) by {
                if i < 4 {
                    assert(v@.subrange(0, 4)[i] == v@[i]);
                } else if i < 6 {
                    assert(v@.subrange(4, 6)[i - 4] == v@[i]);
                } else {
                    assert(v@.subrange(6, 8)[i - 6] == v@[i]);
                }
            };
        }
    }
    let dim = if 1 <= y && y <= 9999 && 1 <= m && m <= 12 {
        crate::calendar::days_in_month_exec(y, m)
    } else {
        return None;
    };
    if !(1 <= d && d <= dim) {
        return None;
    }
    if y == 1 && m == 1 && d == 1 {
        return None;
    }
    let p: BusinessDate = previous_date(y, m, d);
    proof {
        lemma_prev_date_agrees(y as int, m as int, d as int, p);
    }
    let start = match ny_local_timestamp(p.year, p.month, p.day, 17, 0, 0) {
        Some(a) => a,
        None => {
            return None;
        },
    };
    let end = match ny_local_timestamp(y, m, d, 17, 0, 0) {
        Some(b) => b,
        None => {
            return None;
        },
    };
    proof {
        assert(parse_yyyymmdd_spec(v@) == Some((y as int, m as int, d as int)));
        assert(epoch_day_of(p.year as int, p.month as int, p.day as int) == epoch_day_of(
            y as int,
            m as int,
            d as int,
        ) - 1);
    }
    Some((start, end))
}

/// Every instant of a business date's half-open range resolves to that
/// date: where the two range ends are the New York closes of the day
/// before and the day itself (the zone law the range lookup states) and
/// the NY offset does not move across the instants involved, the
/// business-day rule maps the whole range to the day's number.
pub proof fn lemma_range_resolves(day: int, start: int, end: int, u: int)
    requires
        start + ny_utc_offset(start) == (day - 1) * 86400 + 61200,
        end + ny_utc_offset(end) == day * 86400 + 61200,
        start <= u < end,
        ny_utc_offset(u + CLOSE_SHIFT) == ny_utc_offset(start),
        ny_utc_offset(start) == ny_utc_offset(end),
    ensures
        business_day_spec(u) == day,
{
    let off = ny_utc_offset(start);
    let shifted = u + CLOSE_SHIFT + off;
    assert(day * 86400 <= shifted < (day + 1) * 86400) by {
        assert(start + off == (day - 1) * 86400 + 61200);
        assert(end + off == day * 86400 + 61200);
    };
    vstd::arithmetic::div_mod::lemma_fundamental_div_mod_converse_div(
        shifted,
        86400,
        day,
        shifted - day * 86400,
    );
}

/// The exec previous-date result is the spec previous date: both name the
/// calendar date one day earlier, and a valid date is determined by its
/// day number.
proof fn lemma_prev_date_agrees(y: int, m: int, d: int, p: BusinessDate)
    requires
        valid_date(y, m, d),
        !(y == 1 && m == 1 && d == 1),
        p.wf(),
        epoch_day_of(p.year as int, p.month as int, p.day as int) == epoch_day_of(y, m, d) - 1,
    ensures
        (p.year as int, p.month as int, p.day as int) == prev_date_spec(y, m, d),
{
    let q = prev_date_spec(y, m, d);
    assert(valid_date(q.0, q.1, q.2) && epoch_day_of(q.0, q.1, q.2) == epoch_day_of(y, m, d)
        - 1) by {
        crate::calendar::lemma_dby_next(y - 1);
        crate::calendar::lemma_dbm_full(y - 1);
        reveal_with_fuel(crate::calendar::days_before_month, 14);
    };
    crate::calendar::lemma_epoch_day_injective(
        p.year as int,
        p.month as int,
        p.day as int,
        q.0,
        q.1,
        q.2,
    );
}

/// Parses a Tokyo civil time `YYYY/MM/DD hh:mm:ss` and yields its UTC
/// instant.
pub open spec fn jst_unix_spec(s: Seq<char>) -> Option<int> {
    match parse_datetime_spec(s) {
        None => None,
        Some(t) => jst_local_epoch(t.0, t.1, t.2, t.3, t.4, t.5),
    }
}

/// What a strict `YYYY/MM/DD hh:mm:ss` string names.
pub open spec fn parse_datetime_spec(s: Seq<char>) -> Option<(int, int, int, int, int, int)> {
    if s.len() != 19 || s[4] != '/' || s[7] != '/' || s[10] != ' ' || s[13] != ':' || s[16] != ':' {
        None
    } else if !all_digits(s.subrange(0, 4)) || !all_digits(s.subrange(5, 7)) || !all_digits(
        s.subrange(8, 10),
    ) || !all_digits(s.subrange(11, 13)) || !all_digits(s.subrange(14, 16)) || !all_digits(
        s.subrange(17, 19),
    ) {
        None
    } else {
        let y = digits_value(s.subrange(0, 4));
        let m = digits_value(s.subrange(5, 7));
        let d = digits_value(s.subrange(8, 10));
        let h = digits_value(s.subrange(11, 13));
        let mi = digits_value(s.subrange(14, 16));
        let sec = digits_value(s.subrange(17, 19));
        if valid_date(y, m, d) && h <= 23 && mi <= 59 && sec <= 59 {
            Some((y, m, d, h, mi, sec))
        } else {
            None
        }
    }
}

/// A Tokyo civil time `YYYY/MM/DD hh:mm:ss` as a UTC instant.
#[verifier::loop_isolation(false)]
pub fn jst_str_to_unix(time_str: &str) -> (r: Option<i64>)
    ensures
        match r {
            Some(x) => jst_unix_spec(time_str@) == Some(x as int),
            None => jst_unix_spec(time_str@) is None,
        },
{
    let v = str_chars(time_str);
    if v.len() != 19 {
        return None;
    }
    if !(v[4] == '/' && v[7] == '/' && v[10] == ' ' && v[13] == ':' && v[16] == ':') {
        return None;
    }
    let y = match digits_span_value(&v, 0, 4) {
        Some(x) => x,
        None => {
            return None;
        },
    };
    let m = match digits_span_value(&v, 5, 7) {
        Some(x) => x,
        None => {
            return None;
        },
    };
    let d = match digits_span_value(&v, 8, 10) {
        Some(x) => x,
        None => {
            return None;
        },
    };
    let h = match digits_span_value(&v, 11, 13) {
        Some(x) => x,
        None => {
            return None;
        },
    };
    let mi = match digits_span_value(&v, 14, 16) {
        Some(x) => x,
        None => {
            return None;
        },
    };
    let sec = match digits_span_value(&v, 17, 19) {
        Some(x) => x,
        None => {
            return None;
        },
    };
    let dim = if 1 <= y && y <= 9999 && 1 <= m && m <= 12 {
        crate::calendar::days_in_month_exec(y, m)
    } else {
        return None;
    };
    if !(1 <= d && d <= dim && h <= 23 && mi <= 59 && sec <= 59) {
        return None;
    }
    jst_local_timestamp(y, m, d, h, mi, sec)
}

} // verus!
