//! Timestamps, calendar arithmetic and the textual renderings shared by
//! the report views.
//!
//! A point in time is an `i64` count of non-leap seconds since
//! 1970-01-01T00:00:00 UTC. A local wall-clock moment is the same count
//! shifted by the local UTC offset in seconds; a local calendar day is
//! the euclidean quotient of that shifted count by the seconds of a day.
use vstd::prelude::*;
use vstd::string::*;

verus! {

/// Seconds in one minute.
pub const SECS_PER_MIN: i64 = 60;
/// Seconds in one hour.
pub const SECS_PER_HOUR: i64 = 3600;
/// Seconds in one day.
pub const SECS_PER_DAY: i64 = 86400;
/// Minutes in one hour.
pub const MINS_PER_HOUR: u128 = 60;
/// Minutes in one day.
pub const MINS_PER_DAY: u128 = 1440;
/// Exclusive upper bound of supported timestamps: 10000-01-01T00:00:00 UTC,
/// so that every supported instant has a four-digit year.
pub const MAX_TS: i64 = 253402300800;

/// The character for one decimal digit value.
pub open spec fn dec_digit_char(d: int) -> char {
    if d == 0 { '0' }
    else if d == 1 { '1' }
    else if d == 2 { '2' }
    else if d == 3 { '3' }
    else if d == 4 { '4' }
    else if d == 5 { '5' }
    else if d == 6 { '6' }
    else if d == 7 { '7' }
    else if d == 8 { '8' }
    else { '9' }
}

/// Decimal rendering of a natural number, without leading zeros.
pub open spec fn dec_str(n: nat) -> Seq<char>
    decreases n,
{
    if n < 10 {
        seq![dec_digit_char(n as int)]
    } else {
        dec_str(n / 10) + seq![dec_digit_char((n % 10) as int)]
    }
}

/// Decimal rendering zero-padded to at least two digits.
pub open spec fn pad2(n: nat) -> Seq<char> {
    if n < 10 {
        seq!['0'] + dec_str(n)
    } else {
        dec_str(n)
    }
}

/// Decimal rendering zero-padded to at least four digits.
pub open spec fn pad4(n: nat) -> Seq<char> {
    if n < 10 {
        seq!['0', '0', '0'] + dec_str(n)
    } else if n < 100 {
        seq!['0', '0'] + dec_str(n)
    } else if n < 1000 {
        seq!['0'] + dec_str(n)
    } else {
        dec_str(n)
    }
}

fn digit_str(d: u128) -> (r: &'static str)
    requires
        d < 10,
    ensures
        r@ == seq![dec_digit_char(d as int)],
{
    let r = match d {
        0 => "0",
        1 => "1",
        2 => "2",
        3 => "3",
        4 => "4",
        5 => "5",
        6 => "6",
        7 => "7",
        8 => "8",
        _ => "9",
    };
    proof {
        reveal_strlit("0");
        reveal_strlit("1");
        reveal_strlit("2");
        reveal_strlit("3");
        reveal_strlit("4");
        reveal_strlit("5");
        reveal_strlit("6");
        reveal_strlit("7");
        reveal_strlit("8");
        reveal_strlit("9");
        assert(r@ =~= seq![dec_digit_char(d as int)]);
    }
    r
}

/// The decimal rendering of `n`.
pub fn u128_to_string(n: u128) -> (r: String)
    ensures
        r@ == dec_str(n as nat),
    decreases n,
{
    if n < 10 {
        digit_str(n).to_owned()
    } else {
        let mut s = u128_to_string(n / 10);
        s.append(digit_str(n % 10));
        s
    }
}

/// The decimal rendering of `n`, zero-padded to at least two digits.
pub fn pad2_string(n: u128) -> (r: String)
    ensures
        r@ == pad2(n as nat),
{
    if n < 10 {
        let mut s = "0".to_owned();
        s.append(digit_str(n));
        proof {
            reveal_strlit("0");
            assert(s@ =~= pad2(n as nat));
        }
        s
    } else {
        u128_to_string(n)
    }
}

/// The decimal rendering of `n`, zero-padded to at least four digits.
pub fn pad4_string(n: u128) -> (r: String)
    ensures
        r@ == pad4(n as nat),
{
    let lead: &'static str = if n < 10 {
        "000"
    } else if n < 100 {
        "00"
    } else if n < 1000 {
        "0"
    } else {
        ""
    };
    let mut s = lead.to_owned();
    s.append(u128_to_string(n).as_str());
    proof {
        reveal_strlit("000");
        reveal_strlit("00");
        reveal_strlit("0");
        reveal_strlit("");
        assert(s@ =~= pad4(n as nat));
    }
    s
}

/// The rendering of a duration given in whole minutes: `0:MM` under one
/// hour, `H:MM` under one day, `D:HH:MM` from one day up, with all but
/// the leading unit zero-padded to two digits.
pub open spec fn duration_str(total_minutes: nat) -> Seq<char> {
    if total_minutes < 60 {
        seq!['0', ':'] + pad2(total_minutes)
    } else if total_minutes < 1440 {
        dec_str(total_minutes / 60) + seq![':'] + pad2(total_minutes % 60)
    } else {
        dec_str(total_minutes / 1440) + seq![':'] + pad2((total_minutes % 1440) / 60) + seq![':']
            + pad2((total_minutes % 1440) % 60)
    }
}

/// Renders a duration of `total_minutes` whole minutes as `duration_str`
/// says.
pub fn strify_duration(total_minutes: u128) -> (r: String)
    ensures
        r@ == duration_str(total_minutes as nat),
{
    proof {
        reveal_strlit("0:");
        reveal_strlit(":");
    }
    if total_minutes < 60 {
        let mut s = "0:".to_owned();
        s.append(pad2_string(total_minutes).as_str());
        proof {
            assert(s@ =~= duration_str(total_minutes as nat));
        }
        s
    } else if total_minutes < 1440 {
        let mut s = u128_to_string(total_minutes / MINS_PER_HOUR);
        s.append(":");
        s.append(pad2_string(total_minutes % MINS_PER_HOUR).as_str());
        proof {
            assert(s@ =~= duration_str(total_minutes as nat));
        }
        s
    } else {
        let remains = total_minutes % MINS_PER_DAY;
        let mut s = u128_to_string(total_minutes / MINS_PER_DAY);
        s.append(":");
        s.append(pad2_string(remains / MINS_PER_HOUR).as_str());
        s.append(":");
        s.append(pad2_string(remains % MINS_PER_HOUR).as_str());
        proof {
            assert(s@ =~= duration_str(total_minutes as nat));
        }
        s
    }
}

/// The local calendar day (days since 1970-01-01 local) of the UTC
/// instant `t` under the local offset `off`.
pub open spec fn spec_local_day(t: int, off: int) -> int {
    (t + off) / 86400
}

/// The second of its local day at which the UTC instant `t` falls.
pub open spec fn spec_local_secs(t: int, off: int) -> int {
    (t + off) % 86400
}

/// A plausible local UTC offset: strictly less than one day in either
/// direction.
pub open spec fn valid_offset(off: int) -> bool {
    -86400 < off < 86400
}

/// A supported timestamp: from the epoch up to (excluding) year 10000.
pub open spec fn valid_ts(t: int) -> bool {
    0 <= t < MAX_TS
}

/// The local calendar day of `t` under offset `off`.
pub fn local_day_of(t: i64, off: i64) -> (r: i64)
    requires
        valid_ts(t as int) || (-86400 <= t < MAX_TS + 86400),
        valid_offset(off as int),
    ensures
        r == spec_local_day(t as int, off as int),
{
    match (t + off).checked_div_euclid(SECS_PER_DAY) {
        Some(q) => q,
        None => {
            proof {
                assert(false);
            }
            0
        },
    }
}

/// The second of its local day at which `t` falls, under offset `off`.
pub fn local_secs_of(t: i64, off: i64) -> (r: i64)
    requires
        valid_ts(t as int) || (-86400 <= t < MAX_TS + 86400),
        valid_offset(off as int),
    ensures
        r == spec_local_secs(t as int, off as int),
        0 <= r < 86400,
{
    match (t + off).checked_rem_euclid(SECS_PER_DAY) {
        Some(q) => q,
        None => {
            proof {
                assert(false);
            }
            0
        },
    }
}

/// Relies on chrono's `Utc::now`: the current instant as whole seconds
/// since the Unix epoch. Nothing can be promised of the clock's value.
#[verifier::external_body]
pub(crate) fn now_utc_secs() -> i64 {
    chrono::Utc::now().timestamp()
}

/// Relies on chrono's `TimeZone::offset_from_utc_datetime` for `Local`
/// and on `FixedOffset::local_minus_utc`: the local UTC offset at the
/// instant `t`, in seconds. chrono's `FixedOffset` is constructed only
/// for offsets strictly between minus and plus one day.
#[verifier::external_body]
pub(crate) fn local_offset_secs(t: i64) -> (r: i64)
    requires
        valid_ts(t as int),
    ensures
        valid_offset(r as int),
{
    match chrono::DateTime::from_timestamp(t, 0) {
        Some(dt) => {
            let off = chrono::TimeZone::offset_from_utc_datetime(&chrono::Local, &dt.naive_utc());
            chrono::Offset::fix(&off).local_minus_utc() as i64
        },
        None => 0,
    }
}

/// The instant an RFC 3339 timestamp string denotes, in seconds since
/// the Unix epoch, or `None` where the string is not a valid RFC 3339
/// timestamp. The value depends on the characters alone.
pub uninterp spec fn rfc3339_ts(s: Seq<char>) -> Option<i64>;

/// Relies on chrono's `DateTime::parse_from_rfc3339` and
/// `DateTime::timestamp`.
#[verifier::external_body]
pub(crate) fn parse_rfc3339_utc(s: &str) -> (r: Option<i64>)
    ensures
        r == rfc3339_ts(s@),
{
    match chrono::DateTime::parse_from_rfc3339(s) {
        Ok(dt) => Some(dt.timestamp()),
        Err(_) => None,
    }
}

/// Gregorian leap-year rule.
pub open spec fn is_leap_year(y: int) -> bool {
    y % 4 == 0 && (y % 100 != 0 || y % 400 == 0)
}

/// Days of the year `y`.
pub open spec fn days_in_year(y: int) -> int {
    if is_leap_year(y) { 366 } else { 365 }
}

/// Days strictly before year `y`, counted from 1970-01-01.
pub open spec fn days_before_year(y: int) -> int
    decreases y - 1970,
{
    if y <= 1970 {
        0
    } else {
        days_before_year(y - 1) + days_in_year(y - 1)
    }
}

/// Days of month `m` (1 to 12) in year `y`.
pub open spec fn days_in_month(y: int, m: int) -> int {
    if m == 2 {
        if is_leap_year(y) { 29 } else { 28 }
    } else if m == 4 || m == 6 || m == 9 || m == 11 {
        30
    } else {
        31
    }
}

/// Days of year `y` strictly before month `m`.
pub open spec fn days_before_month(y: int, m: int) -> int
    decreases m,
{
    if m <= 1 {
        0
    } else {
        days_before_month(y, m - 1) + days_in_month(y, m - 1)
    }
}

/// The day number (days since 1970-01-01) of the civil date `y-m-d`.
pub open spec fn spec_days_from_civil(y: int, m: int, d: int) -> int {
    days_before_year(y) + days_before_month(y, m) + d - 1
}

/// A representable civil date: year 1970 to 9999, month and day in range.
pub open spec fn valid_date(y: int, m: int, d: int) -> bool {
    1970 <= y <= 9999 && 1 <= m <= 12 && 1 <= d <= days_in_month(y, m)
}

/// The months of a year sum up to its length.
proof fn lemma_months_sum(y: int)
    ensures
        days_before_month(y, 13) == days_in_year(y),
{
    reveal_with_fuel(days_before_month, 14);
}

/// `days_before_year` grows by at least 365 and at most 366 per year.
proof fn lemma_days_before_year_bounds(y: int)
    requires
        1970 <= y,
    ensures
        365 * (y - 1970) <= days_before_year(y) <= 366 * (y - 1970),
    decreases y - 1970,
{
    if y > 1970 {
        lemma_days_before_year_bounds(y - 1);
    }
}

/// Days of the supported range: strictly below this lie all day numbers
/// of valid dates.
pub const MAX_DAY: i64 = 2932897;

/// Stepping the dividend down by one lowers the quotient exactly at
/// multiples of the divisor.
proof fn lemma_div_step(n: int, k: int)
    requires
        k > 0,
    ensures
        n / k - (n - 1) / k == if n % k == 0 { 1int } else { 0int },
{
    let q = n / k;
    let r = n % k;
    vstd::arithmetic::div_mod::lemma_fundamental_div_mod(n, k);
    assert(n == k * q + r);
    if r == 0 {
        assert(n - 1 == (q - 1) * k + (k - 1)) by (nonlinear_arith)
            requires
                n == k * q + r,
                r == 0,
        ;
        vstd::arithmetic::div_mod::lemma_fundamental_div_mod_converse(n - 1, k, q - 1, k - 1);
    } else {
        assert(n - 1 == q * k + (r - 1)) by (nonlinear_arith)
            requires
                n == k * q + r,
        ;
        vstd::arithmetic::div_mod::lemma_fundamental_div_mod_converse(n - 1, k, q, r - 1);
    }
}

/// Closed form for `days_before_year`: 365 days per year plus one per
/// leap year since the epoch.
proof fn lemma_days_closed_form(y: int)
    requires
        1970 <= y,
    ensures
        days_before_year(y) == 365 * (y - 1970) + (y - 1) / 4 - (y - 1) / 100 + (y - 1) / 400
            - 477,
    decreases y - 1970,
{
    if y == 1970 {
    } else {
        lemma_days_closed_form(y - 1);
        lemma_div_step(y - 1, 4);
        lemma_div_step(y - 1, 100);
        lemma_div_step(y - 1, 400);
    }
}

/// The supported day range ends exactly where year 10000 would begin,
/// and `MAX_TS` is the corresponding instant in seconds.
pub proof fn lemma_max_day()
    ensures
        days_before_year(10000) == MAX_DAY as int,
        MAX_TS as int == MAX_DAY as int * 86400,
{
    lemma_days_closed_form(10000);
}


/// `days_before_month` does not decrease with the month.
proof fn lemma_days_before_month_monotone(y: int, a: int, b: int)
    requires
        a <= b,
    ensures
        days_before_month(y, a) <= days_before_month(y, b),
    decreases b - a,
{
    if a < b {
        lemma_days_before_month_monotone(y, a, b - 1);
        assert(days_in_month(y, b - 1) > 0);
    }
}

/// No two valid civil dates share a day number.
pub proof fn lemma_civil_injective(y1: int, m1: int, d1: int, y2: int, m2: int, d2: int)
    requires
        valid_date(y1, m1, d1),
        valid_date(y2, m2, d2),
        spec_days_from_civil(y1, m1, d1) == spec_days_from_civil(y2, m2, d2),
    ensures
        y1 == y2 && m1 == m2 && d1 == d2,
{
    lemma_civil_within_year(y1, m1, d1);
    lemma_civil_within_year(y2, m2, d2);
    if y1 < y2 {
        lemma_days_before_year_monotone(y1 + 1, y2);
        assert(false);
    }
    if y2 < y1 {
        lemma_days_before_year_monotone(y2 + 1, y1);
        assert(false);
    }
    if m1 < m2 {
        lemma_month_bound(y1, m1);
        lemma_days_before_month_monotone(y1, m1 + 1, m2);
        assert(false);
    }
    if m2 < m1 {
        lemma_month_bound(y1, m2);
        lemma_days_before_month_monotone(y1, m2 + 1, m1);
        assert(false);
    }
}

/// A valid date's day number lies within its own year.
proof fn lemma_civil_within_year(y: int, m: int, d: int)
    requires
        valid_date(y, m, d),
    ensures
        days_before_year(y) <= spec_days_from_civil(y, m, d),
        spec_days_from_civil(y, m, d) < days_before_year(y + 1),
        days_before_month(y, m) <= spec_days_from_civil(y, m, d) - days_before_year(y),
        spec_days_from_civil(y, m, d) - days_before_year(y) < days_before_month(y, m)
            + days_in_month(y, m),
{
    lemma_days_before_month_monotone(y, 1, m);
    lemma_month_bound(y, m);
}

/// The one valid civil date of a day number.
pub open spec fn spec_civil_of_day(day: int) -> (int, int, int) {
    choose|c: (int, int, int)|
        valid_date(c.0, c.1, c.2) && spec_days_from_civil(c.0, c.1, c.2) == day
}

fn year_len(y: u32) -> (r: i64)
    ensures
        r == days_in_year(y as int),
        r == 365 || r == 366,
{
    if y % 4 == 0 && (y % 100 != 0 || y % 400 == 0) {
        366
    } else {
        365
    }
}

fn month_len(y: u32, m: u32) -> (r: i64)
    requires
        1 <= m <= 12,
    ensures
        r == days_in_month(y as int, m as int),
        28 <= r <= 31,
{
    if m == 2 {
        if y % 4 == 0 && (y % 100 != 0 || y % 400 == 0) {
            29
        } else {
            28
        }
    } else if m == 4 || m == 6 || m == 9 || m == 11 {
        30
    } else {
        31
    }
}

/// The day number of the valid civil date `y-m-d`.
pub fn days_from_civil(y: u32, m: u32, d: u32) -> (r: i64)
    requires
        valid_date(y as int, m as int, d as int),
    ensures
        r == spec_days_from_civil(y as int, m as int, d as int),
        0 <= r < MAX_DAY,
{
    let mut acc: i64 = 0;
    let mut yy: u32 = 1970;
    while yy < y
        invariant
            1970 <= yy <= y <= 9999,
            acc == days_before_year(yy as int),
            0 <= acc <= 366 * (yy - 1970),
        decreases y - yy,
    {
        acc = acc + year_len(yy);
        yy = yy + 1;
    }
    let mut mm: u32 = 1;
    while mm < m
        invariant
            1 <= mm <= m <= 12,
            acc == days_before_year(y as int) + days_before_month(y as int, mm as int),
            0 <= acc <= 366 * (y - 1970) + 31 * (mm - 1),
        decreases m - mm,
    {
        acc = acc + month_len(y, mm);
        mm = mm + 1;
    }
    let r = acc + (d as i64) - 1;
    proof {
        lemma_max_day();
        lemma_days_before_year_bounds(y as int);
        lemma_days_before_year_bounds(10000);
        if y < 9999 {
            lemma_days_before_year_monotone(y as int + 1, 10000);
        }
        lemma_month_bound(y as int, m as int);
        lemma_months_sum(y as int);
    }
    r
}

/// `days_before_year` does not decrease with the year.
proof fn lemma_days_before_year_monotone(a: int, b: int)
    requires
        a <= b,
    ensures
        days_before_year(a) <= days_before_year(b),
    decreases b - a,
{
    if a < b {
        lemma_days_before_year_monotone(a, b - 1);
    }
}

/// A day inside month `m` lies strictly before the end of the year.
proof fn lemma_month_bound(y: int, m: int)
    requires
        1 <= m <= 12,
    ensures
        days_before_month(y, m) + days_in_month(y, m) <= days_in_year(y),
    decreases 13 - m,
{
    if m == 12 {
        lemma_months_sum(y);
    } else {
        lemma_month_bound(y, m + 1);
    }
}

/// The valid civil date of the day number `day`; inverse of
/// `days_from_civil`.
pub fn civil_from_days(day: i64) -> (r: (u32, u32, u32))
    requires
        0 <= day < MAX_DAY,
    ensures
        valid_date(r.0 as int, r.1 as int, r.2 as int),
        spec_days_from_civil(r.0 as int, r.1 as int, r.2 as int) == day,
        (r.0 as int, r.1 as int, r.2 as int) == spec_civil_of_day(day as int),
{
    proof {
        lemma_max_day();
    }
    let mut y: u32 = 1970;
    let mut rem: i64 = day;
    loop
        invariant
            1970 <= y <= 9999,
            rem == day - days_before_year(y as int),
            0 <= rem,
            day < days_before_year(10000),
        ensures
            1970 <= y <= 9999,
            rem == day - days_before_year(y as int),
            0 <= rem < days_in_year(y as int),
        decreases 9999 - y,
    {
        let len = year_len(y);
        if rem < len {
            break;
        }
        proof {
            if y == 9999 {
                assert(days_before_year(10000) == days_before_year(9999) + days_in_year(9999));
                assert(false);
            }
        }
        rem = rem - len;
        y = y + 1;
    }
    let mut m: u32 = 1;
    loop
        invariant
            1 <= m <= 12,
            rem == day - days_before_year(y as int) - days_before_month(y as int, m as int),
            0 <= rem,
            day - days_before_year(y as int) < days_in_year(y as int),
            1970 <= y <= 9999,
        ensures
            1 <= m <= 12,
            rem == day - days_before_year(y as int) - days_before_month(y as int, m as int),
            0 <= rem < days_in_month(y as int, m as int),
        decreases 12 - m,
    {
        let len = month_len(y, m);
        if rem < len {
            break;
        }
        proof {
            if m == 12 {
                lemma_months_sum(y as int);
                assert(false);
            }
        }
        rem = rem - len;
        m = m + 1;
    }
    let r = (y, m, (rem + 1) as u32);
    proof {
        let c = (r.0 as int, r.1 as int, r.2 as int);
        assert(valid_date(c.0, c.1, c.2) && spec_days_from_civil(c.0, c.1, c.2) == day as int);
        let w = spec_civil_of_day(day as int);
        lemma_civil_injective(w.0, w.1, w.2, c.0, c.1, c.2);
    }
    r
}

/// Three-letter weekday name of a day number; day 0 (1970-01-01) was a
/// Thursday.
pub open spec fn weekday_chars(day: int) -> Seq<char> {
    let w = day % 7;
    if w == 0 { seq!['T', 'h', 'u'] }
    else if w == 1 { seq!['F', 'r', 'i'] }
    else if w == 2 { seq!['S', 'a', 't'] }
    else if w == 3 { seq!['S', 'u', 'n'] }
    else if w == 4 { seq!['M', 'o', 'n'] }
    else if w == 5 { seq!['T', 'u', 'e'] }
    else { seq!['W', 'e', 'd'] }
}

/// The weekday name of a day number.
pub fn weekday_str(day: i64) -> (r: &'static str)
    requires
        0 <= day,
    ensures
        r@ == weekday_chars(day as int),
{
    let r = match day % 7 {
        0 => "Thu",
        1 => "Fri",
        2 => "Sat",
        3 => "Sun",
        4 => "Mon",
        5 => "Tue",
        _ => "Wed",
    };
    proof {
        reveal_strlit("Thu");
        reveal_strlit("Fri");
        reveal_strlit("Sat");
        reveal_strlit("Sun");
        reveal_strlit("Mon");
        reveal_strlit("Tue");
        reveal_strlit("Wed");
        assert(r@ =~= weekday_chars(day as int));
    }
    r
}

/// `YYYY-MM-DD` rendering of a civil date.
pub open spec fn date_chars(y: int, m: int, d: int) -> Seq<char> {
    pad4(y as nat) + seq!['-'] + pad2(m as nat) + seq!['-'] + pad2(d as nat)
}

/// Renders a valid civil date as `YYYY-MM-DD`.
pub fn date_string(y: u32, m: u32, d: u32) -> (r: String)
    requires
        0 <= y <= 9999,
        0 <= m,
        0 <= d,
    ensures
        r@ == date_chars(y as int, m as int, d as int),
{
    let mut s = pad4_string(y as u128);
    s.append("-");
    s.append(pad2_string(m as u128).as_str());
    s.append("-");
    s.append(pad2_string(d as u128).as_str());
    proof {
        reveal_strlit("-");
        assert(s@ =~= date_chars(y as int, m as int, d as int));
    }
    s
}

/// `HH:MM` rendering of a second of the day.
pub open spec fn hm_chars(secs: int) -> Seq<char> {
    pad2((secs / 3600) as nat) + seq![':'] + pad2(((secs % 3600) / 60) as nat)
}

/// Renders a second of the day (0 to 86399) as `HH:MM`.
pub fn hm_string(secs: i64) -> (r: String)
    requires
        0 <= secs < 86400,
    ensures
        r@ == hm_chars(secs as int),
{
    let mut s = pad2_string((secs / SECS_PER_HOUR) as u128);
    s.append(":");
    s.append(pad2_string(((secs % SECS_PER_HOUR) / SECS_PER_MIN) as u128).as_str());
    proof {
        reveal_strlit(":");
        assert(s@ =~= hm_chars(secs as int));
    }
    s
}

/// `YYYY-MM-DD` rendering of a local day number's civil date.
pub open spec fn local_date_chars(day: int) -> Seq<char> {
    let c = spec_civil_of_day(day);
    date_chars(c.0, c.1, c.2)
}

/// `YYYY-MM-DD Www HH:MM` rendering of the UTC instant `t` in local
/// time under offset `off`.
pub open spec fn local_dt_chars(t: int, off: int) -> Seq<char> {
    local_date_chars(spec_local_day(t, off)) + seq![' '] + weekday_chars(spec_local_day(t, off))
        + seq![' '] + hm_chars(spec_local_secs(t, off))
}

/// Renders the UTC instant `t` in local time as `YYYY-MM-DD Www HH:MM`.
pub fn local_dt_string(t: i64, off: i64) -> (r: String)
    requires
        valid_offset(off as int),
        0 <= t + off < MAX_TS,
        -86400 < t,
        t < MAX_TS,
    ensures
        r@ == local_dt_chars(t as int, off as int),
{
    proof {
        lemma_max_day();
        vstd::arithmetic::div_mod::lemma_fundamental_div_mod(t as int + off as int, 86400);
    }
    let day = local_day_of(t, off);
    let secs = local_secs_of(t, off);
    let (y, m, d) = civil_from_days(day);
    let mut s = date_string(y, m, d);
    s.append(" ");
    s.append(weekday_str(day));
    s.append(" ");
    s.append(hm_string(secs).as_str());
    proof {
        reveal_strlit(" ");
        assert(s@ =~= local_dt_chars(t as int, off as int));
    }
    s
}


/// Relies on `String::push`: appends one character.
#[verifier::external_body]
pub(crate) fn push_char(s: &mut String, c: char)
    ensures
        final(s)@ == old(s)@.push(c),
{
    s.push(c);
}

/// Whether `c` is a decimal digit.
pub open spec fn is_dig(c: char) -> bool {
    c == '0' || c == '1' || c == '2' || c == '3' || c == '4' || c == '5' || c == '6' || c == '7'
        || c == '8' || c == '9'
}

/// The value of a decimal digit character.
pub open spec fn dig(c: char) -> int {
    if c == '0' { 0 }
    else if c == '1' { 1 }
    else if c == '2' { 2 }
    else if c == '3' { 3 }
    else if c == '4' { 4 }
    else if c == '5' { 5 }
    else if c == '6' { 6 }
    else if c == '7' { 7 }
    else if c == '8' { 8 }
    else { 9 }
}

/// The digit value of `c`, or `None` if `c` is no digit.
pub fn char_digit(c: char) -> (r: Option<u32>)
    ensures
        r matches Some(v) ==> is_dig(c) && v == dig(c),
        r is None ==> !is_dig(c),
{
    match c {
        '0' => Some(0),
        '1' => Some(1),
        '2' => Some(2),
        '3' => Some(3),
        '4' => Some(4),
        '5' => Some(5),
        '6' => Some(6),
        '7' => Some(7),
        '8' => Some(8),
        '9' => Some(9),
        _ => None,
    }
}

/// The civil date written `YYYY-MM-DD`, if the ten characters have that
/// shape and name a representable date.
pub open spec fn spec_parse_date(s: Seq<char>) -> Option<(u32, u32, u32)> {
    if s.len() == 10 && is_dig(s[0]) && is_dig(s[1]) && is_dig(s[2]) && is_dig(s[3]) && s[4]
        == '-' && is_dig(s[5]) && is_dig(s[6]) && s[7] == '-' && is_dig(s[8]) && is_dig(s[9]) {
        let y = 1000 * dig(s[0]) + 100 * dig(s[1]) + 10 * dig(s[2]) + dig(s[3]);
        let m = 10 * dig(s[5]) + dig(s[6]);
        let d = 10 * dig(s[8]) + dig(s[9]);
        if valid_date(y, m, d) {
            Some((y as u32, m as u32, d as u32))
        } else {
            None
        }
    } else {
        None
    }
}

/// Parses a `YYYY-MM-DD` date string into a valid civil date.
pub fn parse_date_str(s: &str) -> (r: Option<(u32, u32, u32)>)
    ensures
        r == spec_parse_date(s@),
        r matches Some(v) ==> valid_date(v.0 as int, v.1 as int, v.2 as int),
{
    let n = s.unicode_len();
    if n != 10 {
        return None;
    }
    let d0 = char_digit(s.get_char(0));
    let d1 = char_digit(s.get_char(1));
    let d2 = char_digit(s.get_char(2));
    let d3 = char_digit(s.get_char(3));
    let d5 = char_digit(s.get_char(5));
    let d6 = char_digit(s.get_char(6));
    let d8 = char_digit(s.get_char(8));
    let d9 = char_digit(s.get_char(9));
    if s.get_char(4) != '-' || s.get_char(7) != '-' {
        return None;
    }
    match (d0, d1, d2, d3, d5, d6, d8, d9) {
        (
            Some(y0),
            Some(y1),
            Some(y2),
            Some(y3),
            Some(m0),
            Some(m1),
            Some(a0),
            Some(a1),
        ) => {
            let y = 1000 * y0 + 100 * y1 + 10 * y2 + y3;
            let m = 10 * m0 + m1;
            let d = 10 * a0 + a1;
            if 1970 <= y && 1 <= m && m <= 12 && 1 <= d && d as i64 <= month_len(y, m) {
                Some((y, m, d))
            } else {
                None
            }
        },
        _ => None,
    }
}

/// The value of a digit string, most significant digit first.
pub open spec fn digits_val(s: Seq<char>) -> int
    decreases s.len(),
{
    if s.len() == 0 {
        0
    } else {
        10 * digits_val(s.drop_last()) + dig(s.last())
    }
}

/// Whether every character of `s` is a decimal digit.
pub open spec fn all_digits(s: Seq<char>) -> bool {
    forall|i: int| 0 <= i < s.len() ==> is_dig(#[trigger] s[i])
}

/// The number a non-empty decimal string denotes, if it consists of
/// digits only and fits in `usize`.
pub open spec fn spec_parse_usize(s: Seq<char>) -> Option<usize> {
    if s.len() > 0 && all_digits(s) && digits_val(s) <= usize::MAX {
        Some(digits_val(s) as usize)
    } else {
        None
    }
}

/// A digit string's value never shrinks as the string grows.
proof fn lemma_digits_val_monotone(s: Seq<char>, a: int, b: int)
    requires
        0 <= a <= b <= s.len(),
        all_digits(s),
    ensures
        digits_val(s.take(a)) <= digits_val(s.take(b)),
        0 <= digits_val(s.take(a)),
    decreases b - a, a,
{
    if a == b {
        if a == 0 {
            assert(s.take(0).len() == 0);
        } else {
            assert(s.take(a).drop_last() =~= s.take(a - 1));
            lemma_digits_val_monotone(s, a - 1, a - 1);
        }
    } else {
        lemma_digits_val_monotone(s, a, b - 1);
        assert(s.take(b).drop_last() =~= s.take(b - 1));
        assert(is_dig(s[b - 1]));
    }
}

/// Parses a non-empty decimal digit string into a `usize`, rejecting
/// any other shape and any value above `usize::MAX`.
pub fn parse_usize(s: &str) -> (r: Option<usize>)
    ensures
        r == spec_parse_usize(s@),
{
    let n = s.unicode_len();
    if n == 0 {
        return None;
    }
    let mut acc: usize = 0;
    let mut i: usize = 0;
    while i < n
        invariant
            0 <= i <= n,
            n == s@.len(),
            all_digits(s@.take(i as int)),
            acc == digits_val(s@.take(i as int)),
        decreases n - i,
    {
        let c = s.get_char(i);
        match char_digit(c) {
            None => {
                proof {
                    assert(!is_dig(s@[i as int]));
                }
                return None;
            },
            Some(v) => {
                proof {
                    assert(s@.take(i as int + 1).drop_last() =~= s@.take(i as int));
                    assert(s@.take(i as int + 1).last() == s@[i as int]);
                }
                let next: Option<usize> = match acc.checked_mul(10) {
                    Some(x) => x.checked_add(v as usize),
                    None => None,
                };
                match next {
                    Some(x) => {
                        acc = x;
                    },
                    None => {
                        proof {
                            assert(digits_val(s@.take(i as int + 1)) > usize::MAX);
                            if all_digits(s@) {
                                lemma_digits_val_monotone(s@, i as int + 1, s@.len() as int);
                                assert(s@.take(s@.len() as int) =~= s@);
                            }
                        }
                        return None;
                    },
                }
            },
        }
        i = i + 1;
    }
    proof {
        assert(s@.take(n as int) =~= s@);
    }
    Some(acc)
}

} // verus!
