//! Calendar dates and the MS-DOS time stamps of zip entries.
use vstd::arithmetic::div_mod::lemma_fundamental_div_mod_converse;
use vstd::prelude::*;

verus! {

/// Whether `y` is a leap year of the Gregorian calendar.
pub open spec fn is_leap(y: int) -> bool {
    y % 4 == 0 && (y % 100 != 0 || y % 400 == 0)
}

/// The days of month `m` of year `y`.
pub open spec fn days_in_month(y: int, m: int) -> int {
    if m == 2 {
        if is_leap(y) { 29 } else { 28 }
    } else if m == 4 || m == 6 || m == 9 || m == 11 {
        30
    } else {
        31
    }
}

/// The days of year `y` before month `m`.
pub open spec fn days_before_month(y: int, m: int) -> int
    decreases m,
{
    if m <= 1 {
        0
    } else {
        days_before_month(y, m - 1) + days_in_month(y, m - 1)
    }
}

/// The days from the start of year 1 to the start of year `y`.
pub open spec fn days_before_year(y: int) -> int {
    365 * (y - 1) + (y - 1) / 4 - (y - 1) / 100 + (y - 1) / 400
}

/// The days from 1970-01-01 to day `d` of month `m` of year `y`.
pub open spec fn civil_days(y: int, m: int, d: int) -> int {
    days_before_year(y) + days_before_month(y, m) + d - 1 - 719162
}

/// `(y, m, d)` is a date.
pub open spec fn is_date(y: int, m: int, d: int) -> bool {
    1 <= m <= 12 && 1 <= d <= days_in_month(y, m)
}

proof fn lemma_months(y: int)
    ensures
        days_before_month(y, 1) == 0,
        days_before_month(y, 2) == 31,
        days_before_month(y, 3) == 31 + days_in_month(y, 2),
        days_before_month(y, 4) == 62 + days_in_month(y, 2),
        days_before_month(y, 5) == 92 + days_in_month(y, 2),
        days_before_month(y, 6) == 123 + days_in_month(y, 2),
        days_before_month(y, 7) == 153 + days_in_month(y, 2),
        days_before_month(y, 8) == 184 + days_in_month(y, 2),
        days_before_month(y, 9) == 215 + days_in_month(y, 2),
        days_before_month(y, 10) == 245 + days_in_month(y, 2),
        days_before_month(y, 11) == 276 + days_in_month(y, 2),
        days_before_month(y, 12) == 306 + days_in_month(y, 2),
        days_before_month(y, 13) == 337 + days_in_month(y, 2),
{
    reveal_with_fuel(days_before_month, 13);
}

/// The next year starts when this one is over.
proof fn lemma_year_length(y: int)
    ensures
        days_before_year(y + 1) == days_before_year(y) + 337 + days_in_month(y, 2),
{
    assert(y / 4 == (y - 1) / 4 + if y % 4 == 0 { 1int } else { 0int });
    assert(y / 100 == (y - 1) / 100 + if y % 100 == 0 { 1int } else { 0int });
    assert(y / 400 == (y - 1) / 400 + if y % 400 == 0 { 1int } else { 0int });
    assert(y % 400 == 0 ==> y % 100 == 0);
    assert(y % 100 == 0 ==> y % 4 == 0);
}

/// Days since 1970-01-01 of a proleptic Gregorian date.
#[verifier::rlimit(40)]
pub fn days_from_civil(y: i64, m: i64, d: i64) -> (r: i64)
    requires
        1 <= m <= 12,
        i64::MIN <= civil_days(y as int, m as int, d as int) <= i64::MAX,
    ensures
        r == civil_days(y as int, m as int, d as int),
{
    // years are counted from March, so that the leap day is the last one
    let shifted: i128 = if m <= 2 { y as i128 - 1 } else { y as i128 };
    let era: i128 = if shifted >= 0 { shifted / 400 } else { -((399 - shifted) / 400) };
    let yoe: i128 = shifted - era * 400;
    let doy: i128 = (153 * (if m > 2 { m as i128 - 3 } else { m as i128 + 9 }) + 2) / 5 + d as i128 - 1;
    let doe: i128 = yoe * 365 + yoe / 4 - yoe / 100 + doy;
    proof {
        lemma_months(y as int);
        assert(0 <= yoe < 400);
        assert((shifted as int) / 4 == 100 * era + yoe / 4);
        assert((shifted as int) / 100 == 4 * era + yoe / 100);
        assert((shifted as int) / 400 == era);
        lemma_year_length(y as int);
        lemma_year_length(y - 1);
    }
    (era * 146097 + doe - 719468) as i64
}

proof fn lemma_years_grow(a: int, b: int)
    requires
        a <= b,
    ensures
        days_before_year(a) <= days_before_year(b),
    decreases b - a,
{
    if a < b {
        lemma_year_length(b - 1);
        lemma_years_grow(a, b - 1);
    }
}

/// A day within its year.
proof fn lemma_day_of_year(y: int, m: int, d: int)
    requires
        is_date(y, m, d),
    ensures
        0 <= days_before_month(y, m) + d - 1 < 337 + days_in_month(y, 2),
{
    lemma_months(y);
}

/// Two dates with one day count are the same date.
pub proof fn lemma_civil_unique(y1: int, m1: int, d1: int, y2: int, m2: int, d2: int)
    requires
        is_date(y1, m1, d1),
        is_date(y2, m2, d2),
        civil_days(y1, m1, d1) == civil_days(y2, m2, d2),
    ensures
        y1 == y2 && m1 == m2 && d1 == d2,
{
    lemma_day_of_year(y1, m1, d1);
    lemma_day_of_year(y2, m2, d2);
    lemma_year_length(y1);
    lemma_year_length(y2);
    if y1 < y2 {
        lemma_years_grow(y1 + 1, y2);
    }
    if y2 < y1 {
        lemma_years_grow(y2 + 1, y1);
    }
    lemma_months(y1);
}

/// The date `days` days after 1970-01-01, as (year, month, day).
pub open spec fn civil_of(days: int) -> (int, int, int) {
    choose|c: (int, int, int)| is_date(c.0, c.1, c.2) && #[trigger] civil_days(c.0, c.1, c.2) == days
}

/// The date `days` days after 1970-01-01, worked out from the last March on that the
/// era of 400 years, its centuries, their four year cycles and the years start with.
spec fn civil_steps(days: int) -> (int, int, int) {
    let z = days + 719468;
    let era = z / 146097;
    let doe = z - era * 146097;
    let century = if doe / 36524 > 3 { 3 } else { doe / 36524 };
    let of_century = doe - century * 36524;
    let cycle = of_century / 1461;
    let of_cycle = of_century - cycle * 1461;
    let year = if of_cycle / 365 > 3 { 3 } else { of_cycle / 365 };
    let doy = of_cycle - year * 365;
    let shifted = century * 100 + cycle * 4 + year + era * 400;
    let mp = (5 * doy + 2) / 153;
    let d = doy - (153 * mp + 2) / 5 + 1;
    let m = if mp < 10 { mp + 3 } else { mp - 9 };
    (if m <= 2 { shifted + 1 } else { shifted }, m, d)
}

proof fn lemma_month_of_day(doy: int)
    requires
        0 <= doy <= 365,
    ensures
        ({
            let mp = (5 * doy + 2) / 153;
            let d = doy - (153 * mp + 2) / 5 + 1;
            &&& 0 <= mp <= 11
            &&& 1 <= d <= 31
            &&& mp == 11 ==> d <= 29 && (d == 29 ==> doy == 365)
            &&& (mp == 1 || mp == 3 || mp == 6 || mp == 8) ==> d <= 30
        }),
{
}

/// The date of a day of the year that starts in March of the year `shifted`.
#[verifier::rlimit(40)]
proof fn lemma_date_of_day(shifted: int, doy: int)
    requires
        0 <= doy <= 365,
        doy == 365 ==> is_leap(shifted + 1),
    ensures
        ({
            let mp = (5 * doy + 2) / 153;
            let d = doy - (153 * mp + 2) / 5 + 1;
            let m = if mp < 10 { mp + 3 } else { mp - 9 };
            let y = if m <= 2 { shifted + 1 } else { shifted };
            &&& is_date(y, m, d)
            &&& civil_days(y, m, d) == days_before_year(shifted + 1) - 306 + doy - 719162
        }),
{
    lemma_month_of_day(doy);
    lemma_months(shifted);
    lemma_months(shifted + 1);
    lemma_year_length(shifted);
}

/// The year that follows a number of whole eras, centuries, four year cycles and years.
proof fn lemma_year_parts(era: int, century: int, cycle: int, year: int)
    requires
        0 <= century <= 3,
        0 <= cycle <= 24,
        0 <= year <= 3,
    ensures
        ({
            let shifted = century * 100 + cycle * 4 + year + era * 400;
            &&& days_before_year(shifted + 1) == 365 * shifted + 97 * era + 24 * century + cycle
            &&& year == 3 && (cycle == 24 ==> century == 3) ==> is_leap(shifted + 1)
        }),
{
    let shifted = century * 100 + cycle * 4 + year + era * 400;
    lemma_fundamental_div_mod_converse(shifted, 4, 100 * era + 25 * century + cycle, year);
    lemma_fundamental_div_mod_converse(shifted, 100, 4 * era + century, cycle * 4 + year);
    lemma_fundamental_div_mod_converse(shifted, 400, era, century * 100 + cycle * 4 + year);
    if year == 3 && (cycle == 24 ==> century == 3) {
        lemma_fundamental_div_mod_converse(shifted + 1, 4, 100 * era + 25 * century + cycle + 1, 0);
        if cycle == 24 {
            lemma_fundamental_div_mod_converse(shifted + 1, 400, era + 1, 0);
        } else {
            lemma_fundamental_div_mod_converse(shifted + 1, 100, 4 * era + century, 4 * (cycle + 1));
        }
    }
}

#[verifier::rlimit(40)]
proof fn lemma_civil_steps(days: int)
    ensures
        is_date(civil_steps(days).0, civil_steps(days).1, civil_steps(days).2),
        civil_days(civil_steps(days).0, civil_steps(days).1, civil_steps(days).2) == days,
{
    let z = days + 719468;
    let era = z / 146097;
    let doe = z - era * 146097;
    let century = if doe / 36524 > 3 { 3 } else { doe / 36524 };
    let of_century = doe - century * 36524;
    let cycle = of_century / 1461;
    let of_cycle = of_century - cycle * 1461;
    let year = if of_cycle / 365 > 3 { 3 } else { of_cycle / 365 };
    let doy = of_cycle - year * 365;
    let shifted = century * 100 + cycle * 4 + year + era * 400;
    assert(0 <= doe < 146097);
    assert(0 <= of_century <= 36524 && (century < 3 ==> of_century < 36524));
    assert(0 <= cycle <= 24);
    assert(0 <= of_cycle <= 1460);
    assert(0 <= doy <= 365);
    assert(doy == 365 ==> year == 3 && of_cycle == 1460);
    lemma_year_parts(era, century, cycle, year);
    lemma_date_of_day(shifted, doy);
    assert(days == days_before_year(shifted + 1) - 306 + doy - 719162) by {
        assert(doe == 36524 * century + 1461 * cycle + 365 * year + doy);
        assert(days == 146097 * era + doe - 719468);
    }
}

/// Every day count is that of a date.
pub proof fn lemma_civil_exists(days: int)
    ensures
        is_date(civil_of(days).0, civil_of(days).1, civil_of(days).2),
        civil_days(civil_of(days).0, civil_of(days).1, civil_of(days).2) == days,
{
    lemma_civil_of(days);
}

proof fn lemma_civil_of(days: int)
    ensures
        is_date(civil_of(days).0, civil_of(days).1, civil_of(days).2),
        civil_days(civil_of(days).0, civil_of(days).1, civil_of(days).2) == days,
        civil_of(days) == civil_steps(days),
{
    lemma_civil_steps(days);
    let w = civil_steps(days);
    assert(is_date(w.0, w.1, w.2) && civil_days(w.0, w.1, w.2) == days);
    let c = civil_of(days);
    lemma_civil_unique(c.0, c.1, c.2, w.0, w.1, w.2);
}

/// The date of a day count since 1970-01-01, as (year, month, day).
#[verifier::rlimit(40)]
pub fn civil_from_days(days: i64) -> (r: (i64, i64, i64))
    ensures
        (r.0 as int, r.1 as int, r.2 as int) == civil_of(days as int),
        is_date(r.0 as int, r.1 as int, r.2 as int),
        civil_days(r.0 as int, r.1 as int, r.2 as int) == days,
{
    let z: i128 = days as i128 + 719468;
    let era: i64 = (if z >= 0 { z / 146097 } else { -((146096 - z) / 146097) }) as i64;
    let doe: i64 = (z - era as i128 * 146097) as i64;
    // centuries, four year cycles and years of the era; the last of each is longer
    let century: i64 = if doe / 36524 > 3 { 3 } else { doe / 36524 };
    let of_century: i64 = doe - century * 36524;
    let cycle: i64 = of_century / 1461;
    let of_cycle: i64 = of_century - cycle * 1461;
    let year: i64 = if of_cycle / 365 > 3 { 3 } else { of_cycle / 365 };
    let doy: i64 = of_cycle - year * 365;
    let yoe: i64 = century * 100 + cycle * 4 + year;
    let shifted: i64 = yoe + era * 400;
    let mp: i64 = (5 * doy + 2) / 153;
    let d: i64 = doy - (153 * mp + 2) / 5 + 1;
    let m: i64 = if mp < 10 { mp + 3 } else { mp - 9 };
    let y: i64 = if m <= 2 { shifted + 1 } else { shifted };
    proof {
        assert(era == (z as int) / 146097);
        assert((y as int, m as int, d as int) == civil_steps(days as int));
        lemma_civil_of(days as int);
    }
    (y, m, d)
}

/// Milliseconds since the epoch of an MS-DOS time and date pair: 0 for no date.
pub open spec fn dos_millis(dos_time: nat, dos_date: nat) -> int {
    let year = 1980 + (dos_date / 512) % 128;
    let month = (dos_date / 32) % 16;
    let day = dos_date % 32;
    let hour = (dos_time / 2048) % 32;
    let minute = (dos_time / 32) % 64;
    let second = (dos_time % 32) * 2;
    if dos_date == 0 || !(1 <= month <= 12) || day == 0 {
        0
    } else {
        ((civil_days(year as int, month as int, day as int) * 24 + hour) * 60 + minute) * 60_000 + second * 1000
    }
}

/// An MS-DOS date and time pair as milliseconds since the epoch, in whatever
/// timezone the writer used, which is all the DOS format records.
pub fn dos_time_to_millis(dos_time: u64, dos_date: u64) -> (r: i64)
    ensures
        r == dos_millis(dos_time as nat, dos_date as nat),
        -10_000_000_000_000_000 <= r <= 10_000_000_000_000_000,
{
    let year: i64 = 1980 + ((dos_date / 512) % 128) as i64;
    let month: i64 = ((dos_date / 32) % 16) as i64;
    let day: i64 = (dos_date % 32) as i64;
    let hour: i64 = ((dos_time / 2048) % 32) as i64;
    let minute: i64 = ((dos_time / 32) % 64) as i64;
    let second: i64 = ((dos_time % 32) * 2) as i64;
    if dos_date == 0 || month < 1 || month > 12 || day < 1 {
        return 0;
    }
    proof {
        lemma_months(year as int);
        assert(0 <= civil_days(year as int, month as int, day as int) <= 100_000);
    }
    let days: i64 = days_from_civil(year, month, day);
    ((days * 24 + hour) * 60 + minute) * 60_000 + second * 1000
}

/// The MS-DOS (time, date) pair of a moment: its local fields, with the start of
/// 1980 for what is before it.
pub open spec fn dos_pair(millis: int) -> (int, int) {
    let seconds = millis / 1000;
    let of_day = seconds % 86400;
    let c = civil_of(seconds / 86400);
    if c.0 < 1980 {
        (0, 0x21)
    } else {
        (
            (of_day / 3600) * 2048 + ((of_day / 60) % 60) * 32 + (of_day % 60) / 2,
            (c.0 - 1980) * 512 + c.1 * 32 + c.2,
        )
    }
}

/// The MS-DOS (time, date) pair for a moment.
pub fn millis_to_dos_time(millis: i64) -> (r: (u64, u64))
    ensures
        (r.0 as int, r.1 as int) == dos_pair(millis as int),
        r.0 < 0x10000,
{
    let seconds: i64 = if millis >= 0 { millis / 1000 } else { -((999 - millis as i128) / 1000) as i64 };
    proof {
        assert(seconds == (millis as int) / 1000);
    }
    let days: i64 = if seconds >= 0 { seconds / 86400 } else { -((86399 - seconds) / 86400) };
    proof {
        assert(days == (seconds as int) / 86400);
    }
    let of_day: i64 = seconds - days * 86400;
    let (y, m, d) = civil_from_days(days);
    if y < 1980 {
        return (0, 0x21);
    }
    proof {
        lemma_months(y as int);
        lemma_years_bound(y as int, m as int, d as int);
        assert(0 <= of_day < 86400);
    }
    let date: u64 = (y - 1980) as u64 * 512 + m as u64 * 32 + d as u64;
    let time: u64 = (of_day / 3600) as u64 * 2048 + ((of_day / 60) % 60) as u64 * 32 + ((of_day % 60) / 2) as u64;
    (time, date)
}

proof fn lemma_years_bound(y: int, m: int, d: int)
    requires
        is_date(y, m, d),
        y >= 1980,
    ensures
        civil_days(y, m, d) >= 365 * (y - 1970) - 400,
{
    lemma_day_of_year(y, m, d);
}

/// A moment from 1980 to 2107 survives the trip through its MS-DOS pair, up to the
/// two seconds that the format resolves, and the pair fits two 16 bit fields.
pub proof fn law_dos_time_round_trip(millis: int)
    requires
        1980 <= civil_of(millis / 1000 / 86400).0 <= 2107,
    ensures
        dos_millis(dos_pair(millis).0 as nat, dos_pair(millis).1 as nat) == millis - millis % 2000,
        0 <= dos_pair(millis).0 < 0x10000,
        0 <= dos_pair(millis).1 < 0x10000,
{
    let seconds = millis / 1000;
    let days = seconds / 86400;
    let of_day = seconds % 86400;
    lemma_civil_exists(days);
    let (y, m, d) = civil_of(days);
    let (time, date) = dos_pair(millis);
    lemma_months(y);
    let h = of_day / 3600;
    let mi = (of_day / 60) % 60;
    let s2 = (of_day % 60) / 2;
    assert(0 <= h < 24 && 0 <= mi < 60 && 0 <= s2 < 30);
    lemma_fields(y - 1980, m, d, 32);
    lemma_fields(h, mi, s2, 64);
    assert(of_day == h * 3600 + mi * 60 + of_day % 60);
    assert(millis % 2000 == (of_day % 60 - 2 * s2) * 1000 + millis % 1000) by {
        assert(of_day % 60 - 2 * s2 == of_day % 2);
        assert(seconds % 2 == of_day % 2);
        assert(millis == seconds * 1000 + millis % 1000);
    }
}

/// The fields of a packed number, the middle one below `mid`.
proof fn lemma_fields(hi: int, middle: int, lo: int, mid: int)
    requires
        0 <= hi < 128,
        0 <= middle < mid,
        0 <= lo < 32,
        mid == 32 || mid == 64,
        mid == 32 ==> middle < 16,
        mid == 64 ==> hi < 32,
    ensures
        mid == 32 ==> (hi * 512 + middle * 32 + lo) / 512 % 128 == hi,
        mid == 32 ==> (hi * 512 + middle * 32 + lo) / 32 % 16 == middle,
        mid == 32 ==> (hi * 512 + middle * 32 + lo) % 32 == lo,
        mid == 64 ==> (hi * 2048 + middle * 32 + lo) / 2048 % 32 == hi,
        mid == 64 ==> (hi * 2048 + middle * 32 + lo) / 32 % 64 == middle,
        mid == 64 ==> (hi * 2048 + middle * 32 + lo) % 32 == lo,
{
    if mid == 32 {
        let x = hi * 512 + middle * 32 + lo;
        assert(x / 512 == hi);
        assert(x / 32 == hi * 16 + middle);
        assert((hi * 16 + middle) % 16 == middle);
        assert(x % 32 == lo);
    } else {
        let x = hi * 2048 + middle * 32 + lo;
        assert(x / 2048 == hi);
        assert(x / 32 == hi * 64 + middle);
        assert((hi * 64 + middle) % 64 == middle);
        assert(x % 32 == lo);
    }
}

/// A moment before 1980 becomes the start of 1980.
pub proof fn law_dos_time_clamps(millis: int)
    requires
        civil_of(millis / 1000 / 86400).0 < 1980,
    ensures
        dos_millis(dos_pair(millis).0 as nat, dos_pair(millis).1 as nat) == civil_days(1980, 1, 1) * 86_400_000,
{
    lemma_months(1980);
}

/// The day count of a date leads back to the date.
pub proof fn law_civil_round_trip(y: int, m: int, d: int)
    requires
        is_date(y, m, d),
    ensures
        civil_of(civil_days(y, m, d)) == (y, m, d),
{
    let c = civil_of(civil_days(y, m, d));
    lemma_civil_exists(civil_days(y, m, d));
    lemma_civil_unique(c.0, c.1, c.2, y, m, d);
}

/// An MS-DOS date holds the years since 1980, the month and the day, and the time the hour, the
/// minute and half the seconds: from the highest bits down.
pub proof fn law_dos_fields(y: int, mo: int, d: int, h: int, mi: int, s: int)
    requires
        1980 <= y <= 2107,
        1 <= mo <= 12,
        1 <= d <= 31,
        0 <= h < 24,
        0 <= mi < 60,
        0 <= s < 60,
        s % 2 == 0,
    ensures
        dos_millis((2048 * h + 32 * mi + s / 2) as nat, (512 * (y - 1980) + 32 * mo + d) as nat) == 1000 * (86400
            * civil_days(y, mo, d) + 3600 * h + 60 * mi + s),
{
    lemma_fields(y - 1980, mo, d, 32);
    lemma_fields(h, mi, s / 2, 64);
}

/// The MS-DOS pair of a moment from 1980 on holds its date and its time of day.
pub proof fn law_dos_pair_fields(y: int, mo: int, d: int, of_day: int)
    requires
        is_date(y, mo, d),
        y >= 1980,
        0 <= of_day < 86_400,
    ensures
        dos_pair(1000 * (86400 * civil_days(y, mo, d) + of_day)) == (
            2048 * (of_day / 3600) + 32 * ((of_day / 60) % 60) + (of_day % 60) / 2,
            512 * (y - 1980) + 32 * mo + d,
        ),
{
    law_civil_round_trip(y, mo, d);
    let seconds = 86400 * civil_days(y, mo, d) + of_day;
    assert((1000 * seconds) / 1000 == seconds);
    lemma_fundamental_div_mod_converse(seconds, 86400, civil_days(y, mo, d), of_day);
}

/// The days are counted from the start of 1970, one for each day: the next day of a month, the
/// first of the next month behind the last of one, and New Year behind the last of December.
pub proof fn law_days_follow_each_other(y: int, m: int, d: int)
    requires
        1 <= m <= 12,
    ensures
        civil_days(1970, 1, 1) == 0,
        civil_days(y, m, d + 1) == civil_days(y, m, d) + 1,
        m < 12 ==> civil_days(y, m + 1, 1) == civil_days(y, m, days_in_month(y, m)) + 1,
        civil_days(y + 1, 1, 1) == civil_days(y, 12, 31) + 1,
{
    lemma_months(1970);
    lemma_months(y);
    lemma_months(y + 1);
    lemma_year_length(y);
}

/// A year has a day more where it can be divided by four, but of the centuries only where it can
/// be divided by 400; the months have their usual lengths.
pub proof fn law_calendar(y: int)
    ensures
        days_in_month(y, 2) == 29 <==> y % 400 == 0 || (y % 4 == 0 && y % 100 != 0),
        days_in_month(y, 2) == 28 || days_in_month(y, 2) == 29,
        forall|m: int|
            #[trigger] days_in_month(y, m) == 31 <== m == 1 || m == 3 || m == 5 || m == 7 || m == 8 || m == 10 || m == 12,
        forall|m: int| #[trigger] days_in_month(y, m) == 30 <== m == 4 || m == 6 || m == 9 || m == 11,
{
}

/// A date without a month or a day is none, whatever the year and the time are.
pub proof fn law_dates_that_are_none(time: nat, year: nat, month: nat, day: nat)
    requires
        year < 128,
        month < 16,
        day < 32,
        month == 0 || month > 12 || day == 0,
    ensures
        dos_millis(time, 512 * year + 32 * month + day) == 0,
{
    let date = 512 * year + 32 * month + day;
    assert((date / 32) % 16 == month);
    assert(date % 32 == day);
}

} // verus!
