//! MS-DOS date and time fields.
//!
//! The fields hold local wall-clock time with a resolution of two seconds.
//! Here civil seconds stand for them: the wall clock's reading, counted as if
//! it were UTC. What the time zone makes of an instant is the caller's.

use vstd::prelude::*;

verus! {

/// Days from 1970-01-01 to a day of the Gregorian calendar. Months start in
/// March, so that a leap day ends its year.
pub open spec fn civil_days(year: int, month: int, day: int) -> int {
    let y = if month <= 2 {
        year - 1
    } else {
        year
    };
    let m = (month + 9) % 12;
    365 * y + y / 4 - y / 100 + y / 400 + (153 * m + 2) / 5 + day - 1 - 719468
}

/// The year, from `year` on, that holds a day.
pub open spec fn year_of(days: int, year: int) -> int
    decreases days - civil_days(year, 1, 1),
{
    if civil_days(year + 1, 1, 1) <= days {
        proof {
            assert(civil_days(year + 1, 1, 1) > civil_days(year, 1, 1));
        }
        year_of(days, year + 1)
    } else {
        year
    }
}

/// The month of a year, from `month` on, that holds a day.
pub open spec fn month_of(days: int, year: int, month: int) -> int
    decreases 12 - month,
{
    if month < 12 && civil_days(year, month + 1, 1) <= days {
        month_of(days, year, month + 1)
    } else {
        month
    }
}

/// The field of a date and time; its year counts from 1980, modulo 128.
pub open spec fn dos_field(
    year: int,
    month: int,
    day: int,
    hour: int,
    minute: int,
    second: int,
) -> int {
    ((year - 1852) % 128) * 0x200_0000 + month * 0x20_0000 + day * 0x1_0000 + hour * 0x800 + minute
        * 0x20 + second / 2
}

/// The field of a time in civil seconds.
pub open spec fn spec_unix_to_dos_time(civil: int) -> int {
    let days = civil / 86400;
    let year = year_of(days, 1970);
    let month = month_of(days, year, 1);
    dos_field(
        year,
        month,
        days - civil_days(year, month, 1) + 1,
        (civil / 3600) % 24,
        (civil / 60) % 60,
        civil % 60,
    )
}

/// The civil seconds of a field, before they are fitted to 32 bits.
pub open spec fn dos_seconds(dos: int) -> int {
    civil_days(dos / 0x200_0000 + 1980, (dos / 0x20_0000) % 16, (dos / 0x1_0000) % 32) * 86400 + (
    (dos / 0x800) % 32) * 3600 + ((dos / 0x20) % 64) * 60 + (dos % 32) * 2
}

/// The civil seconds of a field, at most what 32 bits hold.
pub open spec fn spec_dos_time_to_unix(dos: int) -> int {
    if dos_seconds(dos) > u32::MAX {
        u32::MAX as int
    } else {
        dos_seconds(dos)
    }
}

/// The year found holds the day.
pub proof fn lemma_year_of(days: int, year: int)
    requires
        civil_days(year, 1, 1) <= days,
    ensures
        year_of(days, year) >= year,
        civil_days(year_of(days, year), 1, 1) <= days,
        days < civil_days(year_of(days, year) + 1, 1, 1),
    decreases days - civil_days(year, 1, 1),
{
    if civil_days(year + 1, 1, 1) <= days {
        assert(civil_days(year + 1, 1, 1) > civil_days(year, 1, 1));
        lemma_year_of(days, year + 1);
    }
}

/// The month found holds the day.
pub proof fn lemma_month_of(days: int, year: int, month: int)
    requires
        1 <= month <= 12,
        civil_days(year, month, 1) <= days,
        days < civil_days(year + 1, 1, 1),
    ensures
        month <= month_of(days, year, month) <= 12,
        civil_days(year, month_of(days, year, month), 1) <= days,
        days < civil_days(year, month_of(days, year, month), 1) + 31,
    decreases 12 - month,
{
    if month < 12 && civil_days(year, month + 1, 1) <= days {
        lemma_month_of(days, year, month + 1);
    } else if month < 12 {
        assert(civil_days(year, month + 1, 1) <= civil_days(year, month, 1) + 31) by {
            lemma_month_len(year, month);
        }
    } else {
        assert(civil_days(year + 1, 1, 1) == civil_days(year, 12, 1) + 31);
    }
}

proof fn lemma_month_len(year: int, month: int)
    requires
        1 <= month < 12,
    ensures
        civil_days(year, month + 1, 1) <= civil_days(year, month, 1) + 31,
        civil_days(year, month, 1) < civil_days(year, month + 1, 1),
{
    let m = (month + 9) % 12;
    if month == 2 {
        let y = year - 1;
        assert((y + 1) / 4 <= y / 4 + 1);
        assert((y + 1) / 100 >= y / 100);
        assert((y + 1) / 400 <= y / 400 + 1);
        assert(m == 11);
        assert((month + 1 + 9) % 12 == 0);
        lemma_leap(y);
    } else {
        assert((month + 1 + 9) % 12 == m + 1);
        assert((153 * (m + 1) + 2) / 5 <= (153 * m + 2) / 5 + 31);
        assert((153 * (m + 1) + 2) / 5 > (153 * m + 2) / 5);
    }
}

proof fn lemma_leap(y: int)
    ensures
        0 <= ((y + 1) / 4 - (y + 1) / 100 + (y + 1) / 400) - (y / 4 - y / 100 + y / 400) <= 1,
{
    assert((y + 1) / 4 == y / 4 || ((y + 1) / 4 == y / 4 + 1 && (y + 1) % 4 == 0));
    assert((y + 1) / 100 == y / 100 || ((y + 1) / 100 == y / 100 + 1 && (y + 1) % 100 == 0));
    assert((y + 1) / 400 == y / 400 || ((y + 1) / 400 == y / 400 + 1 && (y + 1) % 400 == 0));
    assert((y + 1) % 400 == 0 ==> (y + 1) % 100 == 0);
    assert((y + 1) % 100 == 0 ==> (y + 1) % 4 == 0);
}

/// The fields of a field are what it was made from.
pub proof fn lemma_fields(year: int, month: int, day: int, hour: int, minute: int, second: int)
    requires
        1980 <= year < 2108,
        0 <= month < 16,
        0 <= day < 32,
        0 <= hour < 32,
        0 <= minute < 64,
        0 <= second < 64,
    ensures
        ({
            let dos = dos_field(year, month, day, hour, minute, second);
            &&& 0 <= dos <= u32::MAX
            &&& dos / 0x200_0000 + 1980 == year
            &&& (dos / 0x20_0000) % 16 == month
            &&& (dos / 0x1_0000) % 32 == day
            &&& (dos / 0x800) % 32 == hour
            &&& (dos / 0x20) % 64 == minute
            &&& dos % 32 == second / 2
        }),
{
    let y = year - 1980;
    let s = second / 2;
    assert((year - 1852) % 128 == y);
    let dos = dos_field(year, month, day, hour, minute, second);
    let t4 = y * 16 + month;
    let t3 = t4 * 32 + day;
    let t2 = t3 * 32 + hour;
    let t1 = t2 * 64 + minute;
    assert(dos == t1 * 32 + s);
    lemma_digit(dos, t1, 32, s);
    lemma_digit(dos, t2, 0x800, minute * 32 + s);
    lemma_digit(dos, t3, 0x1_0000, hour * 0x800 + minute * 32 + s);
    lemma_digit(dos, t4, 0x20_0000, day * 0x1_0000 + hour * 0x800 + minute * 32 + s);
    lemma_digit(
        dos,
        y,
        0x200_0000,
        month * 0x20_0000 + day * 0x1_0000 + hour * 0x800 + minute * 32 + s,
    );
    lemma_digit(t1, t2, 64, minute);
    lemma_digit(t2, t3, 32, hour);
    lemma_digit(t3, t4, 32, day);
    lemma_digit(t4, y, 16, month);
}

proof fn lemma_digit(v: int, q: int, unit: int, r: int)
    requires
        0 <= r < unit,
        v == q * unit + r,
    ensures
        v / unit == q,
        v % unit == r,
{
    vstd::arithmetic::div_mod::lemma_fundamental_div_mod_converse(v, unit, q, r);
}

/// Civil seconds, put together from days and a time of day.
proof fn lemma_clock(c: int)
    requires
        c >= 0,
    ensures
        c == (c / 86400) * 86400 + ((c / 3600) % 24) * 3600 + ((c / 60) % 60) * 60 + c % 60,
        (c % 60) / 2 * 2 == c % 60 - c % 2,
{
    let m = c / 60;
    let h = m / 60;
    let d = h / 24;
    vstd::arithmetic::div_mod::lemma_div_denominator(c, 60, 60);
    vstd::arithmetic::div_mod::lemma_div_denominator(c, 3600, 24);
    assert(c / 3600 == h);
    assert(c / 86400 == d);
    assert(c == 60 * m + c % 60);
    assert(m == 60 * h + m % 60);
    assert(h == 24 * d + h % 24);
    assert(c % 2 == (c % 60) % 2);
}

/// A time from 1980 on comes back from its field, but for an odd second.
pub proof fn lemma_dos_time_roundtrip(civil: u32)
    requires
        civil >= 315_532_800,
    ensures
        0 <= spec_unix_to_dos_time(civil as int) <= u32::MAX,
        spec_dos_time_to_unix(spec_unix_to_dos_time(civil as int)) == civil - civil % 2,
{
    let c = civil as int;
    let days = c / 86400;
    assert(civil_days(1980, 1, 1) == 3652);
    assert(civil_days(2107, 1, 1) > 49711);
    lemma_year_of_range(days);
    let year = year_of(days, 1970);
    lemma_month_of(days, year, 1);
    let month = month_of(days, year, 1);
    let day = days - civil_days(year, month, 1) + 1;
    lemma_fields(year, month, day, (c / 3600) % 24, (c / 60) % 60, c % 60);
    assert(civil_days(year, month, day) == days);
    lemma_clock(c);
}

proof fn lemma_years_ordered(a: int, b: int)
    requires
        a <= b,
    ensures
        civil_days(a, 1, 1) <= civil_days(b, 1, 1),
    decreases b - a,
{
    if a < b {
        lemma_years_ordered(a, b - 1);
        lemma_leap(b - 2);
    }
}

proof fn lemma_year_of_range(days: int)
    requires
        3652 <= days <= 49710,
    ensures
        1980 <= year_of(days, 1970) < 2108,
        civil_days(year_of(days, 1970), 1, 1) <= days,
        days < civil_days(year_of(days, 1970) + 1, 1, 1),
{
    assert(civil_days(1970, 1, 1) == 0);
    assert(civil_days(1980, 1, 1) == 3652);
    assert(civil_days(2107, 1, 1) > 49711);
    lemma_year_of(days, 1970);
    let year = year_of(days, 1970);
    if year < 1980 {
        lemma_years_ordered(year + 1, 1980);
    }
    if year >= 2107 {
        lemma_years_ordered(2107, year);
    }
}

proof fn lemma_days_range(year: int, month: int, day: int)
    requires
        1980 <= year <= 2107,
        0 <= month < 16,
        0 <= day < 32,
    ensures
        0 <= civil_days(year, month, day) <= 51_000,
{
    let y = if month <= 2 {
        year - 1
    } else {
        year
    };
    let m = (month + 9) % 12;
    assert(0 <= (153 * m + 2) / 5 <= 337);
    assert(494 <= y / 4 <= 526);
    assert(19 <= y / 100 <= 21);
    assert(4 <= y / 400 <= 5);
}

/// Days from 1970-01-01 to a day of the Gregorian calendar.
pub fn days_from_civil(year: i64, month: u32, day: u32) -> (r: i64)
    requires
        1 <= year <= 100_000,
        month <= 100,
        day <= 100,
    ensures
        r == civil_days(year as int, month as int, day as int),
{
    let y: i64 = if month <= 2 {
        year - 1
    } else {
        year
    };
    let m: i64 = (month as i64 + 9) % 12;
    365 * y + y / 4 - y / 100 + y / 400 + (153 * m + 2) / 5 + day as i64 - 1 - 719468
}

/// The civil seconds of a DOS date and time field, at most what 32 bits hold.
pub fn dos_time_to_unix(dos: u32) -> (r: u32)
    ensures
        r == spec_dos_time_to_unix(dos as int),
{
    let year = (dos / 0x200_0000) as i64 + 1980;
    let month = (dos / 0x20_0000) % 16;
    let day = (dos / 0x1_0000) % 32;
    let hour = (dos / 0x800) % 32;
    let minute = (dos / 0x20) % 64;
    let second = (dos % 32) * 2;
    let days = days_from_civil(year, month, day);
    proof {
        lemma_days_range(year as int, month as int, day as int);
    }
    let secs: i64 = days * 86400 + (hour as i64 * 3600 + minute as i64 * 60 + second as i64);
    if secs > u32::MAX as i64 {
        u32::MAX
    } else {
        secs as u32
    }
}

/// The DOS date and time field of a time in civil seconds.
pub fn unix_to_dos_time(civil: u32) -> (r: u32)
    ensures
        r == spec_unix_to_dos_time(civil as int),
{
    let days = (civil / 86400) as i64;
    let mut year: i64 = 1970;
    proof {
        assert(civil_days(1970, 1, 1) == 0);
    }
    while days_from_civil(year + 1, 1, 1) <= days
        invariant
            1970 <= year <= 2200,
            0 <= days <= 49710,
            civil_days(year as int, 1, 1) <= days,
            year_of(days as int, 1970) == year_of(days as int, year as int),
        decreases 2200 - year,
    {
        proof {
            if year + 1 >= 2107 {
                assert(civil_days(2107, 1, 1) > 49711);
                lemma_years_ordered(2107, year + 1);
            }
        }
        year += 1;
    }
    let mut month: u32 = 1;
    while month < 12 && days_from_civil(year, month + 1, 1) <= days
        invariant
            1 <= month <= 12,
            1970 <= year <= 2200,
            month_of(days as int, year as int, 1) == month_of(
                days as int,
                year as int,
                month as int,
            ),
        decreases 12 - month,
    {
        month += 1;
    }
    proof {
        lemma_year_of(days as int, 1970);
        lemma_month_of(days as int, year as int, 1);
    }
    let day = (days - days_from_civil(year, month, 1) + 1) as u32;
    let hour = (civil / 3600) % 24;
    let minute = (civil / 60) % 60;
    let second = civil % 60;
    let y = ((year - 1852) % 128) as u32;
    y * 0x200_0000 + month * 0x20_0000 + day * 0x1_0000 + hour * 0x800 + minute * 0x20 + second / 2
}

} // verus!
