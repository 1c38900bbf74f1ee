//! The calendar, times and rolling checksums of older archives.

use crate::shared::checksum::rolling_from;
use crate::shared::legacy_time::{
    civil_days, dos_field, dos_seconds, lemma_dos_time_roundtrip, lemma_fields,
    spec_dos_time_to_unix, spec_unix_to_dos_time,
};
use vstd::prelude::*;

verus! {

/// A leap year of the Gregorian calendar.
pub open spec fn is_leap(year: int) -> bool {
    year % 4 == 0 && (year % 100 != 0 || year % 400 == 0)
}

/// Days of a month.
pub open spec fn month_days(year: int, month: int) -> int {
    if month == 2 {
        if is_leap(year) {
            29
        } else {
            28
        }
    } else if month == 4 || month == 6 || month == 9 || month == 11 {
        30
    } else {
        31
    }
}

proof fn lemma_leap_day(y: int)
    ensures
        (y / 4 - y / 100 + y / 400) - ((y - 1) / 4 - (y - 1) / 100 + (y - 1) / 400) == if is_leap(
            y,
        ) {
            1int
        } else {
            0
        },
{
    assert(y / 4 == (y - 1) / 4 + if y % 4 == 0 {
        1int
    } else {
        0
    });
    assert(y / 100 == (y - 1) / 100 + if y % 100 == 0 {
        1int
    } else {
        0
    });
    assert(y / 400 == (y - 1) / 400 + if y % 400 == 0 {
        1int
    } else {
        0
    });
    assert(y % 400 == 0 ==> y % 100 == 0);
    assert(y % 100 == 0 ==> y % 4 == 0);
}

/// Days are counted from the first of January 1970, in the months of the
/// Gregorian calendar.
pub proof fn lemma_calendar_law(year: int, month: int, day: int)
    requires
        1 <= month <= 12,
    ensures
        civil_days(1970, 1, 1) == 0,
        civil_days(year, month, day + 1) == civil_days(year, month, day) + 1,
        month < 12 ==> civil_days(year, month + 1, 1) == civil_days(year, month, 1) + month_days(
            year,
            month,
        ),
        civil_days(year + 1, 1, 1) == civil_days(year, 12, 1) + 31,
{
    if month == 2 {
        lemma_leap_day(year);
    }
}

/// The field of a DOS time: seven bits of years from 1980, four of months, five
/// of days, five of hours, six of minutes and five of double seconds.
pub proof fn lemma_dos_time_law(
    year: int,
    month: int,
    day: int,
    hour: int,
    minute: int,
    pair: int,
)
    requires
        0 <= year < 128,
        0 <= month < 16,
        0 <= day < 32,
        0 <= hour < 32,
        0 <= minute < 64,
        0 <= pair < 32,
    ensures
        ({
            let dos = 0x200_0000 * year + 0x20_0000 * month + 0x1_0000 * day + 0x800 * hour + 0x20
                * minute + pair;
            let t = 86400 * civil_days(1980 + year, month, day) + 3600 * hour + 60 * minute + 2
                * pair;
            spec_dos_time_to_unix(dos) == if t > 0xffff_ffff {
                0xffff_ffff
            } else {
                t
            }
        }),
{
    let dos = 0x200_0000 * year + 0x20_0000 * month + 0x1_0000 * day + 0x800 * hour + 0x20 * minute
        + pair;
    assert((1980 + year - 1852) % 128 == year);
    assert((2 * pair) / 2 == pair);
    lemma_fields(1980 + year, month, day, hour, minute, 2 * pair);
    assert(dos_field(1980 + year, month, day, hour, minute, 2 * pair) == dos);
    let days = civil_days(1980 + year, month, day);
    assert(dos_seconds(dos) == days * 86400 + hour * 3600 + minute * 60 + pair * 2);
}

/// A time from 1980 on comes back from its field, to the even second.
pub proof fn lemma_time_comes_back(civil: u32)
    requires
        civil >= 315_532_800,
    ensures
        spec_dos_time_to_unix(spec_unix_to_dos_time(civil as int)) == civil - civil % 2,
{
    lemma_dos_time_roundtrip(civil);
}

/// The rolling checksum takes a byte by adding it and turning the sum of 16
/// bits by one.
pub proof fn lemma_rolling_law(sum: u16, data: Seq<u8>, b: u8)
    ensures
        rolling_from(sum, Seq::<u8>::empty()) == sum,
        ({
            let t = (rolling_from(sum, data) + b) % 0x1_0000;
            rolling_from(sum, data.push(b)) == if t < 0x8000 {
                2 * t
            } else {
                2 * t - 0xffff
            }
        }),
{
    assert(data.push(b).drop_last() =~= data);
}

} // verus!
