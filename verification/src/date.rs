//! Calendar dates as embedded in dump and snapshot names. Names carry a
//! zero-padded `shorturls-YYYYMMDD` stamp, so the numeric date key orders
//! artifacts chronologically.

use vstd::prelude::*;

use crate::text::{all_digits, digits_val, match_lit, read_digits};
use crate::StatsError;

verus! {

/// A calendar date.
#[derive(Clone, Copy, Debug, PartialEq, Eq, Structural)]
pub struct Date {
    pub year: u32,
    pub month: u32,
    pub day: u32,
}

pub open spec fn is_leap_year(y: int) -> bool {
    y % 4 == 0 && (y % 100 != 0 || y % 400 == 0)
}

pub open spec fn days_in_month(y: int, m: int) -> int {
    if m == 2 {
        if is_leap_year(y) {
            29
        } else {
            28
        }
    } else if m == 4 || m == 6 || m == 9 || m == 11 {
        30
    } else {
        31
    }
}

/// A real calendar date with a four-digit year.
pub open spec fn valid_date(d: Date) -> bool {
    &&& d.year <= 9999
    &&& 1 <= d.month <= 12
    &&& 1 <= d.day <= days_in_month(d.year as int, d.month as int)
}

/// Chronological key: for valid dates, later dates have larger keys.
pub open spec fn date_key(d: Date) -> int {
    d.year * 10000 + d.month * 100 + d.day
}

/// Chronological key of a date.
pub fn date_key_of(d: &Date) -> (k: u64)
    ensures
        k == date_key(*d),
{
    (d.year as u64) * 10000 + (d.month as u64) * 100 + (d.day as u64)
}

fn leap_year(y: u32) -> (r: bool)
    ensures
        r == is_leap_year(y as int),
{
    y % 4 == 0 && (y % 100 != 0 || y % 400 == 0)
}

fn month_days(y: u32, m: u32) -> (r: u32)
    ensures
        r == days_in_month(y as int, m as int),
{
    if m == 2 {
        if leap_year(y) {
            29
        } else {
            28
        }
    } else if m == 4 || m == 6 || m == 9 || m == 11 {
        30
    } else {
        31
    }
}

/// The name prefix shared by dumps and snapshots.
pub open spec fn name_prefix() -> Seq<char> {
    seq!['s', 'h', 'o', 'r', 't', 'u', 'r', 'l', 's', '-']
}

/// The date a name of the form `shorturls-YYYYMMDD<suffix>` embeds, if the
/// name has exactly that shape and the date is a real one.
pub open spec fn spec_parse_dated(s: Seq<char>, suffix: Seq<char>) -> Option<Date> {
    if s.len() == 18 + suffix.len() && s.subrange(0, 10) == name_prefix() && all_digits(
        s.subrange(10, 18),
    ) && s.subrange(18, s.len() as int) == suffix {
        let d = Date {
            year: digits_val(s.subrange(10, 14)) as u32,
            month: digits_val(s.subrange(14, 16)) as u32,
            day: digits_val(s.subrange(16, 18)) as u32,
        };
        if valid_date(d) {
            Some(d)
        } else {
            None
        }
    } else {
        None
    }
}

/// Parse a `shorturls-YYYYMMDD<suffix>` name.
pub fn parse_dated_name(s: &str, suffix: &str) -> (r: Option<Date>)
    ensures
        r == spec_parse_dated(s@, suffix@),
{
    let len = s.unicode_len();
    let slen = suffix.unicode_len();
    if len < 18 || len - 18 != slen {
        return None;
    }
    if !match_lit(s, 0, "shorturls-") {
        proof {
            reveal_strlit("shorturls-");
            assert("shorturls-"@ =~= name_prefix());
        }
        return None;
    }
    proof {
        reveal_strlit("shorturls-");
        assert("shorturls-"@ =~= name_prefix());
    }
    if !match_lit(s, 18, suffix) {
        return None;
    }
    proof {
        assert(s@.subrange(18, s@.len() as int) == s@.subrange(18, 18 + suffix@.len() as int));
    }
    let year = match read_digits(s, 10, 14) {
        Some(v) => v,
        None => {
            proof {
                let part = s@.subrange(10, 14);
                let whole = s@.subrange(10, 18);
                let j = choose|j: int|
                    0 <= j < part.len() && !crate::text::is_digit(#[trigger] part[j]);
                assert(whole[j + 0] == part[j]);
                assert(!all_digits(whole));
            }
            return None;
        },
    };
    let month = match read_digits(s, 14, 16) {
        Some(v) => v,
        None => {
            proof {
                let part = s@.subrange(14, 16);
                let whole = s@.subrange(10, 18);
                let j = choose|j: int|
                    0 <= j < part.len() && !crate::text::is_digit(#[trigger] part[j]);
                assert(whole[j + 4] == part[j]);
                assert(!all_digits(whole));
            }
            return None;
        },
    };
    let day = match read_digits(s, 16, 18) {
        Some(v) => v,
        None => {
            proof {
                let part = s@.subrange(16, 18);
                let whole = s@.subrange(10, 18);
                let j = choose|j: int|
                    0 <= j < part.len() && !crate::text::is_digit(#[trigger] part[j]);
                assert(whole[j + 6] == part[j]);
                assert(!all_digits(whole));
            }
            return None;
        },
    };
    proof {
        let whole = s@.subrange(10, 18);
        assert forall|j: int| 0 <= j < 8 implies crate::text::is_digit(#[trigger] whole[j]) by {
            if j < 4 {
                assert(whole[j] == s@.subrange(10, 14)[j]);
            } else if j < 6 {
                assert(whole[j] == s@.subrange(14, 16)[j - 4]);
            } else {
                assert(whole[j] == s@.subrange(16, 18)[j - 6]);
            }
        }
        crate::text::lemma_digits_val_bound(s@.subrange(10, 14));
        crate::text::lemma_digits_val_bound(s@.subrange(14, 16));
        crate::text::lemma_digits_val_bound(s@.subrange(16, 18));
        assert(crate::text::pow10(4) == 10000) by {
            assert(crate::text::pow10(0) == 1);
            assert(crate::text::pow10(1) == 10);
            assert(crate::text::pow10(2) == 100);
            assert(crate::text::pow10(3) == 1000);
        }
        assert(crate::text::pow10(2) == 100) by {
            assert(crate::text::pow10(0) == 1);
            assert(crate::text::pow10(1) == 10);
        }
    }
    let d = Date { year, month, day };
    if month < 1 || month > 12 || day < 1 || day > month_days(year, month) || year > 9999 {
        return None;
    }
    Some(d)
}

/// Parse the date out of a snapshot artifact name
/// (`shorturls-YYYYMMDD.gz.data`).
pub fn parse_date(fname: &str) -> (r: Result<Date, StatsError>)
    ensures
        match r {
            Ok(d) => spec_parse_dated(fname@, ".gz.data"@) == Some(d),
            Err(e) => e == StatsError::ParseError && spec_parse_dated(fname@, ".gz.data"@)
                is None,
        },
{
    match parse_dated_name(fname, ".gz.data") {
        Some(d) => Ok(d),
        None => Err(StatsError::ParseError),
    }
}

/// Parse the date out of a raw dump name (`shorturls-YYYYMMDD.gz`).
pub fn parse_dump_date(name: &str) -> (r: Result<Date, StatsError>)
    ensures
        match r {
            Ok(d) => spec_parse_dated(name@, ".gz"@) == Some(d),
            Err(e) => e == StatsError::ParseError && spec_parse_dated(name@, ".gz"@) is None,
        },
{
    match parse_dated_name(name, ".gz") {
        Some(d) => Ok(d),
        None => Err(StatsError::ParseError),
    }
}

} // verus!
