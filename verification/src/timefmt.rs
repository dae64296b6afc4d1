//! Timestamps for display.
//!
//! A message carries its UTC timestamp in milliseconds since the epoch.
//! For display it is shifted by the local offset and written in the
//! proleptic Gregorian calendar as `YYYY-MM-DD hh:mm:ss`.  The calendar
//! computation follows the era decomposition of the day count (eras of
//! 146097 days = 400 years); the local offset itself can only come from
//! the environment and is taken from the clock library behind a trusted
//! wrapper.

use vstd::prelude::*;
use vstd::arithmetic::div_mod::{
    lemma_hoist_over_denominator, lemma_mod_multiples_vanish, lemma_div_nonincreasing,
};

verus! {

/// The ten decimal digits.
pub const DEC_DIGITS: [char; 10] = ['0', '1', '2', '3', '4', '5', '6', '7', '8', '9'];

/// Shift, in days, that keeps every intermediate day count of the
/// calendar computation nonnegative over the whole `i64` millisecond
/// range.  It is a multiple of 146097 (the days of one 400-year era),
/// so shifting moves the era number alone.
const SHIFT_DAYS: i128 = 146097 * 800000;

/// The same shift in seconds.
const SHIFT_S: i128 = 146097 * 800000 * 86400;

/// The same shift in milliseconds.
const SHIFT_MS: i128 = 146097 * 800000 * 86400 * 1000;

/// A moment of the proleptic Gregorian calendar.
pub struct CivilTime {
    pub year: i128,
    pub month: u64,
    pub day: u64,
    pub hour: u64,
    pub minute: u64,
    pub second: u64,
}

/// Mathematical value of a `CivilTime`.
pub struct CivilTimeModel {
    pub year: int,
    pub month: int,
    pub day: int,
    pub hour: int,
    pub minute: int,
    pub second: int,
}

impl DeepView for CivilTime {
    type V = CivilTimeModel;

    open spec fn deep_view(&self) -> CivilTimeModel {
        CivilTimeModel {
            year: self.year as int,
            month: self.month as int,
            day: self.day as int,
            hour: self.hour as int,
            minute: self.minute as int,
            second: self.second as int,
        }
    }
}

/// The calendar moment denoted by a timestamp and an offset: the
/// timestamp is truncated to seconds, shifted by the offset, split into
/// a day number and a second of the day, and the day number is
/// decomposed era by era.  (The two guards never fire on the values the
/// era decomposition produces; they keep the definition total.)
pub open spec fn civil_of(ts_ms: int, offset_s: int) -> CivilTimeModel {
    let total = ts_ms / 1000 + offset_s;
    let z = total / 86400;
    let sod = total % 86400;
    let zz = z + 719468;
    let era = zz / 146097;
    let doe = zz % 146097;
    let n1 = doe - doe / 1460 + doe / 36524;
    let yoe = (if doe / 146096 <= n1 {
        n1 - doe / 146096
    } else {
        0
    }) / 365;
    let base = 365 * yoe + yoe / 4 - yoe / 100;
    let doy = if base <= doe {
        doe - base
    } else {
        0
    };
    let mp = (5 * doy + 2) / 153;
    let dcut = (153 * mp + 2) / 5;
    let day = if dcut <= doy {
        doy - dcut + 1
    } else {
        1
    };
    let month = if mp < 10 {
        mp + 3
    } else {
        mp - 9
    };
    let year = if month <= 2 {
        era * 400 + yoe + 1
    } else {
        era * 400 + yoe
    };
    CivilTimeModel {
        year,
        month,
        day,
        hour: sod / 3600,
        minute: (sod % 3600) / 60,
        second: sod % 60,
    }
}

/// The decimal digits of a nonnegative number, most significant first.
pub open spec fn dec_of(n: nat) -> Seq<char>
    decreases n,
{
    if n < 10 {
        seq![DEC_DIGITS@[n as int]]
    } else {
        dec_of(n / 10).push(DEC_DIGITS@[(n % 10) as int])
    }
}

/// The decimal digits, zero-padded to width two.
pub open spec fn pad2(n: nat) -> Seq<char> {
    (if n < 10 {
        seq!['0']
    } else {
        Seq::<char>::empty()
    }) + dec_of(n)
}

/// The decimal digits, zero-padded to width four.
pub open spec fn pad4(n: nat) -> Seq<char> {
    (if n < 1000 {
        seq!['0']
    } else {
        Seq::<char>::empty()
    }) + (if n < 100 {
        seq!['0']
    } else {
        Seq::<char>::empty()
    }) + (if n < 10 {
        seq!['0']
    } else {
        Seq::<char>::empty()
    }) + dec_of(n)
}

/// A calendar moment written as `YYYY-MM-DD hh:mm:ss` (with a sign and
/// more digits where the year demands them).
pub open spec fn civil_text(c: CivilTimeModel) -> Seq<char> {
    (if c.year < 0 {
        seq!['-'] + pad4((-c.year) as nat)
    } else {
        pad4(c.year as nat)
    }) + seq!['-'] + pad2(c.month as nat) + seq!['-'] + pad2(c.day as nat) + seq![' '] + pad2(
        c.hour as nat,
    ) + seq![':'] + pad2(c.minute as nat) + seq![':'] + pad2(c.second as nat)
}

/// The displayed form of a timestamp under a local offset.
pub open spec fn local_stamp(ts_ms: int, offset_s: int) -> Seq<char> {
    civil_text(civil_of(ts_ms, offset_s))
}

/// Splits a nonnegative number by a positive divisor.
fn split_nonneg(a: i128, b: u64) -> (r: (i128, u64))
    requires
        0 <= a,
        0 < b,
    ensures
        r.0 == a as int / b as int,
        r.1 == a as int % b as int,
        0 <= r.0 <= a,
{
    let ua = a as u128;
    let q = ua / (b as u128);
    let rem = ua % (b as u128);
    proof {
        assert(ua == a);
        assert(q <= ua);
        assert(rem < b);
    }
    (q as i128, rem as u64)
}

/// The calendar moment a timestamp denotes under a local offset.
pub fn civil_from_timestamp(ts_ms: i64, offset_s: i32) -> (r: CivilTime)
    requires
        -86400 < offset_s < 86400,
    ensures
        r.deep_view() == civil_of(ts_ms as int, offset_s as int),
{
    let ghost tsg = ts_ms as int;
    let ghost offg = offset_s as int;
    let ms_sh: i128 = ts_ms as i128 + SHIFT_MS;
    let (s_sh, _) = split_nonneg(ms_sh, 1000);
    proof {
        lemma_hoist_over_denominator(tsg, SHIFT_S as int, 1000nat);
        assert(s_sh == tsg / 1000 + SHIFT_S);
    }
    let total_sh: i128 = s_sh + offset_s as i128;
    let ghost total = tsg / 1000 + offg;
    proof {
        assert(total_sh == total + SHIFT_S);
        assert(total_sh >= 0);
    }
    let (z_sh, sod) = split_nonneg(total_sh, 86400);
    proof {
        lemma_hoist_over_denominator(total, SHIFT_DAYS as int, 86400nat);
        assert(z_sh == total / 86400 + SHIFT_DAYS);
        lemma_mod_multiples_vanish(SHIFT_DAYS as int, total, 86400);
        assert(sod == total % 86400);
    }
    let zz_sh: i128 = z_sh + 719468;
    let ghost zz = total / 86400 + 719468;
    let (era_sh, doe) = split_nonneg(zz_sh, 146097);
    proof {
        assert(zz_sh == zz + 146097 * 800000);
        lemma_hoist_over_denominator(zz, 800000, 146097nat);
        assert(era_sh == zz / 146097 + 800000);
        lemma_mod_multiples_vanish(800000, zz, 146097);
        assert(doe == zz % 146097);
        assert(doe < 146097);
    }
    let era: i128 = era_sh - 800000;
    proof {
        lemma_div_nonincreasing(doe as int, 1460);
        lemma_div_nonincreasing(doe as int, 365);
    }
    let n1: u64 = doe - doe / 1460 + doe / 36524;
    let yoe: u64 = (if doe / 146096 <= n1 {
        n1 - doe / 146096
    } else {
        0
    }) / 365;
    let base: u64 = 365 * yoe + yoe / 4 - yoe / 100;
    let doy: u64 = if base <= doe {
        doe - base
    } else {
        0
    };
    let mp: u64 = (5 * doy + 2) / 153;
    let dcut: u64 = (153 * mp + 2) / 5;
    let day: u64 = if dcut <= doy {
        doy - dcut + 1
    } else {
        1
    };
    let month: u64 = if mp < 10 {
        mp + 3
    } else {
        mp - 9
    };
    let year: i128 = if month <= 2 {
        era * 400 + yoe as i128 + 1
    } else {
        era * 400 + yoe as i128
    };
    let hour: u64 = sod / 3600;
    let minute: u64 = (sod % 3600) / 60;
    let second: u64 = sod % 60;
    CivilTime { year, month, day, hour, minute, second }
}

/// Appends the decimal digits of `n`.
fn push_dec(s: &mut String, n: u64)
    ensures
        final(s)@ == old(s)@ + dec_of(n as nat),
    decreases n,
{
    if n < 10 {
        crate::node_id::push_char(s, DEC_DIGITS[n as usize]);
        proof {
            assert(final(s)@ =~= old(s)@ + dec_of(n as nat));
        }
    } else {
        push_dec(s, n / 10);
        crate::node_id::push_char(s, DEC_DIGITS[(n % 10) as usize]);
        proof {
            assert(final(s)@ =~= old(s)@ + dec_of(n as nat));
        }
    }
}

/// Appends the decimal digits of `n`, zero-padded to width two.
fn push_pad2(s: &mut String, n: u64)
    ensures
        final(s)@ == old(s)@ + pad2(n as nat),
{
    if n < 10 {
        crate::node_id::push_char(s, '0');
    }
    push_dec(s, n);
    proof {
        assert(final(s)@ =~= old(s)@ + pad2(n as nat));
    }
}

/// Appends the decimal digits of `n`, zero-padded to width four.
fn push_pad4(s: &mut String, n: u64)
    ensures
        final(s)@ == old(s)@ + pad4(n as nat),
{
    if n < 1000 {
        crate::node_id::push_char(s, '0');
    }
    if n < 100 {
        crate::node_id::push_char(s, '0');
    }
    if n < 10 {
        crate::node_id::push_char(s, '0');
    }
    push_dec(s, n);
    proof {
        assert(final(s)@ =~= old(s)@ + pad4(n as nat));
    }
}

/// Writes a timestamp for display: the calendar moment it denotes
/// under the offset, as `YYYY-MM-DD hh:mm:ss`.
pub fn format_local_stamp(ts_ms: i64, offset_s: i32) -> (r: String)
    requires
        -86400 < offset_s < 86400,
    ensures
        r@ == local_stamp(ts_ms as int, offset_s as int),
{
    let c = civil_from_timestamp(ts_ms, offset_s);
    let mut r = String::new();
    if c.year < 0 {
        crate::node_id::push_char(&mut r, '-');
        proof {
            lemma_civil_year_bounded(ts_ms as int, offset_s as int);
        }
        push_pad4(&mut r, (-c.year) as u64);
    } else {
        proof {
            lemma_civil_year_bounded(ts_ms as int, offset_s as int);
        }
        push_pad4(&mut r, c.year as u64);
    }
    crate::node_id::push_char(&mut r, '-');
    push_pad2(&mut r, c.month);
    crate::node_id::push_char(&mut r, '-');
    push_pad2(&mut r, c.day);
    crate::node_id::push_char(&mut r, ' ');
    push_pad2(&mut r, c.hour);
    crate::node_id::push_char(&mut r, ':');
    push_pad2(&mut r, c.minute);
    crate::node_id::push_char(&mut r, ':');
    push_pad2(&mut r, c.second);
    proof {
        assert(r@ =~= local_stamp(ts_ms as int, offset_s as int));
    }
    r
}

/// Relies on std's `SystemTime::now` and
/// `SystemTime::duration_since`: the current time in milliseconds
/// since the epoch, negative when the clock reads before it, saturated
/// at the `i64` range.  Never panics, whatever the clock reads;
/// nothing can be promised of the value.
#[verifier::external_body]
pub fn now_epoch_ms() -> i64 {
    match std::time::SystemTime::now().duration_since(std::time::UNIX_EPOCH) {
        Ok(since) => i64::try_from(since.as_millis()).unwrap_or(i64::MAX),
        Err(before) => match i64::try_from(before.duration().as_millis()) {
            Ok(ms) => -ms,
            Err(_) => i64::MIN,
        },
    }
}

/// Relies on chrono's `Local::timestamp_millis_opt` and
/// `FixedOffset::local_minus_utc`: the local offset at the given
/// moment, in seconds.  A `FixedOffset` is only ever built with a value
/// strictly between -86400 and 86400; which value comes back depends on
/// the machine's time zone, so nothing more is promised.
#[verifier::external_body]
pub fn local_offset_seconds(ts_ms: i64) -> (r: Option<i32>)
    ensures
        r matches Some(o) ==> -86400 < o < 86400,
{
    match chrono::TimeZone::timestamp_millis_opt(&chrono::Local, ts_ms) {
        chrono::MappedLocalTime::Single(dt) => Some(dt.offset().local_minus_utc()),
        chrono::MappedLocalTime::Ambiguous(dt, _) => Some(dt.offset().local_minus_utc()),
        chrono::MappedLocalTime::None => None,
    }
}

/// The year of any representable moment stays far within `u64` range.
proof fn lemma_civil_year_bounded(ts_ms: int, offset_s: int)
    requires
        i64::MIN <= ts_ms <= i64::MAX,
        -86400 < offset_s < 86400,
    ensures
        -1000000000000 < civil_of(ts_ms, offset_s).year < 1000000000000,
{
}

} // verus!
