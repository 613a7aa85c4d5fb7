//! Unix timestamp helpers.
use vstd::prelude::*;

use super::text::{dec_padded, push_dec_padded, string_of};
use std::time::{Duration, SystemTime, UNIX_EPOCH};

verus! {

/// The standard library's wall-clock time.
#[verifier::external_type_specification]
#[verifier::external_body]
pub struct ExSystemTime(SystemTime);

/// `SystemTime::now()`: the current wall-clock time. Nothing is claimed of
/// the value; it depends on the machine's clock.
#[verifier::external_body]
fn system_now() -> SystemTime {
    SystemTime::now()
}

/// `SystemTime::duration_since(UNIX_EPOCH)`, with the error (a clock before
/// the epoch) turned into `None`. Nothing is claimed of the duration.
#[verifier::external_body]
fn since_epoch(t: &SystemTime) -> Option<Duration> {
    t.duration_since(UNIX_EPOCH).ok()
}

/// `Duration::as_secs`: the whole seconds of a duration. The duration is
/// opaque here, so nothing is claimed of the value.
#[verifier::external_body]
fn whole_secs(d: &Duration) -> u64 {
    d.as_secs()
}

/// Current Unix time in seconds. Returns 0 if the clock is before the epoch
/// (never panics — a broken clock must not take down the daemon).
pub fn now() -> u64 {
    match since_epoch(&system_now()) {
        Some(d) => whole_secs(&d),
        None => 0,
    }
}

/// The proleptic Gregorian date `(year, month, day)` of the day `z` counted
/// from 1970-01-01, computed through 400-year eras of 146 097 days and
/// years that start in March.
pub open spec fn civil(z: int) -> (int, int, int) {
    let z2 = z + 719_468;
    let era = z2 / 146_097;
    let doe = z2 - era * 146_097;
    let yoe = (doe - doe / 1460 + doe / 36_524 - doe / 146_096) / 365;
    let doy = doe - (365 * yoe + yoe / 4 - yoe / 100);
    let mp = (5 * doy + 2) / 153;
    let d = doy - (153 * mp + 2) / 5 + 1;
    let m = if mp < 10 {
        mp + 3
    } else {
        mp - 9
    };
    let y = yoe + era * 400 + if m <= 2 {
        1int
    } else {
        0int
    };
    (y, m, d)
}

/// ISO-8601 UTC text of the Unix time `secs`: `YYYY-MM-DDThh:mm:ssZ`.
pub open spec fn utc_text(secs: u64) -> Seq<char> {
    let (y, m, d) = civil((secs / 86_400) as int);
    let tod = secs % 86_400;
    dec_padded(y as nat, 4) + seq!['-'] + dec_padded(m as nat, 2) + seq!['-'] + dec_padded(
        d as nat,
        2,
    ) + seq!['T'] + dec_padded((tod / 3600) as nat, 2) + seq![':'] + dec_padded(
        ((tod % 3600) / 60) as nat,
        2,
    ) + seq![':'] + dec_padded((tod % 60) as nat, 2) + seq!['Z']
}

proof fn lemma_civil_bounds(z2: int)
    requires
        z2 >= 0,
    ensures
        ({
            let era = z2 / 146_097;
            let doe = z2 - era * 146_097;
            let yoe = (doe - doe / 1460 + doe / 36_524 - doe / 146_096) / 365;
            let doy = doe - (365 * yoe + yoe / 4 - yoe / 100);
            let mp = (5 * doy + 2) / 153;
            let d = doy - (153 * mp + 2) / 5 + 1;
            &&& era >= 0
            &&& 0 <= doe <= 146_096
            &&& 0 <= yoe <= 399
            &&& 0 <= doy <= 365
            &&& 0 <= mp <= 11
            &&& 1 <= d <= 31
        }),
{
    let era = z2 / 146_097;
    let doe = z2 - era * 146_097;
    assert(era >= 0 && 0 <= doe <= 146_096) by (nonlinear_arith)
        requires
            z2 >= 0,
            era == z2 / 146_097,
            doe == z2 - era * 146_097,
    ;
    let t = doe - doe / 1460 + doe / 36_524 - doe / 146_096;
    assert(0 <= t <= 145_999) by (nonlinear_arith)
        requires
            0 <= doe <= 146_096,
            t == doe - doe / 1460 + doe / 36_524 - doe / 146_096,
    ;
    let yoe = t / 365;
    assert(0 <= yoe <= 399);
    let doy = doe - (365 * yoe + yoe / 4 - yoe / 100);
    assert(0 <= doy <= 365) by (nonlinear_arith)
        requires
            0 <= doe <= 146_096,
            t == doe - doe / 1460 + doe / 36_524 - doe / 146_096,
            yoe == t / 365,
            0 <= yoe <= 399,
            doy == doe - (365 * yoe + yoe / 4 - yoe / 100),
    ;
    let mp = (5 * doy + 2) / 153;
    assert(0 <= mp <= 11);
    let d = doy - (153 * mp + 2) / 5 + 1;
    assert(1 <= d <= 31) by (nonlinear_arith)
        requires
            0 <= doy <= 365,
            mp == (5 * doy + 2) / 153,
            d == doy - (153 * mp + 2) / 5 + 1,
    ;
}

/// Every Unix time is written with a month from 1 to 12, a day from 1 to 31,
/// an hour below 24 and minutes and seconds below 60, and a year from 1970 on.
pub proof fn lemma_utc_fields_in_range(secs: u64)
    ensures
        ({
            let (y, m, d) = civil((secs / 86_400) as int);
            let tod = secs % 86_400;
            &&& y >= 1970
            &&& 1 <= m <= 12
            &&& 1 <= d <= 31
            &&& tod / 3600 < 24
            &&& (tod % 3600) / 60 < 60
            &&& tod % 60 < 60
        }),
{
    let z = (secs / 86_400) as int;
    lemma_civil_bounds(z + 719_468);
    let z2 = z + 719_468;
    let era = z2 / 146_097;
    assert(era >= 4) by (nonlinear_arith)
        requires
            z2 >= 719_468,
            era == z2 / 146_097,
    ;
    let doe = z2 - era * 146_097;
    let yoe = (doe - doe / 1460 + doe / 36_524 - doe / 146_096) / 365;
    if era == 4 {
        assert(doe >= 135_080);
        assert(yoe >= 369) by (nonlinear_arith)
            requires
                135_080 <= doe <= 146_096,
                yoe == (doe - doe / 1460 + doe / 36_524 - doe / 146_096) / 365,
        ;
    }
}

/// Convert days since 1970-01-01 to a (year, month, day) tuple.
fn civil_from_days(z: u64) -> (r: (u64, u32, u32))
    requires
        z <= 213_503_982_334_601,
    ensures
        r.0 as int == civil(z as int).0,
        r.1 as int == civil(z as int).1,
        r.2 as int == civil(z as int).2,
        1 <= r.1 <= 12,
        1 <= r.2 <= 31,
{
    proof {
        lemma_civil_bounds(z + 719_468);
    }
    let z = z + 719_468;
    let era = z / 146_097;
    let doe = z - era * 146_097;
    let yoe = (doe - doe / 1460 + doe / 36_524 - doe / 146_096) / 365;
    let doy = doe - (365 * yoe + yoe / 4 - yoe / 100);
    let mp = (5 * doy + 2) / 153;
    let d = (doy - (153 * mp + 2) / 5 + 1) as u32;
    let m = (if mp < 10 {
        mp + 3
    } else {
        mp - 9
    }) as u32;
    let y = yoe + era * 400 + if m <= 2 {
        1
    } else {
        0
    };
    (y, m, d)
}

/// Format a Unix timestamp (seconds) as ISO-8601 UTC, e.g.
/// `2026-05-29T11:26:51Z`. Leap seconds are ignored.
pub fn format_utc(secs: u64) -> (s: String)
    ensures
        s@ == utc_text(secs),
{
    let days = secs / 86_400;
    let tod = secs % 86_400;
    let (y, m, d) = civil_from_days(days);
    let mut out: Vec<char> = Vec::new();
    push_dec_padded(&mut out, y, 4);
    out.push('-');
    push_dec_padded(&mut out, m as u64, 2);
    out.push('-');
    push_dec_padded(&mut out, d as u64, 2);
    out.push('T');
    push_dec_padded(&mut out, tod / 3600, 2);
    out.push(':');
    push_dec_padded(&mut out, (tod % 3600) / 60, 2);
    out.push(':');
    push_dec_padded(&mut out, tod % 60, 2);
    out.push('Z');
    assert(out@ =~= utc_text(secs));
    string_of(&out)
}

}
