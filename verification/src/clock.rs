//! Wall-clock time in milliseconds since the Unix epoch.
use vstd::prelude::*;
use std::time::{Duration, SystemTime, SystemTimeError, UNIX_EPOCH};

verus! {

#[verifier::external_type_specification]
#[verifier::external_body]
pub struct ExSystemTime(SystemTime);

#[verifier::external_type_specification]
#[verifier::external_body]
pub struct ExSystemTimeError(SystemTimeError);

/// `SystemTime::now`: the current reading of the system clock. Nothing is
/// stated about it.
#[verifier::external_body]
fn system_now() -> SystemTime {
    SystemTime::now()
}

/// `SystemTime::duration_since(UNIX_EPOCH)`: the time elapsed from the epoch
/// to `t`, or an error when `t` lies before the epoch. `SystemTime` is
/// opaque here, so nothing is stated about which comes back.
#[verifier::external_body]
fn since_unix_epoch(t: &SystemTime) -> Result<Duration, SystemTimeError> {
    t.duration_since(UNIX_EPOCH)
}

/// `Duration::as_secs`: the whole seconds of `d`. `Duration` is opaque here,
/// so nothing is stated about the number.
#[verifier::external_body]
fn duration_secs(d: &Duration) -> u64 {
    d.as_secs()
}

/// `Duration::subsec_nanos`: the part of `d` below one second, in
/// nanoseconds; as documented, it is always under one billion.
#[verifier::external_body]
fn duration_subsec_nanos(d: &Duration) -> (n: u32)
    ensures
        n < 1_000_000_000,
{
    d.subsec_nanos()
}

/// Nanoseconds in a duration of `secs` seconds and `nanos` nanoseconds.
pub open spec fn nanos_of(secs: int, nanos: int) -> int {
    secs * 1_000_000_000 + nanos
}

/// Whole milliseconds in a duration of `secs` seconds and `nanos`
/// nanoseconds (`nanos` under one billion), as `Duration::as_millis` counts
/// them.
pub open spec fn millis_of(secs: int, nanos: int) -> int {
    secs * 1000 + nanos / 1_000_000
}

/// Whole milliseconds in a duration given by its seconds and sub-second
/// nanoseconds.
pub fn millis_from_parts(secs: u64, nanos: u32) -> (m: u128)
    ensures
        m == millis_of(secs as int, nanos as int),
{
    assert(secs * 1000 <= 18446744073709551615 * 1000) by (nonlinear_arith)
        requires
            secs <= 18446744073709551615,
    ;
    (secs as u128) * 1000 + (nanos / 1_000_000) as u128
}

/// Milliseconds since the Unix epoch by the system clock: the whole
/// milliseconds of the time elapsed since the epoch. `None` comes back when
/// the clock reads a time before the epoch.
pub fn get_epoch_ms() -> (r: Option<u128>)
    ensures
        r matches Some(m) ==> exists|s: u64, n: u32| n < 1_000_000_000 && m == #[trigger] millis_of(s as int, n as int),
{
    let now = system_now();
    match since_unix_epoch(&now) {
        Ok(d) => {
            let s = duration_secs(&d);
            let n = duration_subsec_nanos(&d);
            let m = millis_from_parts(s, n);
            assert(n < 1_000_000_000 && m == millis_of(s as int, n as int));
            Some(m)
        },
        Err(_) => None,
    }
}

/// The count is the elapsed nanoseconds divided by one million, rounded down:
/// whole milliseconds, never rounded up.
pub proof fn lemma_millis_whole(secs: int, nanos: int)
    requires
        secs >= 0,
        0 <= nanos < 1_000_000_000,
    ensures
        millis_of(secs, nanos) == nanos_of(secs, nanos) / 1_000_000,
        millis_of(secs, nanos) * 1_000_000 <= nanos_of(secs, nanos) < (millis_of(secs, nanos) + 1) * 1_000_000,
{
    let q = nanos / 1_000_000;
    let r = nanos % 1_000_000;
    assert(nanos == q * 1_000_000 + r && 0 <= r < 1_000_000);
    assert(nanos_of(secs, nanos) == (secs * 1000 + q) * 1_000_000 + r) by (nonlinear_arith)
        requires
            nanos == q * 1_000_000 + r,
    ;
    vstd::arithmetic::div_mod::lemma_fundamental_div_mod_converse(
        nanos_of(secs, nanos),
        1_000_000,
        secs * 1000 + q,
        r,
    );
}

/// A later clock reading never gives a smaller count, and the difference of
/// two counts is the whole milliseconds between the readings, or one more.
pub proof fn lemma_millis_interval(s1: int, n1: int, s2: int, n2: int)
    requires
        s1 >= 0,
        s2 >= 0,
        0 <= n1 < 1_000_000_000,
        0 <= n2 < 1_000_000_000,
        nanos_of(s1, n1) <= nanos_of(s2, n2),
    ensures
        millis_of(s1, n1) <= millis_of(s2, n2),
        ({
            let d = (nanos_of(s2, n2) - nanos_of(s1, n1)) / 1_000_000;
            millis_of(s2, n2) - millis_of(s1, n1) == d || millis_of(s2, n2) - millis_of(s1, n1) == d + 1
        }),
{
    lemma_millis_whole(s1, n1);
    lemma_millis_whole(s2, n2);
    let a = nanos_of(s1, n1);
    let b = nanos_of(s2, n2);
    let m1 = millis_of(s1, n1);
    let m2 = millis_of(s2, n2);
    let d = (b - a) / 1_000_000;
    assert(d * 1_000_000 <= b - a < (d + 1) * 1_000_000) by {
        vstd::arithmetic::div_mod::lemma_fundamental_div_mod(b - a, 1_000_000);
    }
    assert(m1 <= m2 && (m2 - m1 == d || m2 - m1 == d + 1)) by (nonlinear_arith)
        requires
            m1 * 1_000_000 <= a < (m1 + 1) * 1_000_000,
            m2 * 1_000_000 <= b < (m2 + 1) * 1_000_000,
            d * 1_000_000 <= b - a < (d + 1) * 1_000_000,
            a <= b,
    ;
}

} // verus!
