//! Human-readable sizes and times.

use vstd::prelude::*;
use crate::text::{chars_of, decimal, decimal_chars, push_char, push_chars, push_str};

verus! {

broadcast use vstd::string::group_string_axioms;

/// Repeated halving of `b` until it is below 2^53: the power of two
/// divided by and the quotient left.
pub open spec fn halve(b: nat) -> (nat, nat)
    decreases b,
{
    if b < 0x20000000000000 {
        (1, b)
    } else {
        let (s, q) = halve(b / 2);
        (2 * s, q)
    }
}

/// `n / d` rounded to the nearest integer, ties to even.
pub open spec fn round_half_even(n: nat, d: nat) -> nat {
    let q = n / d;
    let r = n % d;
    if 2 * r > d || (2 * r == d && q % 2 == 1) {
        q + 1
    } else {
        q
    }
}

/// The value of `b as f64`: `b` rounded to 53 significant bits, ties to
/// even.
pub open spec fn f64_value(b: nat) -> nat {
    let (s, q) = halve(b);
    round_half_even(b, s) * s
}

/// The number of tenths that `{:.1}` prints for `b as f64 / unit`.
pub open spec fn tenths(b: nat, unit: nat) -> nat {
    round_half_even(f64_value(b) * 10, unit)
}

/// `i.d unit` with `sep` for the decimal point, for a count of tenths.
pub open spec fn fmt_tenths(t: nat, sep: char, unit: Seq<char>) -> Seq<char> {
    decimal(t / 10) + seq![sep, crate::text::digit_char(t % 10), ' '] + unit
}

/// `format_bytes`: bytes below 1 KiB as a count, larger sizes in KiB,
/// MiB or GiB with one decimal.
pub open spec fn spec_format_bytes(b: nat, sep: char) -> Seq<char> {
    if b >= 1073741824 {
        fmt_tenths(tenths(b, 1073741824), sep, "GiB"@)
    } else if b >= 1048576 {
        fmt_tenths(tenths(b, 1048576), sep, "MiB"@)
    } else if b >= 1024 {
        fmt_tenths(tenths(b, 1024), sep, "KiB"@)
    } else {
        decimal(b) + seq![' ', 'B']
    }
}

fn round_half_even_exec(n: u128, d: u128) -> (r: u128)
    requires
        d > 0,
        n < 0x10000000000000000000000000000000,
    ensures
        r == round_half_even(n as nat, d as nat),
{
    let q = n / d;
    let r = n % d;
    if (r > d - r) || (r == d - r && q % 2 == 1) {
        q + 1
    } else {
        q
    }
}

fn f64_value_exec(b: u64) -> (f: u128)
    ensures
        f == f64_value(b as nat),
        f <= 0x10000000000001000,
{
    let mut x: u64 = b;
    let mut s: u128 = 1;
    while x >= 0x20000000000000
        invariant
            halve(b as nat) == ((s * halve(x as nat).0) as nat, halve(x as nat).1),
            1 <= s <= 0x1000,
            x as nat * s <= b,
            b < (x as nat + 1) * s,
            x < 0x20000000000000 ==> halve(x as nat) == (1nat, x as nat),
            x as nat * s < 0x10000000000000000,
        decreases x,
    {
        let ghost x0 = x as nat;
        let ghost s0 = s as nat;
        assert(halve(x0) == ((2 * halve(x0 / 2).0) as nat, halve(x0 / 2).1));
        assert(x0 < 0x10000000000000000);
        assert(s0 < 0x800) by (nonlinear_arith)
            requires
                x0 * s0 < 0x10000000000000000,
                x0 >= 0x20000000000000,
        ;
        assert((x0 / 2) * (2 * s0) <= x0 * s0) by (nonlinear_arith)
            requires
                s0 >= 1,
        ;
        assert(x0 * s0 < (x0 / 2 + 1) * (2 * s0)) by (nonlinear_arith)
            requires
                s0 >= 1,
        ;
        x = x / 2;
        s = s * 2;
        assert((s * halve(x as nat).0) as nat == (s0 * halve(x0).0) as nat) by (nonlinear_arith)
            requires
                s == 2 * s0,
                halve(x0).0 == 2 * halve(x as nat).0,
        ;
        assert(b < (x as nat + 1) * s) by (nonlinear_arith)
            requires
                b < (x0 + 1) * s0,
                x0 * s0 < (x0 / 2 + 1) * (2 * s0),
                x == x0 / 2,
                s == 2 * s0,
                b >= x0 * s0,
        {
            assert((x0 + 1) * s0 == x0 * s0 + s0);
            assert((x0 / 2 + 1) * (2 * s0) == (x0 / 2) * (2 * s0) + 2 * s0);
            assert(x0 <= 2 * (x0 / 2) + 1);
            assert(x0 * s0 <= (2 * (x0 / 2) + 1) * s0);
        }
    }
    let ghost bb = b as nat;
    let ghost sn = s as nat;
    assert(halve(bb) == (sn, x as nat));
    assert(bb / sn == x as nat && bb % sn == bb - x as nat * sn) by (nonlinear_arith)
        requires
            x as nat * sn <= bb,
            bb < (x as nat + 1) * sn,
            sn >= 1,
    {
        vstd::arithmetic::div_mod::lemma_fundamental_div_mod(bb as int, sn as int);
        let q = bb / sn;
        if q < x as nat {
            assert(q * sn <= (x as nat - 1) * sn);
        }
        if q > x as nat {
            assert(q * sn >= (x as nat + 1) * sn);
        }
    }
    let q = round_half_even_exec(b as u128, s);
    assert(q <= x as nat + 1);
    assert(q * s <= (x as nat + 1) * s) by (nonlinear_arith)
        requires
            q <= x as nat + 1,
            s >= 1,
    ;
    assert((x as nat + 1) * s <= 0x10000000000001000) by (nonlinear_arith)
        requires
            x as nat * s < 0x10000000000000000,
            s <= 0x1000,
    {
        assert((x as nat + 1) * s == x as nat * s + s);
    }
    q * s
}

fn push_tenths(out: &mut String, t: u128, sep: char)
    requires
        t < 0x8000000000000000,
    ensures
        final(out)@ == old(out)@ + decimal((t / 10) as nat) + seq![sep, crate::text::digit_char((t % 10) as nat)],
{
    let int_part = (t / 10) as u64;
    let d = (t % 10) as u64;
    push_chars(out, &decimal_chars(int_part));
    push_char(out, sep);
    let dc = decimal_chars(d);
    assert(dc@ == seq![crate::text::digit_char(d as nat)]);
    push_chars(out, &dc);
}

/// A byte count for people: below 1 KiB the count itself, else KiB, MiB
/// or GiB with one decimal, written with `sep` as the decimal point (the
/// locale's separator).
pub fn format_bytes(b: u64, sep: char) -> (s: String)
    ensures
        s@ == spec_format_bytes(b as nat, sep),
{
    let mut out = String::new();
    if b >= 1024 {
        let (unit, name): (u128, &str) = if b >= 1073741824 {
            (1073741824, "GiB")
        } else if b >= 1048576 {
            (1048576, "MiB")
        } else {
            (1024, "KiB")
        };
        let f = f64_value_exec(b);
        let t = round_half_even_exec(f * 10, unit);
        assert(t as int <= (f as int * 10) / (unit as int) + 1);
        assert((f as int * 10) / (unit as int) <= (f as int * 10) / 1024) by (nonlinear_arith)
            requires
                unit >= 1024,
                f >= 0,
        ;
        push_tenths(&mut out, t, sep);
        push_char(&mut out, ' ');
        push_str(&mut out, name);
    } else {
        push_chars(&mut out, &decimal_chars(b));
        push_char(&mut out, ' ');
        push_char(&mut out, 'B');
    }
    out
}

/// Whole hours in a duration, rounded half up.
pub open spec fn rounded_hours(secs: nat, nanos: nat) -> nat {
    (secs * 1_000_000_000 + nanos + 1_800_000_000_000) / 3_600_000_000_000
}

/// `human_duration`: seconds, minutes, hours, days, weeks, months or
/// years, whichever reads best.
pub open spec fn spec_human_duration(secs: nat, nanos: nat) -> Seq<char> {
    let minutes = secs / 60;
    let hours = rounded_hours(secs, nanos);
    if secs < 1 {
        "Less than a second"@
    } else if secs == 1 {
        "1 second"@
    } else if secs < 60 {
        decimal(secs) + " seconds"@
    } else if minutes == 1 {
        "About a minute"@
    } else if minutes < 60 {
        decimal(minutes) + " minutes"@
    } else if hours == 1 {
        "About an hour"@
    } else if hours < 48 {
        decimal(hours) + " hours"@
    } else if hours < 24 * 7 * 2 {
        decimal(hours / 24) + " days"@
    } else if hours < 24 * 30 * 2 {
        decimal(hours / 24 / 7) + " weeks"@
    } else if hours < 24 * 365 * 2 {
        decimal(hours / 24 / 30) + " months"@
    } else {
        decimal(secs / 3600 / 24 / 365) + " years"@
    }
}

fn number_then(n: u64, unit: &str) -> (s: String)
    ensures
        s@ == decimal(n as nat) + unit@,
{
    let mut out = String::new();
    push_chars(&mut out, &decimal_chars(n));
    push_str(&mut out, unit);
    out
}

fn text(s: &str) -> (r: String)
    ensures
        r@ == s@,
{
    let mut out = String::new();
    push_str(&mut out, s);
    out
}

/// A duration of `secs` seconds and `nanos` nanoseconds for people.
pub fn human_duration(secs: u64, nanos: u32) -> (s: String)
    requires
        nanos < 1_000_000_000,
    ensures
        s@ == spec_human_duration(secs as nat, nanos as nat),
{
    if secs < 1 {
        return text("Less than a second");
    } else if secs == 1 {
        return text("1 second");
    } else if secs < 60 {
        return number_then(secs, " seconds");
    }
    let minutes = secs / 60;
    if minutes == 1 {
        return text("About a minute");
    } else if minutes < 60 {
        return number_then(minutes, " minutes");
    }
    let total: u128 = secs as u128 * 1_000_000_000 + nanos as u128 + 1_800_000_000_000;
    let hours_wide: u128 = total / 3_600_000_000_000;
    assert(hours_wide <= secs) by (nonlinear_arith)
        requires
            hours_wide == (secs as int * 1_000_000_000 + nanos as int + 1_800_000_000_000) / 3_600_000_000_000,
            secs >= 3600,
            nanos < 1_000_000_000,
    ;
    let hours = hours_wide as u64;
    if hours == 1 {
        text("About an hour")
    } else if hours < 48 {
        number_then(hours, " hours")
    } else if hours < 24 * 7 * 2 {
        number_then(hours / 24, " days")
    } else if hours < 24 * 30 * 2 {
        number_then(hours / 24 / 7, " weeks")
    } else if hours < 24 * 365 * 2 {
        number_then(hours / 24 / 30, " months")
    } else {
        number_then(secs / 3600 / 24 / 365, " years")
    }
}

/// How a moment relates to now: `ago` for a past one, `from now` for a
/// future one, and `Forever` for one more than twenty years ahead.
pub open spec fn spec_format_time_delta(future: bool, secs: nat, nanos: nat) -> Seq<char> {
    if !future {
        spec_human_duration(secs, nanos) + " ago"@
    } else if secs / (60 * 60 * 24 * 365) > 20 {
        "Forever"@
    } else {
        spec_human_duration(secs, nanos) + " from now"@
    }
}

/// Describes a moment that lies `secs` seconds and `nanos` nanoseconds in
/// the past, or in the future when `future` holds.
pub fn format_time_delta(future: bool, secs: u64, nanos: u32) -> (s: String)
    requires
        nanos < 1_000_000_000,
    ensures
        s@ == spec_format_time_delta(future, secs as nat, nanos as nat),
{
    if !future {
        let mut out = human_duration(secs, nanos);
        push_str(&mut out, " ago");
        out
    } else if secs / (60 * 60 * 24 * 365) > 20 {
        text("Forever")
    } else {
        let mut out = human_duration(secs, nanos);
        push_str(&mut out, " from now");
        out
    }
}

/// `std::time::SystemTime`.
#[verifier::external_type_specification]
#[verifier::external_body]
pub struct ExSystemTime(std::time::SystemTime);

/// `SystemTime::now`: the current time; nothing is known of its value.
#[verifier::external_body]
fn system_now() -> std::time::SystemTime {
    std::time::SystemTime::now()
}

/// `SystemTime::duration_since` of `now` and `t`: whether `t` lies after
/// `now`, and the distance between them in seconds and nanoseconds (the
/// nanoseconds below one second).
#[verifier::external_body]
fn distance(now: &std::time::SystemTime, t: &std::time::SystemTime) -> (r: (bool, u64, u32))
    ensures
        r.2 < 1_000_000_000,
{
    match now.duration_since(*t) {
        Ok(d) => (false, d.as_secs(), d.subsec_nanos()),
        Err(e) => (true, e.duration().as_secs(), e.duration().subsec_nanos()),
    }
}

/// Describes `t` relative to the current time, or gives `zero_value` when
/// there is no time.
pub fn format_time(t: Option<std::time::SystemTime>, zero_value: &str) -> (s: String)
    ensures
        t.is_none() ==> s@ == zero_value@,
        t.is_some() ==> exists|future: bool, secs: nat, nanos: nat|
            nanos < 1_000_000_000 && s@ == spec_format_time_delta(future, secs, nanos),
{
    match t {
        None => text(zero_value),
        Some(ts) => {
            let now = system_now();
            let (future, secs, nanos) = distance(&now, &ts);
            let s = format_time_delta(future, secs, nanos);
            assert(s@ == spec_format_time_delta(future, secs as nat, nanos as nat));
            s
        },
    }
}


proof fn lemma_hours_mean_an_hour_passed(secs: nat, nanos: nat)
    requires
        nanos < 1_000_000_000,
        (secs * 1_000_000_000 + nanos + 1_800_000_000_000) / 3_600_000_000_000 >= 2,
    ensures
        secs >= 3600,
{
    let t = secs * 1_000_000_000 + nanos + 1_800_000_000_000;
    assert(t >= 7_200_000_000_000);
    assert(secs * 1_000_000_000 >= 5_399_000_000_001);
    assert(secs >= 3600) by (nonlinear_arith)
        requires
            secs * 1_000_000_000 >= 5_399_000_000_001,
    ;
}

/// How a duration reads, by its size: under a second, one second, whole
/// seconds under a minute, about a minute, whole minutes under an hour,
/// about an hour, then by the hours rounded half up `h`: whole hours below
/// two days, whole days from two days to fourteen, whole weeks from
/// fourteen days to sixty, whole months (of thirty days) from sixty days to
/// two years, and whole years (of 365 days) after.
pub proof fn law_duration_units(secs: nat, nanos: nat)
    requires
        nanos < 1_000_000_000,
    ensures
        ({
            let h = (secs * 1_000_000_000 + nanos + 1_800_000_000_000) / 3_600_000_000_000;
            let t = spec_human_duration(secs, nanos);
            &&& secs == 0 ==> t == "Less than a second"@
            &&& secs == 1 ==> t == "1 second"@
            &&& 2 <= secs < 60 ==> t == decimal(secs) + " seconds"@
            &&& 60 <= secs < 120 ==> t == "About a minute"@
            &&& 120 <= secs < 3600 ==> t == decimal(secs / 60) + " minutes"@
            &&& secs >= 3600 && h < 2 ==> t == "About an hour"@
            &&& 2 <= h < 48 ==> t == decimal(h) + " hours"@
            &&& 48 <= h < 336 ==> t == decimal(h / 24) + " days"@
            &&& 336 <= h < 1440 ==> t == decimal(h / 168) + " weeks"@
            &&& 1440 <= h < 17520 ==> t == decimal(h / 720) + " months"@
            &&& h >= 17520 ==> t == decimal(secs / 31_536_000) + " years"@
        }),
{
    let h = (secs * 1_000_000_000 + nanos + 1_800_000_000_000) / 3_600_000_000_000;
    if h >= 2 {
        lemma_hours_mean_an_hour_passed(secs, nanos);
        assert(secs / 60 >= 60);
        assert(h / 24 / 7 == h / 168);
        assert(h / 24 / 30 == h / 720);
        assert(secs / 3600 / 24 / 365 == secs / 31_536_000);
    }
    if secs >= 3600 {
        assert(h >= 1) by (nonlinear_arith)
            requires
                secs >= 3600,
                h == (secs * 1_000_000_000 + nanos + 1_800_000_000_000) / 3_600_000_000_000,
        ;
    }
}

} // verus!
