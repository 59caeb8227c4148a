//! Quantities: sizes in bytes and points in time.

use vstd::arithmetic::power2::pow2;
use vstd::prelude::*;

use crate::text::{dec, dec_string, digit, opt_view};

verus! {

broadcast use vstd::string::group_string_axioms;

/// A size in bytes.
#[derive(Debug, Clone, Copy, PartialEq, Eq, PartialOrd, Ord, Hash, Structural)]
pub struct ByteSize(pub u64);

/// How many of the steps of 1024 from bytes to exbibytes `n` is worth.
pub open spec fn unit_step(n: nat) -> nat
    decreases n,
{
    if n < 1024 {
        0
    } else {
        1 + unit_step(n / 1024)
    }
}

/// 1024 to the power of `k`.
pub open spec fn pow1024(k: nat) -> nat
    decreases k,
{
    if k == 0 {
        1
    } else {
        1024 * pow1024((k - 1) as nat)
    }
}

/// The IEC unit of 1024 to the power of `k` bytes.
pub open spec fn unit_name(k: nat) -> Seq<char> {
    if k == 0 {
        "B"@
    } else if k == 1 {
        "KiB"@
    } else if k == 2 {
        "MiB"@
    } else if k == 3 {
        "GiB"@
    } else if k == 4 {
        "TiB"@
    } else if k == 5 {
        "PiB"@
    } else {
        "EiB"@
    }
}

/// The integer nearest to `n / d`; of two equally near, the even one.
pub open spec fn round_half_even(n: nat, d: nat) -> nat {
    let q = n / d;
    let r = n % d;
    if 2 * r < d || (2 * r == d && q % 2 == 0) {
        q
    } else {
        q + 1
    }
}

/// `h` hundredths with two decimals.
pub open spec fn hundredths(h: nat) -> Seq<char> {
    dec(h / 100) + "."@ + seq![digit(h % 100 / 10), digit(h % 10)]
}

/// A size for people: whole bytes, or two decimals of the largest binary unit that
/// the size reaches.
pub open spec fn size_text(n: nat) -> Seq<char> {
    let k = unit_step(n);
    if k == 0 {
        dec(n) + " B"@
    } else {
        hundredths(round_half_even(n * 100, pow1024(k))) + " "@ + unit_name(k)
    }
}

/// Writes `h` hundredths with two decimals.
pub fn hundredths_string(h: u64) -> (r: String)
    ensures
        r@ == hundredths(h as nat),
{
    let mut r = dec_string(h / 100);
    r.append(".");
    r.append(dec_string(h % 100 / 10).as_str());
    r.append(dec_string(h % 10).as_str());
    assert(dec((h % 100 / 10) as nat) =~= seq![digit((h % 100 / 10) as nat)]);
    assert(dec((h % 10) as nat) =~= seq![digit((h % 10) as nat)]);
    assert(r@ =~= hundredths(h as nat));
    r
}

impl ByteSize {
    /// So many bytes.
    pub fn new(bytes: u64) -> (r: Self)
        ensures
            r.0 == bytes,
    {
        ByteSize(bytes)
    }

    /// The size for people.
    pub fn to_string(&self) -> (r: String)
        ensures
            r@ == size_text(self.0 as nat),
    {
        let n: u64 = self.0;
        let mut k: u64 = 0;
        let mut unit: u64 = 1;
        let mut rest: u64 = n;
        assert(pow1024(0) == 1);
        while rest >= 1024
            invariant
                k <= 6,
                unit as nat == pow1024(k as nat),
                rest == n / unit,
                unit > 0,
                unit <= 0x1000_0000_0000_0000,
                k < 6 ==> unit <= 0x4_0000_0000_0000,
                k == 6 ==> rest < 1024,
                unit_step(n as nat) == k + unit_step(rest as nat),
            decreases rest,
        {
            proof {
                reveal_with_fuel(pow1024, 8);
                assert(k < 6);
                vstd::arithmetic::div_mod::lemma_div_denominator(n as int, unit as int, 1024);
            }
            k = k + 1;
            unit = unit * 1024;
            rest = rest / 1024;
            proof {
                assert(unit == pow1024(k as nat));
                if k == 6 {
                    assert(pow1024(6) == 0x1000_0000_0000_0000);
                    assert(n / 0x1000_0000_0000_0000 < 16) by (bit_vector)
                        requires
                            n <= 0xffff_ffff_ffff_ffffu64,
                    ;
                }
            }
        }
        let mut r: String;
        if k == 0 {
            r = dec_string(n);
            r.append(" B");
        } else {
            let wide: u128 = n as u128 * 100;
            let d: u128 = unit as u128;
            let q: u128 = wide / d;
            let m: u128 = wide % d;
            let h: u128 = if 2 * m < d || (2 * m == d && q % 2 == 0) {
                q
            } else {
                q + 1
            };
            assert(q <= wide / 1024) by (nonlinear_arith)
                requires
                    q == wide / d,
                    d >= 1024,
            ;
            r = hundredths_string(h as u64);
            r.append(" ");
            r.append(match k {
                1 => "KiB",
                2 => "MiB",
                3 => "GiB",
                4 => "TiB",
                5 => "PiB",
                _ => "EiB",
            });
            assert(r@ =~= size_text(n as nat));
        }
        r
    }
}

/// A point in time in seconds since the Unix epoch. Zero stands for a time that
/// is not known.
#[derive(Debug, Clone, Copy, PartialEq, Eq, PartialOrd, Ord, Hash, Structural)]
pub struct UnixTime(pub i64);

/// Whether `jiff` has a timestamp for so many seconds since the epoch.
pub open spec fn is_timestamp(seconds: i64) -> bool {
    -377705023201 <= seconds <= 253402207200
}

/// A time zone.
#[verifier::external_type_specification]
#[verifier::external_body]
pub struct ExTimeZone(jiff::tz::TimeZone);

/// Calls `jiff::tz::TimeZone::system`. Nothing is claimed of the zone: it is that
/// of the machine.
#[verifier::external_body]
fn system_zone() -> (r: jiff::tz::TimeZone)
{
    jiff::tz::TimeZone::system()
}

/// What `jiff::Zoned::strftime` makes of a format and of so many seconds since the
/// epoch in a time zone.
pub uninterp spec fn time_text(
    seconds: i64,
    zone: jiff::tz::TimeZone,
    format: Seq<char>,
) -> Seq<char>;

/// Each `%` of a format begins one of the fields that a calendar always has: the day
/// of the week, the day, the month, the year, the hour, the half of the day, the
/// minute, the second or the abbreviation of the time zone.
pub open spec fn is_calendar_format(format: Seq<char>) -> bool {
    forall|i: int|
        0 <= i < format.len() && #[trigger] format[i] == '%' ==> i + 1 < format.len()
            && "adbYIpMSZ"@.contains(format[i + 1])
}

/// Calls `jiff::Timestamp::from_second`, moves the result to `zone` and formats it
/// with `jiff::Zoned::strftime`, which fails on fields that it does not know. There
/// is a text for exactly those seconds that `from_second` takes, and it is a function
/// of the seconds, the zone and the format.
#[verifier::external_body]
fn time_in(seconds: i64, zone: jiff::tz::TimeZone, format: &str) -> (r: Option<String>)
    requires
        is_calendar_format(format@),
    ensures
        r is Some <==> is_timestamp(seconds),
        r matches Some(t) ==> t@ == time_text(seconds, zone, format@),
{
    let at = jiff::Timestamp::from_second(seconds).ok()?;
    Some(at.to_zoned(zone).strftime(format).to_string())
}

/// How a point in time is written.
pub open spec fn time_format() -> Seq<char> {
    "%a %d %b %Y %I:%M:%S %p %Z"@
}

proof fn lemma_time_format()
    ensures
        is_calendar_format(time_format()),
{
    reveal_strlit("%a %d %b %Y %I:%M:%S %p %Z");
    reveal_strlit("adbYIpMSZ");
    let f = time_format();
    let known = "adbYIpMSZ"@;
    assert(known[0] == 'a' && known[1] == 'd' && known[2] == 'b' && known[3] == 'Y' && known[4]
        == 'I' && known[5] == 'p' && known[6] == 'M' && known[7] == 'S' && known[8] == 'Z');
    assert forall|i: int| 0 <= i < f.len() && #[trigger] f[i] == '%' implies i + 1 < f.len()
        && known.contains(f[i + 1]) by {
        assert(i == 0 || i == 3 || i == 6 || i == 9 || i == 12 || i == 15 || i == 18 || i == 21
            || i == 24);
    }
}

impl UnixTime {
    /// So many seconds since the epoch.
    pub fn new(seconds: i64) -> (r: Self)
        ensures
            r.0 == seconds,
    {
        UnixTime(seconds)
    }

    /// `text` is the time in words of some time zone; there is none where the time is
    /// not known, or so far away that no calendar names it.
    pub open spec fn reads(self, text: Option<Seq<char>>) -> bool {
        &&& text is Some <==> self.0 != 0 && is_timestamp(self.0)
        &&& text matches Some(t) ==> exists|zone: jiff::tz::TimeZone|
            t == #[trigger] time_text(self.0, zone, time_format())
    }

    /// The time in words of the local time zone; nothing where it is not known, or
    /// so far away that no calendar names it.
    pub fn render(self) -> (r: Option<String>)
        ensures
            self.reads(opt_view(r)),
    {
        if self.0 == 0 {
            None
        } else {
            proof {
                lemma_time_format();
            }
            let zone = system_zone();
            let ghost here = zone;
            let r = time_in(self.0, zone, "%a %d %b %Y %I:%M:%S %p %Z");
            assert(r matches Some(t) ==> t@ == time_text(self.0, here, time_format()));
            r
        }
    }
}

/// How many of the lowest bits of `n` a double does not hold.
pub open spec fn lost_bits(n: nat) -> nat
    decreases n,
{
    if n < 0x20_0000_0000_0000 {
        0
    } else {
        1 + lost_bits(n / 2)
    }
}

/// The double that is nearest to `n`, which is an integer.
pub open spec fn as_double(n: nat) -> nat {
    let j = lost_bits(n);
    round_half_even(n, pow2(j)) * pow2(j)
}

/// The largest `k` up to a given one for which `n / d` times `2^k` has no more than
/// 53 bits before the point.
pub open spec fn double_scale(n: nat, d: nat, k: nat) -> nat
    decreases k,
{
    if k == 0 || n * pow2(k) < 0x20_0000_0000_0000 * d {
        k
    } else {
        double_scale(n, d, (k - 1) as nat)
    }
}

/// The quotient `n / d` of two doubles, of which the first is no less than the
/// second, in parts of `1 / parts`: the quotient is rounded to the nearest double,
/// and that to the nearest part.
pub open spec fn quotient_parts(n: nat, d: nat, parts: nat) -> nat {
    let p = pow2(double_scale(n, d, 52));
    round_half_even(round_half_even(n * p, d) * parts, p)
}

/// `t` tenths with one decimal.
pub open spec fn tenths(t: nat) -> Seq<char> {
    dec(t / 10) + "."@ + seq![digit(t % 10)]
}

/// A duration in microseconds for people: in seconds with two decimals, in
/// milliseconds with one, or in microseconds. The decimals are those of the
/// quotient as a double.
pub open spec fn micros_text(us: nat) -> Seq<char> {
    if us >= 1_000_000 {
        hundredths(quotient_parts(as_double(us), 1_000_000, 100)) + "s"@
    } else if us >= 1_000 {
        tenths(quotient_parts(us, 1_000, 10)) + "ms"@
    } else {
        dec(us) + "µs"@
    }
}

fn nearest(n: u128, d: u128) -> (r: u128)
    requires
        0 < d <= 0x1_0000_0000_0000_0000,
    ensures
        r == round_half_even(n as nat, d as nat),
        r <= n + 1,
{
    let q: u128 = n / d;
    let m: u128 = n % d;
    assert(q <= n) by (nonlinear_arith)
        requires
            q == n / d,
            d > 0,
    ;
    if 2 * m < d || (2 * m == d && q % 2 == 0) {
        q
    } else {
        assert(q < n) by (nonlinear_arith)
            requires
                q == n / d,
                m == n % d,
                2 * m >= d,
                d > 0,
        ;
        q + 1
    }
}

fn double_of(us: u64) -> (r: u128)
    ensures
        r == as_double(us as nat),
        r <= 0x1_0000_0000_0000_0000,
{
    let mut p: u128 = 1;
    let mut rest: u64 = us;
    let ghost mut j: nat = 0;
    proof {
        vstd::arithmetic::power2::lemma2_to64();
    }
    while rest >= 0x20_0000_0000_0000
        invariant
            p == pow2(j),
            rest as int == us as int / p as int,
            lost_bits(us as nat) == j + lost_bits(rest as nat),
            j <= 11,
            p <= 2048,
            p > 0,
            j == 11 ==> rest < 0x20_0000_0000_0000,
            j < 11 ==> p <= 1024,
        decreases rest,
    {
        proof {
            vstd::arithmetic::power2::lemma_pow2_unfold(j + 1);
            vstd::arithmetic::div_mod::lemma_div_denominator(us as int, p as int, 2);
            vstd::arithmetic::power2::lemma2_to64();
            j = j + 1;
            assert(j == 11 ==> pow2(j) == 2048);
            assert(j < 11 ==> pow2(j) <= 1024) by {
                if j < 11 {
                    vstd::arithmetic::power2::lemma2_to64();
                }
            }
            assert(us / 2048 < 0x20_0000_0000_0000) by (bit_vector)
                requires
                    us <= 0xffff_ffff_ffff_ffffu64,
            ;
        }
        p = p * 2;
        rest = rest / 2;
    }
    let q = nearest(us as u128, p);
    proof {
        assert(lost_bits(rest as nat) == 0);
        let n = us as int;
        let d = p as int;
        let qi = q as int;
        assert(qi == n / d || qi == n / d + 1);
        assert(qi <= 0x20_0000_0000_0000);
        assert(qi * d <= 0x20_0000_0000_0000 * 2048) by (nonlinear_arith)
            requires
                0 <= qi <= 0x20_0000_0000_0000,
                0 < d <= 2048,
        ;
    }
    q * p
}

fn parts_of(n: u128, d: u128, parts: u128) -> (r: u128)
    requires
        n <= 0x1_0000_0000_0000_0000,
        n < 0x20_0000_0000_0000 * d,
        0 < d <= 1_000_000,
        0 < parts <= 100,
    ensures
        r == quotient_parts(n as nat, d as nat, parts as nat),
        r <= 1_000_000_000_000_000_000,
{
    let mut k: u64 = 52;
    let mut p: u128 = 0x10_0000_0000_0000;
    proof {
        vstd::arithmetic::power2::lemma2_to64_rest();
    }
    assert(n * p <= 0x1_0000_0000_0000_0000 * 0x10_0000_0000_0000) by (nonlinear_arith)
        requires
            n <= 0x1_0000_0000_0000_0000,
            p == 0x10_0000_0000_0000,
    ;
    while k > 0 && n * p >= 0x20_0000_0000_0000 * d
        invariant
            k <= 52,
            p == pow2(k as nat),
            0 < p <= 0x10_0000_0000_0000,
            0 < d <= 1_000_000,
            n < 0x20_0000_0000_0000 * d,
            n * p <= 0x1_0000_0000_0000_0000 * 0x10_0000_0000_0000,
            double_scale(n as nat, d as nat, 52) == double_scale(n as nat, d as nat, k as nat),
        decreases k,
    {
        proof {
            vstd::arithmetic::power2::lemma_pow2_unfold(k as nat);
            let h = pow2((k - 1) as nat);
            assert(p == 2 * h);
            vstd::arithmetic::power2::lemma_pow2_pos((k - 1) as nat);
            assert(n * h <= n * p) by (nonlinear_arith)
                requires
                    h <= p,
                    n >= 0,
            ;
        }
        p = p / 2;
        k = k - 1;
    }
    let ghost x: int = n * p;
    proof {
        if k == 0 {
            vstd::arithmetic::power2::lemma2_to64();
            assert(x == n) by (nonlinear_arith)
                requires
                    x == n * p,
                    p == 1,
            ;
        }
        assert(x < 0x20_0000_0000_0000 * d);
        assert(x / (d as int) <= 0x20_0000_0000_0000) by (nonlinear_arith)
            requires
                0 <= x < 0x20_0000_0000_0000 * d,
                d > 0,
        ;
    }
    let m = nearest(n * p, d);
    assert(m as int <= x / (d as int) + 1);
    assert(m * parts <= (0x20_0000_0000_0000 + 1) * 100) by (nonlinear_arith)
        requires
            m <= 0x20_0000_0000_0000 + 1,
            0 < parts <= 100,
    ;
    nearest(m * parts, p)
}

/// A duration in microseconds for people.
pub fn micros_string(us: u64) -> (r: String)
    ensures
        r@ == micros_text(us as nat),
{
    let mut r: String;
    if us >= 1_000_000 {
        r = hundredths_string(parts_of(double_of(us), 1_000_000, 100) as u64);
        r.append("s");
    } else if us >= 1_000 {
        let t: u64 = parts_of(us as u128, 1_000, 10) as u64;
        r = dec_string(t / 10);
        r.append(".");
        r.append(dec_string(t % 10).as_str());
        r.append("ms");
        assert(dec((t % 10) as nat) =~= seq![digit((t % 10) as nat)]);
    } else {
        r = dec_string(us);
        r.append("µs");
    }
    assert(r@ =~= micros_text(us as nat));
    r
}

} // verus!
