//! Size, modification-time and permission formatting, done with integers
//! only.

use vstd::prelude::*;
use crate::text::{digit, digit_char, decimal, push_char, push_decimal, push_padded, push_str, zero_padded};
use crate::walker::FileTime;

verus! {

// ===== permissions =====

/// Bit `k` of `mode` is set.
pub open spec fn mode_bit(mode: u32, k: u32) -> bool {
    (mode >> k) & 1u32 == 1u32
}

/// The character shown for one permission bit: `c` when set, `-` otherwise.
pub open spec fn perm_char(mode: u32, k: u32, c: char) -> char {
    if mode_bit(mode, k) {
        c
    } else {
        '-'
    }
}

/// The nine-character `rwxrwxrwx` rendering of the low nine bits of `mode`
/// (owner, group, other).
pub open spec fn mode_text(mode: u32) -> Seq<char> {
    seq![
        perm_char(mode, 8, 'r'),
        perm_char(mode, 7, 'w'),
        perm_char(mode, 6, 'x'),
        perm_char(mode, 5, 'r'),
        perm_char(mode, 4, 'w'),
        perm_char(mode, 3, 'x'),
        perm_char(mode, 2, 'r'),
        perm_char(mode, 1, 'w'),
        perm_char(mode, 0, 'x'),
    ]
}

fn push_perm(s: &mut String, mode: u32, k: u32, c: char)
    requires
        k < 32,
    ensures
        final(s)@ == old(s)@.push(perm_char(mode, k, c)),
{
    if (mode >> k) & 1 == 1 {
        push_char(s, c);
    } else {
        push_char(s, '-');
    }
}

/// Renders the permission bits of a file mode as `rwxr-xr-x` style text.
/// Only the low nine bits are read; file-type bits are ignored.
pub fn format_mode(mode: u32) -> (s: String)
    ensures
        s@ == mode_text(mode),
{
    let mut s = String::new();
    push_perm(&mut s, mode, 8, 'r');
    push_perm(&mut s, mode, 7, 'w');
    push_perm(&mut s, mode, 6, 'x');
    push_perm(&mut s, mode, 5, 'r');
    push_perm(&mut s, mode, 4, 'w');
    push_perm(&mut s, mode, 3, 'x');
    push_perm(&mut s, mode, 2, 'r');
    push_perm(&mut s, mode, 1, 'w');
    push_perm(&mut s, mode, 0, 'x');
    assert(s@ =~= mode_text(mode));
    s
}

/// Only the low nine bits of a mode decide its rendering.
pub proof fn lemma_mode_text_low_bits(mode: u32)
    ensures
        mode_text(mode) == mode_text(mode & 0o777u32),
{
    assert(forall|k: u32|
        k < 9 ==> (((mode & 0o777u32) >> k) & 1u32 == (mode >> k) & 1u32)) by (bit_vector);
    assert(mode_text(mode) =~= mode_text(mode & 0o777u32));
}

/// The permission text reads owner, then group, then other: it has nine
/// characters, and the one at position `k` is `r`, `w` or `x` (as `k % 3`
/// is 0, 1 or 2) exactly when bit `8 - k` of the mode is set, and `-`
/// otherwise. So `0o750` reads `rwxr-x---`.
pub proof fn lemma_mode_text_reads_owner_group_other(mode: u32)
    ensures
        mode_text(mode).len() == 9,
        forall|k: int|
            0 <= k < 9 ==> #[trigger] mode_text(mode)[k] == (if (mode >> ((8 - k) as u32)) & 1u32
                == 1u32 {
                if k % 3 == 0 {
                    'r'
                } else if k % 3 == 1 {
                    'w'
                } else {
                    'x'
                }
            } else {
                '-'
            }),
{
    assert forall|k: int| 0 <= k < 9 implies #[trigger] mode_text(mode)[k] == (if (mode >> ((8
        - k) as u32)) & 1u32 == 1u32 {
        if k % 3 == 0 {
            'r'
        } else if k % 3 == 1 {
            'w'
        } else {
            'x'
        }
    } else {
        '-'
    }) by {
        if k == 0 {
        } else if k == 1 {
        } else if k == 2 {
        } else if k == 3 {
        } else if k == 4 {
        } else if k == 5 {
        } else if k == 6 {
        } else if k == 7 {
        } else {
        }
    }
}

// ===== sizes =====

/// `2` raised to `k`.
pub open spec fn pow2(k: nat) -> nat
    decreases k,
{
    if k == 0 {
        1
    } else {
        2 * pow2((k - 1) as nat)
    }
}

/// `1024` raised to `k`: the number of bytes in one unit of index `k`.
pub open spec fn unit_scale(k: nat) -> nat
    decreases k,
{
    if k == 0 {
        1
    } else {
        1024 * unit_scale((k - 1) as nat)
    }
}

/// `n / q` rounded to the nearest integer, halves going to the even
/// neighbour (the rounding of `f64` and of its decimal formatting).
pub open spec fn round_half_even(n: nat, q: nat) -> nat {
    let d = n / q;
    let r = n % q;
    if 2 * r > q || (2 * r == q && d % 2 == 1) {
        d + 1
    } else {
        d
    }
}

/// The smallest `e >= from` (and at most 11) with `b < 2^(53 + e)`: the
/// spacing between neighbouring `f64` values around a `u64` value `b` is
/// `2^e`.
pub open spec fn f64_gap_exp(b: nat, from: nat) -> nat
    decreases 11 - from,
{
    if from >= 11 || b < pow2(53 + from) {
        from
    } else {
        f64_gap_exp(b, from + 1)
    }
}

/// The exact value of `b as f64`: `b` rounded to a multiple of the `f64`
/// spacing around it, ties to even.
pub open spec fn as_f64_value(b: nat) -> nat {
    let g = pow2(f64_gap_exp(b, 0));
    round_half_even(b, g) * g
}

/// Starting at unit `k`, the unit reached by moving to the next larger unit
/// while the value is at least 1024 of the current one and a larger unit
/// (up to `P`, index 5) exists.
pub open spec fn size_unit_from(f: nat, k: nat) -> nat
    decreases 5 - k,
{
    if k < 5 && f >= unit_scale(k + 1) {
        size_unit_from(f, k + 1)
    } else {
        k
    }
}

/// The suffix of unit `k`: none for bytes, then K, M, G, T, P.
pub open spec fn unit_suffix(k: nat) -> Seq<char> {
    if k == 0 {
        seq![]
    } else if k == 1 {
        seq!['K']
    } else if k == 2 {
        seq!['M']
    } else if k == 3 {
        seq!['G']
    } else if k == 4 {
        seq!['T']
    } else {
        seq!['P']
    }
}

/// The human-readable size: the plain byte count below 1024; otherwise the
/// value in the largest unit that keeps it at least 1 (at most `P`), shown
/// with no decimals from 100 up and with one decimal below 100, rounded as
/// `f64` formatting rounds the exact value of `bytes as f64` divided by the
/// unit.
pub open spec fn size_text(bytes: u64) -> Seq<char> {
    if bytes < 1024 {
        decimal(bytes as nat)
    } else {
        let f = as_f64_value(bytes as nat);
        let k = size_unit_from(f, 0);
        let q = unit_scale(k);
        if f >= 100 * q {
            decimal(round_half_even(f, q)) + unit_suffix(k)
        } else {
            let t = round_half_even(10 * f, q);
            decimal(t / 10) + seq!['.', digit_char((t % 10) as int)] + unit_suffix(k)
        }
    }
}

/// Powers of two grow with the exponent.
proof fn lemma_pow2_mono(a: nat, b: nat)
    requires
        a <= b,
    ensures
        1 <= pow2(a) <= pow2(b),
    decreases b,
{
    if b > 0 {
        if a == b {
            lemma_pow2_mono((b - 1) as nat, (b - 1) as nat);
        } else {
            lemma_pow2_mono(a, (b - 1) as nat);
        }
    }
}

proof fn lemma_round_bounds(n: nat, q: nat)
    requires
        q > 0,
    ensures
        n / q <= round_half_even(n, q) <= n / q + 1,
        round_half_even(n, q) * q <= n + q,
{
    let d = n / q;
    let r = n % q;
    assert(n == d * q + r && 0 <= r < q) by (nonlinear_arith)
        requires
            q > 0,
            d == n / q,
            r == n % q,
    ;
    assert((d + 1) * q == d * q + q) by (nonlinear_arith);
}

fn round_half_even_u128(n: u128, q: u128) -> (r: u128)
    requires
        q > 0,
        n / q + 1 <= u128::MAX,
    ensures
        r == round_half_even(n as nat, q as nat),
{
    let d = n / q;
    let rem = n % q;
    if rem > q - rem || (rem == q - rem && d % 2 == 1) {
        d + 1
    } else {
        d
    }
}

/// The exact value of `b as f64`, computed with integers.
fn f64_value(b: u64) -> (f: u128)
    ensures
        f == as_f64_value(b as nat),
        f <= 0x1_0000_0000_0000_0800u128,
        b >= 1024 ==> f >= 1024,
{
    let mut e: u32 = 0;
    let mut gap: u128 = 1;
    let mut limit: u128 = 0x20_0000_0000_0000;
    proof {
        assert(pow2(53) == 0x20_0000_0000_0000nat) by {
            reveal_with_fuel(pow2, 54);
        }
    }
    while e < 11 && (b as u128) >= limit
        invariant
            e <= 11,
            gap == pow2(e as nat),
            limit == pow2(53 + e as nat),
            limit == gap * 0x20_0000_0000_0000,
            f64_gap_exp(b as nat, e as nat) == f64_gap_exp(b as nat, 0),
            e > 0 ==> b >= pow2(52 + e as nat),
            1 <= gap <= 2048,
        decreases 11 - e,
    {
        proof {
            lemma_pow2_mono(e as nat, 10);
            assert(pow2(10) == 1024) by {
                reveal_with_fuel(pow2, 11);
            }
            assert(pow2(53 + e as nat + 1) == 2 * pow2(53 + e as nat));
            assert(pow2(e as nat + 1) == 2 * pow2(e as nat));
        }
        gap = gap * 2;
        limit = limit * 2;
        e = e + 1;
    }
    proof {
        lemma_round_bounds(b as nat, gap as nat);
        assert(f64_gap_exp(b as nat, e as nat) == e);
        if e > 0 {
            // b is at least 2^(52+e), a multiple of the spacing, so rounding
            // to the spacing keeps it at least that large
            assert(pow2(52 + e as nat) == gap * 0x10_0000_0000_0000) by {
                assert(pow2(53 + e as nat) == 2 * pow2(52 + e as nat));
            }
            assert((b as nat) / (gap as nat) >= 0x10_0000_0000_0000) by (nonlinear_arith)
                requires
                    b >= gap * 0x10_0000_0000_0000,
                    gap > 0,
            ;
        }
    }
    let r = round_half_even_u128(b as u128, gap);
    proof {
        if e > 0 {
            assert(r * gap >= 1024) by (nonlinear_arith)
                requires
                    r >= 0x10_0000_0000_0000,
                    gap >= 1,
            ;
        } else {
            assert(gap == 1);
            assert(r == b) by (nonlinear_arith)
                requires
                    r == round_half_even(b as nat, 1),
            ;
            assert(r * gap == r) by (nonlinear_arith)
                requires
                    gap == 1,
            ;
        }
        assert(r * gap <= b + gap);
    }
    r * gap
}

fn push_unit_suffix(s: &mut String, k: usize)
    requires
        k <= 5,
    ensures
        final(s)@ == old(s)@ + unit_suffix(k as nat),
{
    let ghost start = s@;
    if k == 1 {
        push_char(s, 'K');
    } else if k == 2 {
        push_char(s, 'M');
    } else if k == 3 {
        push_char(s, 'G');
    } else if k == 4 {
        push_char(s, 'T');
    } else if k == 5 {
        push_char(s, 'P');
    }
    assert(s@ =~= start + unit_suffix(k as nat));
}

/// Renders a byte count the way `tree -h` does: plain below 1024, otherwise
/// scaled to K, M, G, T or P with one decimal below 100 and none from 100
/// up (for example `1023`, `1.5K`, `100K`, `2.4M`).
pub fn format_size(bytes: u64) -> (s: String)
    ensures
        s@ == size_text(bytes),
{
    let mut s = String::new();
    if bytes < 1024 {
        push_decimal(&mut s, bytes);
        return s;
    }
    let f = f64_value(bytes);
    let mut k: usize = 0;
    let mut q: u128 = 1;
    while k < 5 && f >= q * 1024
        invariant
            k <= 5,
            q == unit_scale(k as nat),
            q <= 0x4_0000_0000_0000,
            f >= q,
            f >= 1024,
            f <= 0x1_0000_0000_0000_0800u128,
            size_unit_from(f as nat, k as nat) == size_unit_from(f as nat, 0),
        decreases 5 - k,
    {
        proof {
            assert(unit_scale(k as nat + 1) == 1024 * unit_scale(k as nat));
            assert(q * 1024 <= 0x4_0000_0000_0000) by {
                assert(unit_scale(5) == 0x4_0000_0000_0000) by {
                    reveal_with_fuel(unit_scale, 6);
                }
                lemma_unit_scale_mono(k as nat + 1, 5);
            }
        }
        q = q * 1024;
        k = k + 1;
    }
    proof {
        assert(size_unit_from(f as nat, k as nat) == k);
        assert(q >= 1024) by {
            if k == 0 {
                assert(q == 1);
                assert(f >= unit_scale(1)) by {
                    reveal_with_fuel(unit_scale, 2);
                }
                assert(false);
            }
            lemma_unit_scale_mono(1, k as nat);
            reveal_with_fuel(unit_scale, 2);
        }
        lemma_round_bounds(f as nat, q as nat);
        lemma_round_bounds(10 * f as nat, q as nat);
        assert((f as nat) / (q as nat) <= (f as nat) / 1024) by {
            vstd::arithmetic::div_mod::lemma_div_is_ordered_by_denominator(f as int, 1024, q as int);
        }
    }
    if f >= 100 * q {
        let v = round_half_even_u128(f, q);
        push_decimal(&mut s, v as u64);
    } else {
        proof {
            assert((10 * f as nat) / (q as nat) < 1000) by (nonlinear_arith)
                requires
                    f < 100 * q,
                    q > 0,
            ;
        }
        let t = round_half_even_u128(10 * f, q);
        push_decimal(&mut s, (t / 10) as u64);
        push_char(&mut s, '.');
        push_char(&mut s, digit((t % 10) as u64));
    }
    push_unit_suffix(&mut s, k);
    s
}

// ===== modification times =====

/// Whether `y` is a leap year of the proleptic Gregorian calendar.
pub open spec fn is_leap_year(y: int) -> bool {
    (y % 4 == 0 && y % 100 != 0) || y % 400 == 0
}

/// The number of days in month `m` (1 to 12) of year `y`.
pub open spec fn days_in_month(y: int, m: int) -> int {
    if m == 2 {
        if is_leap_year(y) {
            29
        } else {
            28
        }
    } else if m == 4 || m == 6 || m == 9 || m == 11 {
        30
    } else {
        31
    }
}

/// `y`, `m`, `d` name a day of the calendar.
pub open spec fn is_valid_date(y: int, m: int, d: int) -> bool {
    1 <= m <= 12 && 1 <= d <= days_in_month(y, m)
}

/// The number of leap years among the years `1..=y` (for negative `y`, the
/// same count taken backwards, so that differences count the leap years of
/// any range).
pub open spec fn leap_years_through(y: int) -> int {
    y / 4 - y / 100 + y / 400
}

/// The number of days from 1970-01-01 to January 1st of year `y`
/// (negative before 1970).
pub open spec fn days_before_year(y: int) -> int {
    365 * (y - 1970) + leap_years_through(y - 1) - leap_years_through(1969)
}

/// The number of days in year `y` before the first day of month `m`.
pub open spec fn days_before_month(y: int, m: int) -> int {
    let common: int = if m <= 1 {
        0
    } else if m == 2 {
        31
    } else if m == 3 {
        59
    } else if m == 4 {
        90
    } else if m == 5 {
        120
    } else if m == 6 {
        151
    } else if m == 7 {
        181
    } else if m == 8 {
        212
    } else if m == 9 {
        243
    } else if m == 10 {
        273
    } else if m == 11 {
        304
    } else {
        334
    };
    if m > 2 && is_leap_year(y) {
        common + 1
    } else {
        common
    }
}

/// The number of days from 1970-01-01 to the date `y`-`m`-`d`.
pub open spec fn days_from_civil(y: int, m: int, d: int) -> int {
    days_before_year(y) + days_before_month(y, m) + d - 1
}

/// `(y - 1) / n` steps down from `y / n` exactly at the multiples of `n`.
proof fn lemma_div_step(y: int, n: int)
    requires
        n > 0,
    ensures
        (y - 1) / n == (if y % n == 0 {
            y / n - 1
        } else {
            y / n
        }),
{
    let q = y / n;
    let r = y % n;
    vstd::arithmetic::div_mod::lemma_fundamental_div_mod(y, n);
    if r == 0 {
        assert(y - 1 == n * (q - 1) + (n - 1)) by (nonlinear_arith)
            requires
                y == n * q,
        ;
        vstd::arithmetic::div_mod::lemma_div_multiples_vanish_fancy(q - 1, n - 1, n);
    } else {
        assert(y - 1 == n * q + (r - 1));
        vstd::arithmetic::div_mod::lemma_div_multiples_vanish_fancy(q, r - 1, n);
    }
}

/// A year has a leap day exactly when the leap-year count steps up.
proof fn lemma_leap_step(y: int)
    ensures
        leap_years_through(y) - leap_years_through(y - 1) == (if is_leap_year(y) {
            1int
        } else {
            0int
        }),
{
    lemma_div_step(y, 4);
    lemma_div_step(y, 100);
    lemma_div_step(y, 400);
    assert(y % 100 == 0 ==> y % 4 == 0);
    assert(y % 400 == 0 ==> y % 100 == 0);
}

/// The day counting done inside one 400-year era that starts on March 1st:
/// the year of the era and the day within that (March-based) year that the
/// era-relative day number `doe` falls on.
proof fn lemma_year_of_era(doe: int)
    requires
        0 <= doe <= 146096,
    ensures
        ({
            let yoe = (doe - doe / 1460 + doe / 36524 - doe / 146096) / 365;
            let doy = doe - (365 * yoe + yoe / 4 - yoe / 100);
            &&& 0 <= yoe <= 399
            &&& 0 <= doy <= 365
            &&& doy == 365 ==> (yoe + 1) % 4 == 0 && ((yoe + 1) % 100 != 0 || yoe == 399)
        }),
{
    let c: int = if doe >= 109572 {
        3
    } else {
        doe / 36524
    };
    let e = doe - 36524 * c;
    let b = e / 1461;
    let r = e - 1461 * b;
    assert(0 <= c <= 3);
    assert(0 <= e <= 36524);
    assert(0 <= b <= 24);
    assert(0 <= r <= 1460);
    assert(c < 3 && b == 24 ==> r <= 1459);
    assert(doe / 36524 - doe / 146096 == c);
    let delta: int = if 24 * c + b + r >= 1460 {
        1
    } else {
        0
    };
    assert(doe == 1460 * (25 * c + b) + (24 * c + b + r));
    assert(doe / 1460 == 25 * c + b + delta);
    let a = (r - delta) / 365;
    assert(0 <= a <= 3);
    let yoe = (doe - doe / 1460 + doe / 36524 - doe / 146096) / 365;
    assert(doe - doe / 1460 + doe / 36524 - doe / 146096 == 365 * (100 * c + 4 * b) + (r - delta));
    assert(yoe == 100 * c + 4 * b + a);
    assert(yoe / 4 == 25 * c + b);
    assert(yoe / 100 == c);
    let doy = doe - (365 * yoe + yoe / 4 - yoe / 100);
    assert(doy == r - 365 * a);
    assert(doy == 365 ==> r == 1460 && a == 3);
}

/// Converts a day count since 1970-01-01 (negative before it) into a
/// calendar date (year, month, day), following Howard Hinnant's
/// `civil_from_days`, with eras counted by floor division; the year is cut
/// to `i32` (keeping its low 32 bits) for very distant years. Every day of a
/// second count that fits in `i64` is accepted.
fn days_to_ymd(days: i64) -> (r: (i32, u32, u32))
    requires
        -106_751_991_167_301 <= days <= 106_751_991_167_300,
    ensures
        exists|y: int|
            r.0 == y as i32 && is_valid_date(y, r.1 as int, r.2 as int) && days_from_civil(
                y,
                r.1 as int,
                r.2 as int,
            ) == days,
{
    let z = days + 719_468;
    // Shifting by whole eras makes the day count non-negative, so that
    // unsigned division rounds down.
    let shifted = (z + 800_000_000 * 146_097) as u64;
    let era = (shifted / 146_097) as i64 - 800_000_000;
    proof {
        let q = shifted / 146_097;
        assert(shifted == z + 800_000_000 * 146_097);
        vstd::arithmetic::div_mod::lemma_fundamental_div_mod(shifted as int, 146_097);
        assert(0 <= shifted - q * 146_097 < 146_097);
        assert(era == q - 800_000_000);
        assert(z - era * 146_097 == shifted - q * 146_097);
    }
    let doe = (z - era * 146_097) as u64;
    let yoe = (doe - doe / 1460 + doe / 36524 - doe / 146096) / 365;
    proof {
        lemma_year_of_era(doe as int);
    }
    let y = yoe as i64 + era * 400;
    let doy = doe - (365 * yoe + yoe / 4 - yoe / 100);
    let mp = (5 * doy + 2) / 153;
    let d = doy - (153 * mp + 2) / 5 + 1;
    let m = if mp < 10 {
        mp + 3
    } else {
        mp - 9
    };
    let y = if m <= 2 {
        y + 1
    } else {
        y
    };
    proof {
        lemma_civil_date(era as int, yoe as int, doy as int, mp as int, d as int, m as int, y as int);
        assert(z == era * 146097 + doe);
        assert(doe == 365 * yoe + yoe / 4 - yoe / 100 + doy);
        assert(days_from_civil(y as int, m as int, d as int) == days);
    }
    let r = (y as i32, m as u32, d as u32);
    assert(r.1 as int == m && r.2 as int == d);
    assert(r.0 == (y as int) as i32 && is_valid_date(y as int, r.1 as int, r.2 as int)
        && days_from_civil(y as int, r.1 as int, r.2 as int) == days);
    r
}

/// Adding `k` multiples of `n` adds `k` to the quotient by `n`.
proof fn lemma_div_shift(x: int, k: int, n: int)
    requires
        n > 0,
    ensures
        (x + k * n) / n == x / n + k,
{
    vstd::arithmetic::div_mod::lemma_fundamental_div_mod(x, n);
    assert(x + k * n == (x / n + k) * n + x % n) by (nonlinear_arith)
        requires
            x == n * (x / n) + x % n,
    ;
    vstd::arithmetic::div_mod::lemma_fundamental_div_mod_converse(x + k * n, n, x / n + k, x % n);
}

/// The date assembled from an era, a year of era and a day of the
/// (March-based) year is a valid calendar date at the right distance from
/// 1970-01-01.
proof fn lemma_civil_date(era: int, yoe: int, doy: int, mp: int, d: int, m: int, y: int)
    requires
        0 <= yoe <= 399,
        0 <= doy <= 365,
        doy == 365 ==> (yoe + 1) % 4 == 0 && ((yoe + 1) % 100 != 0 || yoe == 399),
        mp == (5 * doy + 2) / 153,
        d == doy - (153 * mp + 2) / 5 + 1,
        m == (if mp < 10 {
            mp + 3
        } else {
            mp - 9
        }),
        y == (if m <= 2 {
            yoe + era * 400 + 1
        } else {
            yoe + era * 400
        }),
    ensures
        is_valid_date(y, m, d),
        days_from_civil(y, m, d) == era * 146097 + 365 * yoe + yoe / 4 - yoe / 100 + doy - 719468,
{
    let y0 = yoe + era * 400;
    lemma_div_shift(yoe, 100 * era, 4);
    lemma_div_shift(yoe, 4 * era, 100);
    lemma_div_shift(yoe, era, 400);
    assert(y0 == yoe + (100 * era) * 4 && y0 == yoe + (4 * era) * 100 && y0 == yoe + era * 400);
    // March 1st of year y0 lies this many days after 1970-01-01.
    assert(leap_years_through(y0) == 97 * era + yoe / 4 - yoe / 100 + yoe / 400);
    lemma_leap_step(y0);
    assert(days_before_year(y0) + 59 + (if is_leap_year(y0) {
        1int
    } else {
        0int
    }) == era * 146097 + 365 * yoe + yoe / 4 - yoe / 100 - 719468);
    if doy == 365 {
        assert(is_leap_year(y0 + 1));
    }
    assert(0 <= mp <= 11);
    if m <= 2 {
        assert(days_before_year(y0 + 1) == days_before_year(y0) + 365 + (if is_leap_year(y0) {
            1int
        } else {
            0int
        }));
    }
}

/// The leap-year count never decreases.
proof fn lemma_leap_count_mono(a: int, b: int)
    requires
        a <= b,
    ensures
        leap_years_through(a) <= leap_years_through(b),
    decreases b - a,
{
    if a < b {
        lemma_leap_step(b);
        lemma_leap_count_mono(a, b - 1);
    }
}

/// A valid date lies within its own year.
proof fn lemma_date_in_year(y: int, m: int, d: int)
    requires
        is_valid_date(y, m, d),
    ensures
        days_before_year(y) <= days_from_civil(y, m, d) < days_before_year(y + 1),
{
    lemma_leap_step(y);
}

/// Different valid dates lie on different days: a day number names at most
/// one calendar date.
pub proof fn lemma_days_from_civil_injective(y1: int, m1: int, d1: int, y2: int, m2: int, d2: int)
    requires
        is_valid_date(y1, m1, d1),
        is_valid_date(y2, m2, d2),
        days_from_civil(y1, m1, d1) == days_from_civil(y2, m2, d2),
    ensures
        y1 == y2 && m1 == m2 && d1 == d2,
{
    lemma_date_in_year(y1, m1, d1);
    lemma_date_in_year(y2, m2, d2);
    if y1 < y2 {
        lemma_leap_count_mono(y1, y2 - 1);
        assert(days_before_year(y1 + 1) <= days_before_year(y2));
    } else if y2 < y1 {
        lemma_leap_count_mono(y2, y1 - 1);
        assert(days_before_year(y2 + 1) <= days_before_year(y1));
    }
    assert(y1 == y2);
}

/// The calendar date (year, month, day) that lies `days` days after
/// 1970-01-01.
pub open spec fn civil_date(days: int) -> (int, int, int) {
    choose|date: (int, int, int)|
        is_valid_date(date.0, date.1, date.2) && days_from_civil(date.0, date.1, date.2) == days
}

/// Every day, before or after 1970-01-01, has a calendar date:
/// `civil_date(days)` is a valid date lying `days` days after 1970-01-01
/// (the day count `days_from_civil` inverts).
pub proof fn lemma_civil_date_inverse(days: int)
    ensures
        is_valid_date(civil_date(days).0, civil_date(days).1, civil_date(days).2),
        days_from_civil(civil_date(days).0, civil_date(days).1, civil_date(days).2) == days,
{
    let z = days + 719_468;
    let era = z / 146_097;
    vstd::arithmetic::div_mod::lemma_fundamental_div_mod(z, 146_097);
    let doe = z - era * 146_097;
    assert(0 <= doe < 146_097);
    lemma_year_of_era(doe);
    let yoe = (doe - doe / 1460 + doe / 36524 - doe / 146096) / 365;
    let doy = doe - (365 * yoe + yoe / 4 - yoe / 100);
    let mp = (5 * doy + 2) / 153;
    let d = doy - (153 * mp + 2) / 5 + 1;
    let m = if mp < 10 {
        mp + 3
    } else {
        mp - 9
    };
    let y = if m <= 2 {
        yoe + era * 400 + 1
    } else {
        yoe + era * 400
    };
    lemma_civil_date(era, yoe, doy, mp, d, m, y);
    let w = (y, m, d);
    assert(is_valid_date(w.0, w.1, w.2) && days_from_civil(w.0, w.1, w.2) == days);
}

/// A signed number printed with `{:0width}`: the sign, when negative, comes
/// first and counts toward the width.
pub open spec fn signed_zero_padded(v: int, width: nat) -> Seq<char> {
    if v >= 0 {
        zero_padded(decimal(v as nat), width)
    } else {
        seq!['-'] + zero_padded(decimal((-v) as nat), (width - 1) as nat)
    }
}

/// `YYYY-MM-DD HH:MM` for the given fields.
pub open spec fn stamp_text(year: i32, month: int, day: int, hour: int, minute: int) -> Seq<char> {
    signed_zero_padded(year as int, 4) + seq!['-'] + zero_padded(decimal(month as nat), 2) + seq!['-']
        + zero_padded(decimal(day as nat), 2) + seq![' '] + zero_padded(decimal(hour as nat), 2)
        + seq![':'] + zero_padded(decimal(minute as nat), 2)
}

/// The modification-time text: `----` for a time before the Unix epoch,
/// otherwise the UTC date and time to the minute, `YYYY-MM-DD HH:MM`, with
/// the year cut to `i32`.
pub open spec fn mtime_text(t: FileTime) -> Seq<char> {
    if t.secs < 0 {
        seq!['-', '-', '-', '-']
    } else {
        let days = t.secs / 86400;
        let tod = t.secs % 86400;
        let date = civil_date(days);
        stamp_text(date.0 as i32, date.1, date.2, tod / 3600, (tod / 60) % 60)
    }
}

fn push_signed_padded(s: &mut String, v: i32, width: usize)
    requires
        1 <= width,
    ensures
        final(s)@ == old(s)@ + signed_zero_padded(v as int, width as nat),
{
    let ghost start = s@;
    if v >= 0 {
        push_padded(s, v as u64, width);
    } else {
        push_char(s, '-');
        let magnitude: i64 = -(v as i64);
        push_padded(s, magnitude as u64, width - 1);
    }
    assert(s@ =~= start + signed_zero_padded(v as int, width as nat));
}

/// Renders a modification time as `YYYY-MM-DD HH:MM` in UTC, or `----` for
/// a time before the Unix epoch.
pub fn format_mtime(t: FileTime) -> (s: String)
    ensures
        s@ == mtime_text(t),
{
    let mut s = String::new();
    if t.secs < 0 {
        push_char(&mut s, '-');
        push_char(&mut s, '-');
        push_char(&mut s, '-');
        push_char(&mut s, '-');
        assert(s@ =~= mtime_text(t));
        return s;
    }
    let secs = t.secs;
    let days = secs / 86_400;
    let time_of_day = secs % 86_400;
    let (y, mo, d) = days_to_ymd(days);
    let hour = (time_of_day / 3600) as u64;
    let min = ((time_of_day / 60) % 60) as u64;
    proof {
        let y_full = choose|y_full: int|
            y == y_full as i32 && is_valid_date(y_full, mo as int, d as int) && days_from_civil(
                y_full,
                mo as int,
                d as int,
            ) == days;
        let w = (y_full, mo as int, d as int);
        assert(is_valid_date(w.0, w.1, w.2) && days_from_civil(w.0, w.1, w.2) == days);
        let date = civil_date(days as int);
        lemma_days_from_civil_injective(y_full, mo as int, d as int, date.0, date.1, date.2);
    }
    let ghost start = s@;
    push_signed_padded(&mut s, y, 4);
    push_char(&mut s, '-');
    push_padded(&mut s, mo as u64, 2);
    push_char(&mut s, '-');
    push_padded(&mut s, d as u64, 2);
    push_char(&mut s, ' ');
    push_padded(&mut s, hour, 2);
    push_char(&mut s, ':');
    push_padded(&mut s, min, 2);
    assert(s@ =~= mtime_text(t));
    s
}

/// Units grow with their index.
proof fn lemma_unit_scale_mono(a: nat, b: nat)
    requires
        a <= b,
    ensures
        1 <= unit_scale(a) <= unit_scale(b),
    decreases b,
{
    if b > 0 {
        if a == b {
            lemma_unit_scale_mono((b - 1) as nat, (b - 1) as nat);
        } else {
            lemma_unit_scale_mono(a, (b - 1) as nat);
        }
    }
}

} // verus!
