use bush::format_meta::{format_mode, format_mtime, format_size};
use bush::walker::FileTime;

fn at(secs: i64) -> FileTime {
    FileTime { secs, nanos: 0 }
}

#[test]
fn size_bytes() {
    assert_eq!(format_size(0), "0");
    assert_eq!(format_size(1), "1");
    assert_eq!(format_size(999), "999");
    assert_eq!(format_size(1023), "1023");
}

#[test]
fn size_kilobytes() {
    assert_eq!(format_size(1024), "1.0K");
    assert_eq!(format_size(1500), "1.5K");
    assert_eq!(format_size(10 * 1024), "10.0K");
    assert_eq!(format_size(100 * 1024), "100K");
}

#[test]
fn size_megabytes() {
    assert_eq!(format_size(1024 * 1024), "1.0M");
    assert_eq!(format_size(2_500_000), "2.4M");
}

#[test]
fn size_gigabytes() {
    assert_eq!(format_size(1024_u64.pow(3)), "1.0G");
    assert_eq!(format_size(5 * 1024_u64.pow(3)), "5.0G");
}

#[test]
fn size_terabytes() {
    assert_eq!(format_size(1024_u64.pow(4)), "1.0T");
}

#[test]
fn mtime_unix_epoch_is_1970() {
    assert_eq!(format_mtime(at(0)), "1970-01-01 00:00");
}

#[test]
fn mtime_at_y2k() {
    // 2000-01-01 00:00:00 UTC = 946_684_800
    assert_eq!(format_mtime(at(946_684_800)), "2000-01-01 00:00");
}

#[test]
fn mtime_random_2024() {
    // 2024-03-15 14:30:00 UTC = 1_710_513_000
    assert_eq!(format_mtime(at(1_710_513_000)), "2024-03-15 14:30");
}

#[test]
fn mtime_leap_day() {
    // 2024-02-29 00:00:00 UTC = 1_709_164_800
    assert_eq!(format_mtime(at(1_709_164_800)), "2024-02-29 00:00");
}

#[test]
fn mode_644() {
    assert_eq!(format_mode(0o644), "rw-r--r--");
}

#[test]
fn mode_755() {
    assert_eq!(format_mode(0o755), "rwxr-xr-x");
}

#[test]
fn mode_777() {
    assert_eq!(format_mode(0o777), "rwxrwxrwx");
}

#[test]
fn mode_000() {
    assert_eq!(format_mode(0o000), "---------");
}

#[test]
fn mode_with_file_type_bits_ignored() {
    // 0o100644 has S_IFREG=0o100000 plus 0o644
    assert_eq!(format_mode(0o100644), "rw-r--r--");
}

// ----- further cases -----

/// The size text as the floating-point computation gives it.
fn size_by_float(bytes: u64) -> String {
    const UNITS: &[&str] = &["", "K", "M", "G", "T", "P"];
    if bytes < 1024 {
        return format!("{bytes}");
    }
    let mut value = bytes as f64;
    let mut unit_idx = 0;
    while value >= 1024.0 && unit_idx + 1 < UNITS.len() {
        value /= 1024.0;
        unit_idx += 1;
    }
    if value >= 100.0 {
        format!("{value:.0}{}", UNITS[unit_idx])
    } else {
        format!("{value:.1}{}", UNITS[unit_idx])
    }
}

#[test]
fn size_matches_floating_point_formatting() {
    let mut samples: Vec<u64> = vec![
        1024, 1025, 1280, 1331, 1536, 10239, 10240, 102_399, 102_400, 102_912, 1_048_064,
        1_048_575, 1_048_576, 1_310_720, 1_363_148, 2_500_000, 107_374_182, u64::MAX,
        u64::MAX - 1, 1 << 53, (1 << 53) + 1, (1 << 54) + 3, 9_007_199_254_740_993,
        1_152_921_504_606_846_976, 1_153_000_000_000_000_000, 18_000_000_000_000_000_000,
    ];
    let mut x: u64 = 0x9e37_79b9_7f4a_7c15;
    for _ in 0..20_000 {
        x ^= x << 13;
        x ^= x >> 7;
        x ^= x << 17;
        let shift = (x % 64) as u32;
        samples.push(x >> shift);
    }
    for k in 1..6u32 {
        let unit = 1024_u64.pow(k);
        for t in 0..2000u64 {
            samples.push(unit.saturating_mul(t) / 10 + unit / 20);
            samples.push((unit / 20).saturating_mul(t));
        }
    }
    for b in samples {
        assert_eq!(format_size(b), size_by_float(b), "bytes = {b}");
    }
}

#[test]
fn size_ties_round_to_even() {
    // 1280 bytes is exactly 1.25K
    assert_eq!(format_size(1280), "1.2K");
    // 1331.2 is not a byte count; 1331 is 1.2998K
    assert_eq!(format_size(1331), "1.3K");
    // 100.5K rounds to the even 100
    assert_eq!(format_size(102_912), "100K");
    assert_eq!(format_size(1023 * 1024 + 512), "1024K");
}

#[test]
fn size_largest_values_stay_in_petabytes() {
    assert_eq!(format_size(u64::MAX), "16384P");
    assert_eq!(format_size(1024_u64.pow(5)), "1.0P");
}

#[test]
fn mtime_before_epoch_is_dashes() {
    assert_eq!(format_mtime(at(-1)), "----");
    assert_eq!(format_mtime(FileTime { secs: -1, nanos: 999_999_999 }), "----");
}

#[test]
fn mtime_end_of_day_and_century_rules() {
    assert_eq!(format_mtime(at(86_399)), "1970-01-01 23:59");
    // 2100-03-01: 2100 is not a leap year
    assert_eq!(format_mtime(at(4_107_542_400)), "2100-03-01 00:00");
    // 2000-02-29: 2000 is a leap year
    assert_eq!(format_mtime(at(951_782_400)), "2000-02-29 00:00");
    assert_eq!(format_mtime(FileTime { secs: 1_709_164_859, nanos: 500 }), "2024-02-29 00:00");
}

#[test]
fn mtime_far_future_years() {
    // 10000-01-01 00:00:00 UTC
    assert_eq!(format_mtime(at(253_402_300_800)), "10000-01-01 00:00");
}
