//! Numerals, double-precision numbers and sizes.

use video_downloader::decimal::{decimal_text, parse_u32, shifted_decimal_text};
use video_downloader::double::{format_number, human_size, Double};

fn double(value: f64) -> Double {
    Double { bits: value.to_bits() }
}

/// A number without a tenth that is zero.
fn without_idle_tenth(number: String) -> String {
    match number.strip_suffix(".0") {
        Some(whole) => whole.to_string(),
        None => number,
    }
}

/// The size text by floating-point arithmetic.
fn float_size(bytes: f64) -> String {
    let units = ["B", "KB", "MB", "GB"];
    let mut value = bytes;
    let mut unit = 0;
    while value >= 1024.0 && unit < units.len() - 1 {
        value /= 1024.0;
        unit += 1;
    }
    if unit == 0 {
        format!("{value:.0} {}", units[unit])
    } else {
        format!("{} {}", without_idle_tenth(format!("{value:.1}")), units[unit])
    }
}

const VALUES: [f64; 36] = [
    0.0,
    -0.0,
    0.4,
    0.5,
    0.6,
    1.0,
    1.5,
    2.5,
    3.5,
    -0.5,
    -1.5,
    -2.5,
    -4096.0,
    999.5,
    1023.0,
    1023.4999,
    1023.5,
    1023.9999999999999,
    1024.0,
    1075.2,
    1100.0,
    1126.4,
    1177.6,
    1536.0,
    130023424.0,
    1048576.0,
    1048575.9,
    1073741824.0,
    1.0e15,
    1.0e300,
    f64::MAX,
    f64::MIN_POSITIVE,
    5.0e-324,
    f64::INFINITY,
    f64::NEG_INFINITY,
    f64::NAN,
];

#[test]
fn sizes_read_as_expected() {
    assert_eq!(human_size(double(0.0)), "0 B");
    assert_eq!(human_size(double(512.0)), "512 B");
    assert_eq!(human_size(double(2.5)), "2 B");
    assert_eq!(human_size(double(3.5)), "4 B");
    assert_eq!(human_size(double(1023.5)), "1024 B");
    assert_eq!(human_size(double(1024.0)), "1 KB");
    assert_eq!(human_size(double(1536.0)), "1.5 KB");
    assert_eq!(human_size(double(130023424.0)), "124 MB");
    assert_eq!(human_size(double(5368709120.0)), "5 GB");
    assert_eq!(human_size(double(1.0e15)), "931322.6 GB");
    assert_eq!(human_size(double(-5000.0)), "-5000 B");
    assert_eq!(human_size(double(f64::NAN)), "NaN B");
    assert_eq!(human_size(double(f64::INFINITY)), "inf GB");
}

#[test]
fn whole_sizes_are_shown_whole() {
    for n in [1u32, 2, 10, 124, 1000, 1023] {
        let size = f64::from(n);
        assert_eq!(human_size(double(size)), format!("{n} B"));
        assert_eq!(human_size(double(size * 1024.0)), format!("{n} KB"));
        assert_eq!(human_size(double(size * 1048576.0)), format!("{n} MB"));
        assert_eq!(human_size(double(size * 1073741824.0)), format!("{n} GB"));
    }
    assert_eq!(human_size(double(1.0e30)), "931322574615478534144 GB");
}

#[test]
fn sizes_agree_with_floating_point() {
    for value in VALUES {
        assert_eq!(human_size(double(value)), float_size(value), "{value:?}");
        assert_eq!(human_size(double(-value)), float_size(-value), "{value:?}");
    }
    // Bit patterns spread over all exponents, and sizes of every magnitude.
    let mut bits: u64 = 0x9e37_79b9_7f4a_7c15;
    for _ in 0..4000 {
        bits = bits.wrapping_mul(6364136223846793005).wrapping_add(1442695040888963407);
        let any = f64::from_bits(bits);
        assert_eq!(human_size(double(any)), float_size(any), "{any:?}");
        let size = (bits >> (bits % 60 + 4)) as f64 / 20.0;
        assert_eq!(human_size(double(size)), float_size(size), "{size:?}");
    }
}

#[test]
fn numbers_are_rounded_half_to_even() {
    for value in VALUES {
        assert_eq!(format_number(double(value), false), format!("{value:.0}"));
        assert_eq!(format_number(double(value), true), without_idle_tenth(format!("{value:.1}")));
    }
    assert_eq!(format_number(double(0.25), true), "0.2");
    assert_eq!(format_number(double(0.75), true), "0.8");
    assert_eq!(format_number(double(1.96), true), "2");
    assert_eq!(format_number(double(2.04), true), "2");
    assert_eq!(format_number(double(-0.0), true), "-0");
}

#[test]
fn numbers_are_compared_as_floating_point() {
    for a in VALUES {
        for b in VALUES {
            assert_eq!(double(a).ge(double(b)), a >= b, "{a:?} {b:?}");
            assert_eq!(double(a).gt(double(b)), a > b, "{a:?} {b:?}");
        }
        assert_eq!(double(a).nan(), a.is_nan());
    }
    assert_eq!(Double::zero(), double(0.0));
}

#[test]
fn numerals_are_written_and_read_back() {
    for n in [0, 1, 9, 10, 360, 1080, 4320, u32::MAX] {
        assert_eq!(decimal_text(n as u64), n.to_string());
        assert_eq!(parse_u32(&decimal_text(n as u64)), Some(n));
    }
    assert_eq!(decimal_text(u64::MAX), u64::MAX.to_string());
}

#[test]
fn numerals_are_parsed_as_the_standard_library_does() {
    let samples = [
        "", "+", "-", "0", "+0", "-0", "007", "+720", "-720", "720p", " 720", "720 ", "4294967295",
        "4294967296", "00000000004294967295", "99999999999999999999", "١", "1_000", "++1", "1.0",
    ];
    for s in samples {
        assert_eq!(parse_u32(s), s.parse::<u32>().ok(), "{s:?}");
    }
}

#[test]
fn doubled_numerals_are_exact() {
    assert_eq!(shifted_decimal_text(0, 971), "0");
    assert_eq!(shifted_decimal_text(3, 0), "3");
    assert_eq!(shifted_decimal_text(3, 4), "48");
    assert_eq!(shifted_decimal_text(u64::MAX, 1), "36893488147419103230");
    let largest = shifted_decimal_text((1u64 << 53) - 1, 971);
    assert_eq!(largest, format!("{:.0}", f64::MAX));
}
