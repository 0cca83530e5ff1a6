use go_profile_lsp::binary64::percent_reaches;
use go_profile_lsp::binary64::Binary64;
use go_profile_lsp::format::format_bytes;
use go_profile_lsp::format::format_count;
use go_profile_lsp::format::format_nanoseconds;
use go_profile_lsp::format::format_percent;
use go_profile_lsp::format::format_value;
use go_profile_lsp::format::ValueUnit;

#[test]
fn test_format_ns_seconds() {
    assert_eq!(format_nanoseconds(1_200_000_000), "1.2s");
    assert_eq!(format_nanoseconds(5_500_000_000), "5.5s");
}

#[test]
fn test_format_ns_milliseconds() {
    assert_eq!(format_nanoseconds(340_000_000), "340ms");
    assert_eq!(format_nanoseconds(1_500_000), "2ms");
}

#[test]
fn test_format_ns_microseconds() {
    assert_eq!(format_nanoseconds(15_000), "15us");
    assert_eq!(format_nanoseconds(1_500), "2us");
}

#[test]
fn test_format_ns_nanoseconds() {
    assert_eq!(format_nanoseconds(800), "800ns");
    assert_eq!(format_nanoseconds(0), "0ns");
}

#[test]
fn test_format_bytes_gb() {
    assert_eq!(format_bytes(1_500_000_000), "1.5GB");
}

#[test]
fn test_format_bytes_mb() {
    assert_eq!(format_bytes(230_000_000), "230MB");
}

#[test]
fn test_format_bytes_kb() {
    assert_eq!(format_bytes(12_000), "12KB");
}

#[test]
fn test_format_bytes_b() {
    assert_eq!(format_bytes(512), "512B");
    assert_eq!(format_bytes(0), "0B");
}

#[test]
fn test_format_count_with_commas() {
    assert_eq!(format_count(1_234_567), "1,234,567");
    assert_eq!(format_count(1_000), "1,000");
    assert_eq!(format_count(999), "999");
    assert_eq!(format_count(0), "0");
}

#[test]
fn test_format_count_negative() {
    assert_eq!(format_count(-1_234), "-1,234");
}

#[test]
fn test_format_percent() {
    assert_eq!(format_percent(342, 1000), "(34.2%)");
    assert_eq!(format_percent(1000, 1000), "(100.0%)");
    assert_eq!(format_percent(0, 1000), "(0.0%)");
}

#[test]
fn test_format_percent_zero_total() {
    assert_eq!(format_percent(100, 0), "");
}

#[test]
fn test_format_value() {
    assert_eq!(format_value(1_200_000_000, ValueUnit::Nanoseconds), "1.2s");
    assert_eq!(format_value(1_500_000_000, ValueUnit::Bytes), "1.5GB");
    assert_eq!(format_value(1_234_567, ValueUnit::Count), "1,234,567");
}

#[test]
fn negative_values_have_a_sign() {
    assert_eq!(format_nanoseconds(-1_200_000_000), "-1.2s");
    assert_eq!(format_bytes(-12_000), "-12KB");
    assert_eq!(format_nanoseconds(-1), "-1ns");
    assert_eq!(format_percent(-250, 1000), "(-25.0%)");
    assert_eq!(format_percent(0, -1000), "(-0.0%)");
    assert_eq!(format_percent(-1000, -1000), "(100.0%)");
}

#[test]
fn extreme_values_are_written() {
    assert_eq!(format_count(i64::MIN), "-9,223,372,036,854,775,808");
    assert_eq!(format_count(i64::MAX), "9,223,372,036,854,775,807");
    assert_eq!(format_nanoseconds(i64::MIN), "-9223372036.9s");
    assert_eq!(format_bytes(i64::MAX), "9223372036.9GB");
}

#[test]
fn a_unit_is_used_from_one_on() {
    assert_eq!(format_nanoseconds(999), "999ns");
    assert_eq!(format_nanoseconds(1_000), "1us");
    assert_eq!(format_nanoseconds(999_999), "1000us");
    assert_eq!(format_nanoseconds(1_000_000), "1ms");
    assert_eq!(format_nanoseconds(999_999_999), "1000ms");
    assert_eq!(format_nanoseconds(1_000_000_000), "1.0s");
}

#[test]
fn halves_go_to_the_even_digit() {
    assert_eq!(format_nanoseconds(2_500), "2us");
    assert_eq!(format_nanoseconds(3_500), "4us");
    assert_eq!(format_percent(1, 800), "(0.1%)");
    assert_eq!(format_percent(5, 2000), "(0.2%)");
}

fn sample(state: &mut u64) -> i64 {
    *state ^= *state << 13;
    *state ^= *state >> 7;
    *state ^= *state << 17;
    let shift: u64 = (*state >> 57) % 64;
    (*state as i64) >> shift
}

fn by_floats(value: i64, names: [&str; 4]) -> String {
    let abs = value.unsigned_abs();
    let sign = if value < 0 { "-" } else { "" };
    if abs >= 1_000_000_000 {
        format!("{}{:.1}{}", sign, abs as f64 / 1_000_000_000.0, names[0])
    } else if abs >= 1_000_000 {
        format!("{}{:.0}{}", sign, abs as f64 / 1_000_000.0, names[1])
    } else if abs >= 1_000 {
        format!("{}{:.0}{}", sign, abs as f64 / 1_000.0, names[2])
    } else {
        format!("{}{}{}", sign, abs, names[3])
    }
}

#[test]
fn durations_agree_with_floating_point() {
    let mut state: u64 = 0x9e37_79b9_7f4a_7c15;
    for _ in 0..20_000 {
        let value = sample(&mut state);
        assert_eq!(format_nanoseconds(value), by_floats(value, ["s", "ms", "us", "ns"]));
    }
}

#[test]
fn sizes_agree_with_floating_point() {
    let mut state: u64 = 0x2545_f491_4f6c_dd1d;
    for _ in 0..20_000 {
        let value = sample(&mut state);
        assert_eq!(format_bytes(value), by_floats(value, ["GB", "MB", "KB", "B"]));
    }
}

#[test]
fn percentages_agree_with_floating_point() {
    let mut state: u64 = 0xda94_2042_e4dd_58b5;
    for _ in 0..20_000 {
        let value = sample(&mut state);
        let total = sample(&mut state);
        if total != 0 {
            let percent = (value as f64 / total as f64) * 100.0;
            assert_eq!(format_percent(value, total), format!("({:.1}%)", percent));
        }
    }
}

#[test]
fn thresholds_agree_with_floating_point() {
    let mut state: u64 = 0x0123_4567_89ab_cdef;
    let fixed = [
        0.0,
        -0.0,
        0.1,
        1.0,
        33.3,
        50.0,
        100.0,
        -5.0,
        1.0e300,
        5.0e-324,
        f64::INFINITY,
        f64::NEG_INFINITY,
        f64::NAN,
    ];
    for i in 0..20_000usize {
        let value = sample(&mut state);
        let total = sample(&mut state);
        if total != 0 {
            let percent = (value as f64 / total as f64) * 100.0;
            let near = [
                fixed[i % fixed.len()],
                percent,
                f64::from_bits(percent.to_bits().wrapping_add(1)),
                f64::from_bits(percent.to_bits().wrapping_sub(1)),
                f64::from_bits(sample(&mut state) as u64),
            ];
            for threshold in near {
                assert_eq!(
                    percent_reaches(value, total, Binary64::from_bits(threshold.to_bits())),
                    percent >= threshold,
                );
            }
        }
    }
}

#[test]
fn a_whole_is_one_hundred_percent() {
    let mut state: u64 = 0x5bf0_3635_dead_beef;
    for _ in 0..2_000 {
        let value = sample(&mut state);
        if value != 0 {
            assert_eq!(format_percent(value, value), "(100.0%)");
        }
    }
    assert_eq!(format_percent(i64::MIN, i64::MIN), "(100.0%)");
}

#[test]
fn signs_stand_before_the_same_text() {
    let mut state: u64 = 0x1111_2222_3333_4445;
    for _ in 0..2_000 {
        let value = sample(&mut state).checked_abs().unwrap_or(1);
        for unit in [ValueUnit::Nanoseconds, ValueUnit::Bytes, ValueUnit::Count] {
            if value != 0 {
                assert_eq!(format_value(-value, unit), format!("-{}", format_value(value, unit)));
            }
        }
    }
}

#[test]
fn counts_without_commas_are_numerals() {
    let mut state: u64 = 0x0f0f_1e1e_3c3c_7879;
    for _ in 0..2_000 {
        let value = sample(&mut state);
        let text = format_count(value);
        assert_eq!(text.replace(',', ""), value.to_string());
        let digits = text.trim_start_matches('-');
        for (i, c) in digits.chars().enumerate() {
            assert_eq!(c == ',', (digits.len() - i) % 4 == 0);
        }
    }
}
