use oxi::format::{format_bytes, format_time, format_time_delta, human_duration};
use std::time::{Duration, SystemTime};

#[test]
fn test_format_bytes() {
    struct TestCase {
        input: u64,
        expected: &'static str,
    }
    let tests = vec![
        TestCase { input: 0, expected: "0 B" },
        TestCase { input: 1, expected: "1 B" },
        TestCase { input: 1023, expected: "1023 B" },
        TestCase { input: 1024, expected: "1.0 KiB" },
        TestCase { input: 1536, expected: "1.5 KiB" },
        TestCase { input: 1048575, expected: "1024.0 KiB" },
        TestCase { input: 1048576, expected: "1.0 MiB" },
        TestCase { input: 1572864, expected: "1.5 MiB" },
        TestCase { input: 1073741823, expected: "1024.0 MiB" },
        TestCase { input: 1073741824, expected: "1.0 GiB" },
        TestCase { input: 1610612736, expected: "1.5 GiB" },
        TestCase { input: 2147483648, expected: "2.0 GiB" },
    ];
    for tc in tests {
        assert_eq!(format_bytes(tc.input, '.'), tc.expected, "input {}", tc.input);
    }
}

#[test]
fn format_bytes_matches_float_formatting() {
    for b in [1280u64, 1281, 3 * 1024 + 51, u64::MAX, (1 << 53) + 1, 123456789012345678] {
        let v = b as f64 / 1073741824.0;
        let expected = if b >= 1073741824 {
            format!("{:.1} GiB", v)
        } else if b >= 1048576 {
            format!("{:.1} MiB", b as f64 / 1048576.0)
        } else {
            format!("{:.1} KiB", b as f64 / 1024.0)
        };
        assert_eq!(format_bytes(b, '.'), expected, "input {}", b);
    }
    assert_eq!(format_bytes(1536, ','), "1,5 KiB");
}

#[test]
fn test_format_time() {
    let now = SystemTime::now();
    assert_eq!(format_time(None, "never"), "never");

    let v = now + Duration::from_secs(48 * 3600);
    assert_eq!(format_time(Some(v), ""), "2 days from now");

    let v = now - Duration::from_secs(48 * 3600);
    assert_eq!(format_time(Some(v), ""), "2 days ago");

    let v = now + Duration::from_millis(800);
    assert_eq!(format_time(Some(v), ""), "Less than a second from now");

    let v = now + Duration::from_secs(24 * 3600 * 365 * 200);
    assert_eq!(format_time(Some(v), ""), "Forever");

    let v = now + Duration::from_secs(24 * 3600 * 365 * 200);
    assert_eq!(format_time(Some(v), "").to_lowercase(), "forever");
}

#[test]
fn human_duration_steps() {
    assert_eq!(human_duration(0, 5), "Less than a second");
    assert_eq!(human_duration(1, 0), "1 second");
    assert_eq!(human_duration(59, 0), "59 seconds");
    assert_eq!(human_duration(60, 0), "About a minute");
    assert_eq!(human_duration(3599, 0), "59 minutes");
    assert_eq!(human_duration(3600, 0), "About an hour");
    assert_eq!(human_duration(5400, 0), "2 hours");
    assert_eq!(human_duration(48 * 3600, 0), "2 days");
    assert_eq!(human_duration(15 * 24 * 3600, 0), "2 weeks");
    assert_eq!(human_duration(90 * 24 * 3600, 0), "3 months");
    assert_eq!(human_duration(3 * 365 * 24 * 3600, 0), "3 years");
    assert_eq!(format_time_delta(false, 120, 0), "2 minutes ago");
    assert_eq!(format_time_delta(true, 21 * 365 * 24 * 3600, 0), "Forever");
}
