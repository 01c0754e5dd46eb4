use find_dupl_file::elapsed::format_duration;
use std::time::Duration;

fn text(d: Duration) -> String {
    format_duration(d.as_secs(), d.subsec_nanos())
}

/// The float rendering that elapsed times are shown with.
fn float_text(d: Duration) -> String {
    let total_millis = d.as_millis();
    if total_millis < 1_000 {
        format!("{}ms", total_millis)
    } else if total_millis < 60_000 {
        format!("{:.1}s", d.as_secs_f64())
    } else {
        format!("{}m{}s", d.as_secs() / 60, d.as_secs() % 60)
    }
}

#[test]
fn durations_below_a_second_are_in_milliseconds() {
    assert_eq!(text(Duration::from_millis(10)), "10ms");
    assert_eq!(text(Duration::from_micros(999_999)), "999ms");
    assert_eq!(text(Duration::ZERO), "0ms");
}

#[test]
fn durations_below_a_minute_have_one_decimal() {
    assert_eq!(text(Duration::from_millis(1_250)), "1.2s");
    assert_eq!(text(Duration::from_millis(1_350)), "1.4s");
    assert_eq!(text(Duration::from_millis(1_050)), "1.1s");
    assert_eq!(text(Duration::from_millis(1_000)), "1.0s");
    assert_eq!(text(Duration::new(59, 999_999_999)), "60.0s");
}

#[test]
fn longer_durations_are_in_minutes_and_seconds() {
    assert_eq!(text(Duration::from_secs(60)), "1m0s");
    assert_eq!(text(Duration::from_secs(185)), "3m5s");
    assert_eq!(text(Duration::new(7_322, 900_000_000)), "122m2s");
}

#[test]
fn format_duration_matches_float_rendering() {
    let mut cases: Vec<Duration> = Vec::new();
    for ms in 0..60_500u64 {
        cases.push(Duration::from_millis(ms));
    }
    let mut x: u64 = 0x2545_F491_4F6C_DD1D;
    for _ in 0..50_000 {
        x ^= x << 13;
        x ^= x >> 7;
        x ^= x << 17;
        let secs = (x >> 32) % 64;
        let nanos = (x as u32) % 1_000_000_000;
        cases.push(Duration::new(secs, nanos));
    }
    for secs in 1..60u64 {
        for tenth in 0..10u32 {
            let tie = tenth * 100_000_000 + 50_000_000;
            for delta in [0u32, 1, 2, 3] {
                cases.push(Duration::new(secs, tie - delta));
                cases.push(Duration::new(secs, tie + delta));
            }
        }
    }
    for d in cases {
        assert_eq!(text(d), float_text(d), "duration {:?}", d);
    }
}
