use artnet_smoother::binary64::{Binary64, Double};
use artnet_smoother::duration::Duration;
use artnet_smoother::intervals::{
    duration_to_milli_hz, frame_interval, has_frame_interval, smooth_interval,
};
use artnet_smoother::slots::{slot_offset, spacing};

fn rate(fps: f64) -> Double {
    Double { bits: fps.to_bits() }
}

fn std_of(span: Duration) -> std::time::Duration {
    let secs = (span.nanos / 1_000_000_000) as u64;
    let nanos = (span.nanos % 1_000_000_000) as u32;
    std::time::Duration::new(secs, nanos)
}

fn own_of(span: std::time::Duration) -> Duration {
    Duration { nanos: span.as_nanos() }
}

struct Random(u64);

impl Random {
    fn next(&mut self) -> u64 {
        self.0 ^= self.0 << 13;
        self.0 ^= self.0 >> 7;
        self.0 ^= self.0 << 17;
        self.0
    }

    /// A number of a random number of bits.
    fn sized(&mut self, bits: u32) -> u64 {
        let shift = 64 - bits + (self.next() % bits as u64) as u32;
        self.next() >> shift
    }
}

#[test]
fn frame_interval_uses_fractional_fps() {
    let interval = frame_interval(rate(60.0));
    assert!((std_of(interval).as_secs_f64() - 0.016666).abs() < 0.0001);
}

#[test]
fn smooth_interval_filters_unreasonable_observations() {
    let previous = Duration::from_millis(25);
    assert_eq!(
        smooth_interval(previous, Duration::from_micros(100)),
        previous
    );
    assert_eq!(smooth_interval(previous, Duration::from_secs(2)), previous);
}

#[test]
fn smooth_interval_moves_a_fifth_of_the_way() {
    let previous = Duration::from_millis(25);
    assert_eq!(
        smooth_interval(previous, Duration::from_millis(20)),
        Duration::from_millis(24)
    );
    assert_eq!(
        smooth_interval(previous, Duration::from_millis(2)).nanos,
        20_400_000
    );
    assert_eq!(
        smooth_interval(previous, Duration::from_secs(1)),
        Duration::from_millis(220)
    );
    assert_eq!(smooth_interval(previous, Duration { nanos: 1_999_999 }), previous);
    assert_eq!(smooth_interval(previous, Duration { nanos: 1_000_000_001 }), previous);
}

#[test]
fn a_steady_interval_stays() {
    for nanos in 2_000_000..2_000_050u128 {
        let interval = Duration { nanos };
        assert_eq!(smooth_interval(interval, interval), interval);
    }
}

#[test]
fn smooth_interval_agrees_with_floating_point() {
    let mut random = Random(7);
    for _ in 0..50_000 {
        let previous = std::time::Duration::new(random.sized(64), (random.next() % 1_000_000_000) as u32);
        let observed = std::time::Duration::from_nanos(2_000_000 + random.next() % 998_000_001);
        let expected = previous.mul_f64(0.8) + observed.mul_f64(0.2);
        let got = smooth_interval(own_of(previous), own_of(observed));
        assert_eq!(std_of(got), expected);
    }
}

#[test]
fn frame_interval_has_exact_values() {
    assert_eq!(frame_interval(rate(40.0)), Duration::from_millis(25));
    assert_eq!(frame_interval(rate(60.0)).nanos, 16_666_667);
    assert_eq!(frame_interval(rate(1e10)).nanos, 0);
    assert_eq!(frame_interval(rate(f64::MAX)).nanos, 0);
}

#[test]
fn frame_interval_agrees_with_floating_point() {
    let mut random = Random(11);
    let mut finite = 0;
    for _ in 0..100_000 {
        let fps = f64::from_bits(random.next() >> 1);
        if !fps.is_finite() || fps <= 0.0 {
            assert!(!rate(fps).is_positive_finite());
            continue;
        }
        match std::time::Duration::try_from_secs_f64(1.0 / fps) {
            Ok(expected) => {
                assert!(has_frame_interval(rate(fps)));
                assert_eq!(std_of(frame_interval(rate(fps))), expected);
                finite += 1;
            }
            Err(_) => assert!(!has_frame_interval(rate(fps))),
        }
        let fps = random.sized(40) as f64 / 1000.0;
        if fps > 0.0 {
            let expected = std::time::Duration::from_secs_f64(1.0 / fps);
            assert_eq!(std_of(frame_interval(rate(fps))), expected);
        }
    }
    assert!(finite > 1000);
}

#[test]
fn slow_rates_have_no_interval() {
    assert!(has_frame_interval(rate(5.5e-20)));
    assert!(!has_frame_interval(rate(5.4e-20)));
    assert!(!has_frame_interval(rate(5e-324)));
}

#[test]
fn milli_hz_has_exact_values() {
    assert_eq!(duration_to_milli_hz(Duration::zero()), 0);
    assert_eq!(duration_to_milli_hz(Duration::from_millis(25)), 40_000);
    assert_eq!(duration_to_milli_hz(Duration { nanos: 16_666_667 }), 60_000);
    assert_eq!(duration_to_milli_hz(Duration { nanos: 1 }), 1_000_000_000_000);
    assert_eq!(duration_to_milli_hz(Duration::from_secs(2000)), 1);
    assert_eq!(duration_to_milli_hz(Duration::from_secs(2001)), 0);
}

#[test]
fn milli_hz_agrees_with_floating_point() {
    let mut random = Random(13);
    for _ in 0..100_000 {
        let span = std::time::Duration::from_nanos(1 + random.sized(50));
        let expected = (1000.0 / span.as_secs_f64()).round() as u64;
        assert_eq!(duration_to_milli_hz(own_of(span)), expected);
    }
}

#[test]
fn the_shown_rate_is_the_rate() {
    let mut random = Random(23);
    for _ in 0..50_000 {
        let fps = 1.0 + 499.0 * (random.next() >> 11) as f64 / (1u64 << 53) as f64;
        let shown = duration_to_milli_hz(frame_interval(rate(fps))) as f64;
        assert!((shown - 1000.0 * fps).abs() <= 1.0, "{fps}");
    }
    assert_eq!(duration_to_milli_hz(frame_interval(rate(1.0))), 1_000);
    assert_eq!(duration_to_milli_hz(frame_interval(rate(29.97))), 29_970);
    assert_eq!(duration_to_milli_hz(frame_interval(rate(500.0))), 500_000);
}

#[test]
fn longer_intervals_are_slower() {
    let mut random = Random(29);
    let mut spans: Vec<u64> = (0..20_000).map(|_| 1 + random.sized(50)).collect();
    spans.extend(1..5_000);
    spans.sort();
    let mut last = u64::MAX;
    for span in spans {
        let shown = duration_to_milli_hz(Duration { nanos: span as u128 });
        assert!(shown <= last);
        last = shown;
    }
    assert_eq!(duration_to_milli_hz(Duration::zero()), 0);
}

#[test]
fn slots_agree_with_floating_point() {
    let mut random = Random(17);
    for _ in 0..50_000 {
        let interval = std::time::Duration::new(random.sized(63) / 2, (random.next() % 1_000_000_000) as u32);
        let count = 1 + random.sized(20) as usize;
        let index = random.next() as usize % count;
        let apart = interval.div_f64(count as f64);
        assert_eq!(std_of(spacing(own_of(interval), count)), apart);
        let offset = slot_offset(own_of(interval), own_of(apart), count, index);
        assert_eq!(std_of(offset), apart.mul_f64(index as f64));
    }
}

#[test]
fn short_intervals_agree_with_floating_point() {
    for nanos in 0..300u64 {
        for count in 1..40usize {
            let interval = std::time::Duration::from_nanos(nanos);
            let apart = interval.div_f64(count as f64);
            assert_eq!(std_of(spacing(own_of(interval), count)), apart);
            let last = apart.mul_f64((count - 1) as f64);
            assert_eq!(
                std_of(slot_offset(own_of(interval), own_of(apart), count, count - 1)),
                last
            );
        }
    }
}

#[test]
fn integers_become_doubles_as_by_a_cast() {
    let mut random = Random(19);
    for _ in 0..100_000 {
        let n = random.sized(64);
        let got = Binary64::from_integer(n);
        let expected = n as f64;
        let value = got.mantissa as f64 * 2f64.powi(got.exponent as i32 - 1074);
        if n > 0 {
            assert_eq!(value, expected);
        }
    }
}
