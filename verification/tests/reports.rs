use artnet_smoother::stats::{report, Stats, Totals};

fn sample() -> Stats {
    Stats {
        input_packets: 1200,
        output_packets: 1100,
        input_dmx: 900,
        input_sync: 40,
        dropped_packets: 3,
        late_frames: 2,
        queued_packets: 17,
        frame_rate_milli_hz: 39_987,
    }
}

fn shown_rate(milli_hz: u64) -> String {
    let stats = Stats { frame_rate_milli_hz: milli_hz, ..Stats::default() };
    let line = report(&stats, &mut Totals::zero());
    line.rsplit('=').next().unwrap().to_string()
}

#[test]
fn the_first_report_shows_all() {
    let mut last = Totals::zero();
    assert_eq!(
        report(&sample(), &mut last),
        "stats in_pps=1200 out_pps=1100 artdmx_pps=900 artsync_pps=40 dropped=3 late_frames=2 \
         queue_depth=17 est_fps=39.99"
    );
    assert_eq!(last, Totals { input: 1200, output: 1100, dmx: 900, sync: 40 });
}

#[test]
fn later_reports_show_the_growth() {
    let mut last = Totals { input: 1000, output: 1100, dmx: 899, sync: 0 };
    assert!(last.is_before(&sample()));
    assert_eq!(
        report(&sample(), &mut last),
        "stats in_pps=200 out_pps=0 artdmx_pps=1 artsync_pps=40 dropped=3 late_frames=2 \
         queue_depth=17 est_fps=39.99"
    );
    assert_eq!(
        report(&sample(), &mut last),
        "stats in_pps=0 out_pps=0 artdmx_pps=0 artsync_pps=0 dropped=3 late_frames=2 \
         queue_depth=17 est_fps=39.99"
    );
}

#[test]
fn a_counter_that_started_again_is_noticed() {
    let stats = sample();
    let last = Totals { input: 1200, output: 1100, dmx: 900, sync: 40 };
    assert!(last.is_before(&stats));
    assert!(!Totals { input: 1201, ..last }.is_before(&stats));
    assert!(!Totals { output: 1101, ..last }.is_before(&stats));
    assert!(!Totals { dmx: 901, ..last }.is_before(&stats));
    assert!(!Totals { sync: 41, ..last }.is_before(&stats));
}

#[test]
fn large_counters_are_shown_in_full() {
    let stats = Stats {
        input_packets: u64::MAX,
        dropped_packets: u64::MAX,
        queued_packets: usize::MAX,
        ..Stats::default()
    };
    let line = report(&stats, &mut Totals::zero());
    assert_eq!(
        line,
        format!(
            "stats in_pps={} out_pps=0 artdmx_pps=0 artsync_pps=0 dropped={} late_frames=0 \
             queue_depth={} est_fps=0.00",
            u64::MAX,
            u64::MAX,
            usize::MAX
        )
    );
}

#[test]
fn rates_are_shown_with_two_decimals() {
    assert_eq!(shown_rate(0), "0.00");
    assert_eq!(shown_rate(4), "0.00");
    assert_eq!(shown_rate(125), "0.12");
    assert_eq!(shown_rate(375), "0.38");
    assert_eq!(shown_rate(1_005), "1.00");
    assert_eq!(shown_rate(40_000), "40.00");
    assert_eq!(shown_rate(59_995), "59.99");
    assert_eq!(shown_rate(1_000_000_000_000), "1000000000.00");
}

#[test]
fn rates_are_shown_as_floating_point_is() {
    let mut milli_hz = 1u64;
    for step in 0..60_000u64 {
        let small = step;
        assert_eq!(shown_rate(small), format!("{:.2}", small as f64 / 1000.0));
        milli_hz = milli_hz.wrapping_mul(6364136223846793005).wrapping_add(1442695040888963407);
        let large = milli_hz >> (step % 64);
        assert_eq!(shown_rate(large), format!("{:.2}", large as f64 / 1000.0));
    }
    assert_eq!(shown_rate(u64::MAX), format!("{:.2}", u64::MAX as f64 / 1000.0));
}
