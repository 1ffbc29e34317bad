use artnet_smoother::binary64::Double;
use artnet_smoother::config::{Mode, SmootherConfig, UnknownPolicy};
use artnet_smoother::duration::{Duration, Instant};
use artnet_smoother::engine::{start_engine, Engine, FixedIntervalEngine, SyncDelayEngine};
use artnet_smoother::intervals::{duration_to_milli_hz, smooth_interval};
use artnet_smoother::pacing::{wait_for_gap, wait_to_forward, wait_until, PaceAction, Pacer, WaitAction};
use artnet_smoother::receive::{Event, Packet};
use artnet_smoother::slots::{slot_offset, spacing};
use artnet_smoother::stats::Stats;

const MILLI: u128 = 1_000_000;

fn at(nanos: u128) -> Instant {
    Instant { nanos }
}

fn packet(byte: u8, nanos: u128) -> Packet {
    Packet { bytes: vec![byte], received_at: at(nanos) }
}

fn packets(bytes: &[u8]) -> Vec<Packet> {
    bytes.iter().map(|byte| packet(*byte, 0)).collect()
}

fn bytes_of(packets: &[Packet]) -> Vec<u8> {
    packets.iter().map(|packet| packet.bytes[0]).collect()
}

fn settings(mode: Mode) -> SmootherConfig {
    SmootherConfig {
        mode,
        fps: Double { bits: 40f64.to_bits() },
        stats: false,
        universes: None,
        min_packet_gap: None,
        unknown_policy: UnknownPolicy::Forward,
    }
}

/// Sends a frame on a clock that the waits move, and notes what went out when.
fn run(pacer: &mut Pacer, mut now: u128, cost: u128, stats: &mut Stats) -> Vec<(u8, u128)> {
    let mut sent = Vec::new();
    loop {
        match pacer.next(at(now)) {
            PaceAction::Wait(WaitAction::Sleep(span)) => now += span.nanos,
            PaceAction::Wait(WaitAction::Yield) => now += 10_000,
            PaceAction::Wait(WaitAction::Spin) => now += 100,
            PaceAction::Wait(WaitAction::Done) => unreachable!(),
            PaceAction::Send => {
                sent.push((pacer.payload()[0], now));
                now += cost;
                pacer.sent(at(now), stats);
            }
            PaceAction::Done => {
                pacer.finish(at(now), stats);
                return sent;
            }
        }
    }
}

#[test]
fn waiting_sleeps_then_yields_then_spins() {
    let deadline = at(10_000_000);
    assert_eq!(
        wait_until(deadline, at(0)),
        WaitAction::Sleep(Duration::from_millis(8))
    );
    assert_eq!(
        wait_until(deadline, at(7_999_999)),
        WaitAction::Sleep(Duration { nanos: 1 })
    );
    assert_eq!(wait_until(deadline, at(8_000_000)), WaitAction::Yield);
    assert_eq!(wait_until(deadline, at(9_849_999)), WaitAction::Yield);
    assert_eq!(wait_until(deadline, at(9_850_000)), WaitAction::Spin);
    assert_eq!(wait_until(deadline, at(9_999_999)), WaitAction::Spin);
    assert_eq!(wait_until(deadline, deadline), WaitAction::Done);
    assert_eq!(wait_until(deadline, at(10_000_001)), WaitAction::Done);
}

#[test]
fn a_gap_follows_the_last_packet() {
    let gap = Duration::from_micros(500);
    assert_eq!(wait_for_gap(gap, &Some(at(7))), Some(at(500_007)));
    assert_eq!(wait_for_gap(gap, &None), None);
    assert_eq!(wait_for_gap(Duration::zero(), &Some(at(7))), None);
}

#[test]
fn a_packet_that_is_sent_on_waits_for_the_gap() {
    let gap = Duration::from_millis(3);
    let last = Some(at(10 * MILLI));
    assert_eq!(
        wait_to_forward(gap, &last, at(10 * MILLI)),
        WaitAction::Sleep(Duration::from_millis(1))
    );
    assert_eq!(wait_to_forward(gap, &last, at(11 * MILLI)), WaitAction::Yield);
    assert_eq!(wait_to_forward(gap, &last, at(13 * MILLI - 1)), WaitAction::Spin);
    assert_eq!(wait_to_forward(gap, &last, at(13 * MILLI)), WaitAction::Done);
    assert_eq!(wait_to_forward(gap, &None, at(0)), WaitAction::Done);
    assert_eq!(wait_to_forward(Duration::zero(), &last, at(0)), WaitAction::Done);
}

#[test]
fn a_frame_keeps_the_gap_to_what_is_sent_on() {
    let mut stats = Stats { queued_packets: 2, ..Stats::default() };
    let gap = Duration::from_millis(3);
    let mut pacer = Pacer::new(
        packets(&[1, 2]),
        None,
        Duration::from_millis(10),
        gap,
        None,
        at(0),
    );
    assert_eq!(pacer.next(at(0)), PaceAction::Send);
    assert_eq!(pacer.payload(), &[1]);
    pacer.sent(at(0), &mut stats);

    // Another packet goes out shortly before the second slot.
    assert_eq!(wait_to_forward(gap, &pacer.last_send_at, at(4 * MILLI)), WaitAction::Done);
    pacer.noted(at(4 * MILLI));
    assert_eq!(pacer.last_send_at, Some(at(4 * MILLI)));
    assert_eq!(pacer.next(at(5 * MILLI)), PaceAction::Wait(WaitAction::Yield));
    assert_eq!(pacer.next(at(7 * MILLI)), PaceAction::Send);
    assert_eq!(pacer.payload(), &[2]);
    pacer.sent(at(7 * MILLI), &mut stats);
    assert_eq!(stats.queued_packets, 0);
    assert_eq!(
        wait_to_forward(gap, &pacer.last_send_at, at(9 * MILLI)),
        WaitAction::Yield
    );
}

#[test]
fn slots_divide_the_interval() {
    let interval = Duration::from_millis(25);
    let apart = spacing(interval, 5);
    assert_eq!(apart, Duration::from_millis(5));
    assert_eq!(slot_offset(interval, apart, 5, 0), Duration::zero());
    assert_eq!(slot_offset(interval, apart, 5, 4), Duration::from_millis(20));
    assert_eq!(spacing(interval, 3).nanos, 8_333_333);
    assert_eq!(spacing(Duration { nanos: 1 }, 2).nanos, 1);
    assert_eq!(spacing(Duration { nanos: 1 }, 3).nanos, 0);
    assert_eq!(spacing(Duration { nanos: 3 }, 2).nanos, 1);
}

#[test]
fn slots_come_in_order_and_within_the_interval() {
    for (nanos, count) in [(25 * MILLI, 7usize), (16_666_667, 170), (1_000_003, 1_000), (0, 3)] {
        let interval = Duration { nanos };
        let apart = spacing(interval, count);
        let whole = count as u128;
        assert!((whole * apart.nanos).abs_diff(nanos) * 2 <= whole);
        let mut last = 0;
        for index in 0..count {
            let slot = slot_offset(interval, apart, count, index).nanos;
            assert_eq!(slot, index as u128 * apart.nanos);
            assert!(last <= slot && slot <= nanos);
            last = slot;
        }
    }
    let crowded = Duration { nanos: 2 };
    assert_eq!(slot_offset(crowded, spacing(crowded, 4), 4, 3).nanos, 3);
}

#[test]
fn long_intervals_are_shared_evenly_too() {
    let parts = 1u128 << 53;
    for nanos in [1u128 << 49, (1 << 60) + 12_345, (1 << 80) + 1, 9_000_000_000_000_000_000_000_000_000] {
        for count in [1usize, 3, 170, 65_537] {
            let interval = Duration { nanos };
            let apart = spacing(interval, count);
            for index in [0, 1, count / 2, count - 1] {
                if index >= count {
                    continue;
                }
                let slot = slot_offset(interval, apart, count, index).nanos;
                let share = nanos / count as u128 * index as u128;
                let slack = 2 * (index as u128 + 1) + share / parts * 12 + 12;
                assert!(slot.abs_diff(share) <= slack, "{nanos} {count} {index}");
            }
        }
    }
    let days = Duration { nanos: 1 << 49 };
    let apart = spacing(days, 1_000);
    assert_eq!(slot_offset(days, apart, 1_000, 999).nanos, 999 * apart.nanos);
}

#[test]
fn a_frame_is_spread_with_its_sync_behind() {
    let mut stats = Stats { queued_packets: 6, ..Stats::default() };
    let interval = Duration::from_millis(25);
    let mut pacer = Pacer::new(
        packets(&[1, 2, 3, 4, 5]),
        Some(packet(9, 0)),
        interval,
        Duration::zero(),
        None,
        at(100 * MILLI),
    );
    let sent = run(&mut pacer, 100 * MILLI, 0, &mut stats);
    let expected: Vec<(u8, u128)> = vec![
        (1, 100 * MILLI),
        (2, 105 * MILLI),
        (3, 110 * MILLI),
        (4, 115 * MILLI),
        (5, 120 * MILLI),
        (9, 125 * MILLI),
    ];
    assert_eq!(sent, expected);
    assert_eq!(pacer.last_send_at, Some(at(125 * MILLI)));
    assert_eq!(
        stats,
        Stats { output_packets: 6, queued_packets: 1, ..Stats::default() }
    );
}

#[test]
fn a_frame_without_sync_takes_its_interval() {
    let mut stats = Stats { queued_packets: 2, ..Stats::default() };
    let mut pacer = Pacer::new(
        packets(&[1, 2]),
        None,
        Duration::from_millis(10),
        Duration::zero(),
        None,
        at(0),
    );
    assert_eq!(run(&mut pacer, 0, 0, &mut stats), vec![(1, 0), (2, 5 * MILLI)]);
    let state = pacer.next(at(10 * MILLI - 1));
    assert_eq!(state, PaceAction::Wait(WaitAction::Spin));
    assert_eq!(pacer.next(at(10 * MILLI)), PaceAction::Done);
    assert_eq!(stats, Stats { output_packets: 2, ..Stats::default() });
}

#[test]
fn a_gap_longer_than_the_slots_is_kept() {
    let gap = 8 * MILLI;
    let mut stats = Stats { queued_packets: 3, ..Stats::default() };
    let mut pacer = Pacer::new(
        packets(&[1, 2, 3]),
        Some(packet(9, 0)),
        Duration::from_millis(12),
        Duration { nanos: gap },
        Some(at(95 * MILLI)),
        at(100 * MILLI),
    );
    let sent = run(&mut pacer, 100 * MILLI, 0, &mut stats);
    assert_eq!(
        sent,
        vec![(1, 103 * MILLI), (2, 111 * MILLI), (3, 119 * MILLI), (9, 127 * MILLI)]
    );
    assert_eq!(stats.late_frames, 1);
    assert_eq!(stats.output_packets, 4);
    assert_eq!(stats.queued_packets, 0);
}

#[test]
fn the_gap_counts_from_when_a_packet_had_been_sent() {
    let mut stats = Stats { queued_packets: 2, ..Stats::default() };
    let mut pacer = Pacer::new(
        packets(&[1, 2]),
        None,
        Duration::from_millis(2),
        Duration::from_millis(3),
        None,
        at(0),
    );
    let sent = run(&mut pacer, 0, 300, &mut stats);
    assert_eq!(sent, vec![(1, 0), (2, 3 * MILLI + 300)]);
}

#[test]
fn a_frame_is_late_after_another_millisecond() {
    let mut stats = Stats::default();
    let pacer = Pacer::new(
        packets(&[1]),
        None,
        Duration::from_millis(10),
        Duration::zero(),
        None,
        at(5),
    );
    pacer.finish(at(11 * MILLI + 5), &mut stats);
    assert_eq!(stats.late_frames, 0);
    pacer.finish(at(11 * MILLI + 6), &mut stats);
    assert_eq!(stats.late_frames, 1);
}

#[test]
fn sync_without_a_frame_goes_out_at_once() {
    let mut stats = Stats::default();
    let mut pacer = Pacer::new(
        Vec::new(),
        Some(packet(9, 0)),
        Duration::from_millis(25),
        Duration::from_millis(1),
        Some(at(0)),
        at(100),
    );
    assert_eq!(run(&mut pacer, 100, 0, &mut stats), vec![(9, MILLI)]);
    assert_eq!(pacer.next(at(MILLI)), PaceAction::Done);
    pacer.finish(at(1_000 * MILLI), &mut stats);
    assert_eq!(stats, Stats { output_packets: 1, ..Stats::default() });
}

#[test]
fn sync_without_a_frame_does_not_mind_the_interval() {
    let mut stats = Stats::default();
    let mut pacer = Pacer::new(
        Vec::new(),
        Some(packet(9, 0)),
        Duration { nanos: u64::MAX as u128 * 1_000_000_000 },
        Duration::zero(),
        None,
        at(10),
    );
    assert_eq!(run(&mut pacer, 10, 0, &mut stats), vec![(9, 10)]);
    assert_eq!(stats, Stats { output_packets: 1, ..Stats::default() });
}

#[test]
fn an_empty_frame_is_over_at_once() {
    let pacer = Pacer::new(
        Vec::new(),
        None,
        Duration::from_millis(25),
        Duration::from_millis(1),
        Some(at(10)),
        at(10),
    );
    assert_eq!(pacer.next(at(10)), PaceAction::Done);
}

#[test]
fn sync_completes_frames_in_order() {
    let mut stats = Stats::default();
    let mut engine = SyncDelayEngine::new(Duration::from_millis(25));
    assert!(engine.on_event(Event::Dmx(packet(1, 10)), &mut stats).is_none());
    assert!(engine.on_event(Event::Dmx(packet(2, 20)), &mut stats).is_none());

    let frame = engine.on_event(Event::Sync(packet(3, 30)), &mut stats).unwrap();
    assert_eq!(bytes_of(&frame.packets), vec![1, 2]);
    assert_eq!(frame.sync.unwrap().bytes, vec![3]);
    assert_eq!(frame.interval, Duration::from_millis(25));
    assert_eq!(stats.frame_rate_milli_hz, 0);

    assert!(engine.on_event(Event::Dmx(packet(4, 40)), &mut stats).is_none());
    let frame = engine
        .on_event(Event::Sync(packet(5, 30 + 20 * MILLI)), &mut stats)
        .unwrap();
    assert_eq!(bytes_of(&frame.packets), vec![4]);
    assert_eq!(frame.sync.unwrap().bytes, vec![5]);
    assert_eq!(frame.interval, Duration::from_millis(24));
    assert_eq!(stats, Stats { frame_rate_milli_hz: 41_667, ..Stats::default() });

    let frame = engine
        .on_event(Event::Sync(packet(6, 31 + 20 * MILLI)), &mut stats)
        .unwrap();
    assert_eq!(frame.packets.len(), 0);
    assert_eq!(frame.sync.unwrap().bytes, vec![6]);
    assert_eq!(frame.interval, Duration::from_millis(24));
}

#[test]
fn nothing_is_lost_between_frames() {
    let mut stats = Stats::default();
    let mut engine = SyncDelayEngine::new(Duration::from_millis(25));
    let mut out = Vec::new();
    let mut frames = 0;
    for byte in 0..=200u8 {
        let received = packet(byte, byte as u128 * 3 * MILLI);
        let event = if byte % 7 == 3 {
            Event::Sync(received)
        } else {
            Event::Dmx(received)
        };
        if let Some(frame) = engine.on_event(event, &mut stats) {
            out.extend(bytes_of(&frame.packets));
            out.extend(frame.sync.unwrap().bytes);
            frames += 1;
        }
    }
    out.extend(bytes_of(&engine.current_frame));
    assert_eq!(out, (0..=200u8).collect::<Vec<u8>>());
    assert_eq!(frames, 29);
}

#[test]
fn the_interval_approaches_a_new_rate() {
    let mut stats = Stats::default();
    let mut engine = SyncDelayEngine::new(Duration::from_millis(25));
    let mut expected = Duration::from_millis(25);
    for k in 0..60u128 {
        let frame = engine
            .on_event(Event::Sync(packet(0, k * 10 * MILLI)), &mut stats)
            .unwrap();
        if k > 0 {
            let next = smooth_interval(expected, Duration::from_millis(10));
            assert!(next.nanos <= expected.nanos && next.nanos >= 10 * MILLI);
            expected = next;
            assert_eq!(stats.frame_rate_milli_hz, duration_to_milli_hz(expected));
        }
        assert_eq!(frame.interval, expected);
    }
    assert!(expected.nanos - 10 * MILLI < 100);
}

#[test]
fn a_fixed_interval_collects_dmx_only() {
    let mut stats = Stats::default();
    let mut engine = FixedIntervalEngine::new(Duration::from_millis(25), at(1_000), &mut stats);
    assert_eq!(stats, Stats { frame_rate_milli_hz: 40_000, ..Stats::default() });
    assert_eq!(engine.timeout(at(1_000)), Duration::from_millis(25));
    assert_eq!(engine.timeout(at(25 * MILLI)), Duration { nanos: 1_000 });
    assert_eq!(engine.timeout(at(26 * MILLI)), Duration::zero());

    engine.on_event(Event::Dmx(packet(1, 0)));
    engine.on_event(Event::Sync(packet(2, 0)));
    engine.on_event(Event::Dmx(packet(3, 0)));
    let frame = engine.on_timeout();
    assert_eq!(bytes_of(&frame.packets), vec![1, 3]);
    assert!(frame.sync.is_none());
    assert_eq!(frame.interval, Duration::from_millis(25));
    assert_eq!(engine.on_timeout().packets.len(), 0);
}

#[test]
fn a_fixed_interval_skips_what_is_over() {
    let mut stats = Stats::default();
    let mut engine = FixedIntervalEngine::new(Duration::from_millis(25), at(0), &mut stats);
    engine.flushed();
    assert_eq!(engine.next_flush, at(50 * MILLI));
    assert!(!engine.catch_up(at(0), &mut stats));
    assert!(!engine.catch_up(at(50 * MILLI), &mut stats));
    assert!(!engine.catch_up(at(75 * MILLI - 1), &mut stats));
    assert_eq!(engine.next_flush, at(50 * MILLI));
    assert_eq!(stats.late_frames, 0);
    let now = at(130 * MILLI);
    let mut skipped = 0;
    while engine.catch_up(now, &mut stats) {
        skipped += 1;
    }
    assert_eq!(skipped, 3);
    assert_eq!(stats.late_frames, 3);
    assert_eq!(engine.next_flush, at(125 * MILLI));
    assert!(engine.catch_up(at(150 * MILLI), &mut stats));
    assert_eq!(engine.next_flush, at(150 * MILLI));
    assert_eq!(stats.late_frames, 4);
}

#[test]
fn frames_on_time_keep_the_rate() {
    let mut stats = Stats::default();
    let interval = Duration::from_millis(25);
    let mut engine = FixedIntervalEngine::new(interval, at(0), &mut stats);
    let mut now = 0;
    for k in 1..=200u128 {
        engine.on_event(Event::Dmx(packet(k as u8, now)));
        stats.count_queued();
        now += engine.timeout(at(now)).nanos;
        assert_eq!(now, k * 25 * MILLI);
        let frame = engine.on_timeout();
        let mut pacer = Pacer::new(
            frame.packets,
            frame.sync,
            frame.interval,
            Duration::zero(),
            None,
            at(now),
        );
        assert_eq!(run(&mut pacer, now, 0, &mut stats), vec![(k as u8, now)]);
        now += interval.nanos;
        engine.flushed();
        assert!(!engine.catch_up(at(now), &mut stats));
    }
    assert_eq!(stats.late_frames, 0);
    assert_eq!(stats.output_packets, 200);
    assert_eq!(stats.queued_packets, 0);
}

#[test]
fn modes_have_their_engines() {
    for mode in [Mode::Spread, Mode::FixedFps] {
        let mut stats = Stats::default();
        match start_engine(&settings(mode), at(5), &mut stats) {
            Engine::FixedInterval(engine) => {
                assert_eq!(engine.interval, Duration::from_millis(25));
                assert_eq!(engine.next_flush, at(25 * MILLI + 5));
                assert!(engine.current_frame.is_empty());
            }
            other => panic!("{other:?}"),
        }
        assert_eq!(stats.frame_rate_milli_hz, 40_000);
    }
    let mut stats = Stats::default();
    match start_engine(&settings(Mode::SyncDelay), at(5), &mut stats) {
        Engine::SyncDelay(engine) => {
            assert_eq!(engine.interval, Duration::from_millis(25));
            assert_eq!(engine.last_sync_at, None);
            assert!(engine.current_frame.is_empty());
        }
        other => panic!("{other:?}"),
    }
    let engine = start_engine(&settings(Mode::Passthrough), at(5), &mut stats);
    assert!(matches!(engine, Engine::Idle));
    assert_eq!(stats, Stats::default());
}
