use artnet_smoother::artnet::{ARTNET_ID, OP_DMX, OP_POLL, OP_SYNC};
use artnet_smoother::binary64::Double;
use artnet_smoother::config::{Mode, SmootherConfig, UnknownPolicy};
use artnet_smoother::duration::{Duration, Instant};
use artnet_smoother::engine::{start_engine, Engine, Frame};
use artnet_smoother::pacing::{wait_to_forward, PaceAction, Pacer, WaitAction};
use artnet_smoother::receive::{
    receive_buffered, receive_passthrough, Event, ReceiveAction,
};
use artnet_smoother::stats::Stats;
use std::collections::VecDeque;

const STEP: u128 = 50_000;

fn at(nanos: u128) -> Instant {
    Instant { nanos }
}

fn datagram(opcode: u16, number: u16) -> Vec<u8> {
    let mut packet = vec![0u8; 20];
    packet[..8].copy_from_slice(&ARTNET_ID);
    packet[8..10].copy_from_slice(&opcode.to_le_bytes());
    packet[17] = 2;
    packet[18..20].copy_from_slice(&number.to_le_bytes());
    packet
}

/// A proxy on a clock that ticks; one datagram comes in at each tick of its own schedule.
struct Simulation {
    config: SmootherConfig,
    stats: Stats,
    now: u128,
    engine: Engine,
    queue: VecDeque<Event>,
    pacer: Option<Pacer>,
    waiting: VecDeque<Vec<u8>>,
    last: Option<Instant>,
    received: Vec<Vec<u8>>,
    sent: Vec<(Vec<u8>, u128, bool)>,
    starts: Vec<u128>,
}

impl Simulation {
    fn new(mode: Mode, gap_us: u64) -> Simulation {
        let config = SmootherConfig {
            mode,
            fps: Double { bits: 100f64.to_bits() },
            stats: false,
            universes: None,
            min_packet_gap: Some(Duration::from_micros(gap_us)),
            unknown_policy: UnknownPolicy::Forward,
        };
        let mut stats = Stats::default();
        let engine = start_engine(&config, at(0), &mut stats);
        Simulation {
            config,
            stats,
            now: 0,
            engine,
            queue: VecDeque::new(),
            pacer: None,
            waiting: VecDeque::new(),
            last: None,
            received: Vec::new(),
            sent: Vec::new(),
            starts: Vec::new(),
        }
    }

    fn send(&mut self, bytes: Vec<u8>, at_once: bool) {
        self.stats.count_output();
        self.sent.push((bytes, self.now, at_once));
        self.last = Some(at(self.now));
        if let Some(pacer) = &mut self.pacer {
            pacer.noted(at(self.now));
        }
    }

    fn receive(&mut self, bytes: Vec<u8>) {
        let action = if self.config.mode == Mode::Passthrough {
            receive_passthrough(&bytes, &self.config, &mut self.stats)
        } else {
            receive_buffered(&bytes, at(self.now), &self.config, &mut self.stats)
        };
        self.received.push(bytes.clone());
        match action {
            ReceiveAction::ForwardAtOnce => self.send(bytes, true),
            ReceiveAction::Forward => self.waiting.push_back(bytes),
            ReceiveAction::Queue(event) => self.queue.push_back(event),
            ReceiveAction::Ignore | ReceiveAction::Drop => {}
        }
    }

    fn begin(&mut self, frame: Frame) {
        self.starts.push(self.now);
        self.pacer = Some(Pacer::new(
            frame.packets,
            frame.sync,
            frame.interval,
            self.config.min_gap(),
            self.last,
            at(self.now),
        ));
    }

    fn tick(&mut self) {
        let now = at(self.now);
        if wait_to_forward(self.config.min_gap(), &self.last, now) == WaitAction::Done {
            if let Some(bytes) = self.waiting.pop_front() {
                self.send(bytes, false);
            }
        }
        if let Some(mut pacer) = self.pacer.take() {
            match pacer.next(now) {
                PaceAction::Send => {
                    let bytes = pacer.payload().to_vec();
                    pacer.sent(now, &mut self.stats);
                    self.last = Some(now);
                    self.sent.push((bytes, self.now, false));
                    self.pacer = Some(pacer);
                }
                PaceAction::Wait(_) => self.pacer = Some(pacer),
                PaceAction::Done => {
                    pacer.finish(now, &mut self.stats);
                    if let Engine::FixedInterval(engine) = &mut self.engine {
                        engine.flushed();
                        while engine.catch_up(now, &mut self.stats) {}
                    }
                }
            }
        }
        if self.pacer.is_none() {
            let mut frame = None;
            match &mut self.engine {
                Engine::SyncDelay(engine) => {
                    while let Some(event) = self.queue.pop_front() {
                        frame = engine.on_event(event, &mut self.stats);
                        if frame.is_some() {
                            break;
                        }
                    }
                }
                Engine::FixedInterval(engine) => {
                    while let Some(event) = self.queue.pop_front() {
                        engine.on_event(event);
                    }
                    if engine.timeout(now).is_zero() {
                        frame = Some(engine.on_timeout());
                    }
                }
                Engine::Idle => {}
            }
            if let Some(frame) = frame {
                self.begin(frame);
            }
        }
        self.now += STEP;
    }

    /// The ArtDmx packets that wait.
    fn depth(&self) -> usize {
        let queued = self.queue.iter().filter(|event| matches!(event, Event::Dmx(_))).count();
        let held = match &self.engine {
            Engine::SyncDelay(engine) => engine.current_frame.len(),
            Engine::FixedInterval(engine) => engine.current_frame.len(),
            Engine::Idle => 0,
        };
        let unsent = match &self.pacer {
            Some(pacer) => pacer.frame.len() - pacer.sent,
            None => 0,
        };
        queued + held + unsent
    }

    /// Half a second of traffic in bursts, and another half of silence.
    fn play(mode: Mode, gap_us: u64) -> Simulation {
        let mut simulation = Simulation::new(mode, gap_us);
        let mut number = 0;
        let mut deepest = 0;
        for tick in 0..20_000 {
            let burst = tick % 200;
            if tick < 10_000 {
                let opcode = match burst {
                    0..=8 => Some(OP_DMX),
                    9 => Some(OP_SYNC),
                    60 | 61 | 130 => Some(OP_POLL),
                    90 => Some(0x6000),
                    _ => None,
                };
                if let Some(opcode) = opcode {
                    simulation.receive(datagram(opcode, number));
                    number += 1;
                }
            }
            assert_eq!(simulation.stats.queued_packets, simulation.depth());
            simulation.tick();
            assert_eq!(simulation.stats.queued_packets, simulation.depth());
            deepest = deepest.max(simulation.depth());
        }
        assert_eq!(deepest > 0, mode != Mode::Passthrough);
        simulation
    }

    fn opcode(bytes: &[u8]) -> u16 {
        u16::from_le_bytes([bytes[8], bytes[9]])
    }
}

#[test]
fn a_proxy_sends_what_it_received_once() {
    for mode in [Mode::Passthrough, Mode::Spread, Mode::SyncDelay, Mode::FixedFps] {
        let done = Simulation::play(mode, 300);
        let mut sent: Vec<Vec<u8>> = done.sent.iter().map(|sent| sent.0.clone()).collect();
        let mut received: Vec<Vec<u8>> = done.received.clone();
        if mode == Mode::FixedFps {
            received.retain(|bytes| Simulation::opcode(bytes) != OP_SYNC);
        }
        sent.sort();
        received.sort();
        assert_eq!(sent, received, "{mode:?}");
        assert_eq!(done.stats.queued_packets, 0);
        assert_eq!(done.stats.dropped_packets, 0);
    }
}

#[test]
fn a_proxy_keeps_the_gap_between_all_it_sends() {
    for mode in [Mode::Spread, Mode::SyncDelay, Mode::FixedFps] {
        let done = Simulation::play(mode, 300);
        for pair in done.sent.windows(2) {
            let (bytes, time, at_once) = &pair[1];
            assert!(*at_once || *time >= pair[0].1 + 300_000, "{mode:?}");
            assert!(!at_once || mode == Mode::Spread && Simulation::opcode(bytes) == OP_SYNC);
        }
    }
}

#[test]
fn a_proxy_at_a_fixed_rate_is_not_late() {
    for mode in [Mode::Spread, Mode::FixedFps] {
        let done = Simulation::play(mode, 0);
        let expected: Vec<u128> = (1..100).map(|k| k * 10_000_000).collect();
        assert_eq!(done.starts, expected);
        assert_eq!(done.stats.late_frames, 0);
    }
}

#[test]
fn the_counters_of_a_proxy_count_its_traffic() {
    for mode in [Mode::Passthrough, Mode::Spread, Mode::SyncDelay, Mode::FixedFps] {
        let done = Simulation::play(mode, 300);
        let of = |opcode| {
            let matching = done.received.iter().filter(|bytes| Simulation::opcode(bytes) == opcode);
            matching.count() as u64
        };
        assert_eq!(done.stats.input_packets, done.received.len() as u64);
        assert_eq!(done.stats.output_packets, done.sent.len() as u64);
        assert_eq!(done.stats.input_dmx, of(OP_DMX));
        assert_eq!(done.stats.input_sync, of(OP_SYNC));
        assert_eq!(done.stats.input_dmx, 450);
        assert_eq!(done.stats.input_sync, 50);
    }
}
