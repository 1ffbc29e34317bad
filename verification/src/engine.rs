//! Which packets make a frame, and when frames go out.

use crate::config::{Mode, SmootherConfig};
use crate::duration;
use crate::duration::{Duration, Instant, CLOCK_LIMIT};
use crate::intervals;
use crate::intervals::{duration_to_milli_hz, frame_interval, smooth_interval};
use crate::pacing;
use crate::pacing::{PaceAction, Pacer};
use crate::receive::{Event, Packet};
use crate::stats::Stats;
use vstd::prelude::*;

verus! {

/// A frame that is complete, and the interval that it is spread over.
#[derive(Debug)]
pub struct Frame {
    pub packets: Vec<Packet>,
    pub sync: Option<Packet>,
    pub interval: Duration,
}

/// What a frame is made of.
pub struct FrameView {
    pub packets: Seq<Packet>,
    pub sync: Option<Packet>,
    pub interval: Duration,
}

impl FrameView {
    /// The packets of the frame, in the order in which they go out.
    pub open spec fn outgoing(self) -> Seq<Packet> {
        match self.sync {
            Some(sync) => self.packets.push(sync),
            None => self.packets,
        }
    }
}

impl View for Frame {
    type V = FrameView;

    open spec fn view(&self) -> FrameView {
        FrameView { packets: self.packets@, sync: self.sync, interval: self.interval }
    }
}

/// Takes the packets that have been collected, and leaves none.
fn take_packets(packets: &mut Vec<Packet>) -> (r: Vec<Packet>)
    ensures
        r@ == old(packets)@,
        final(packets)@ == Seq::<Packet>::empty(),
{
    let mut taken: Vec<Packet> = Vec::new();
    std::mem::swap(packets, &mut taken);
    taken
}

/// Collects ArtDmx until ArtSync completes the frame. The interval follows the time between
/// ArtSync packets.
#[derive(Debug)]
pub struct SyncDelayEngine {
    pub current_frame: Vec<Packet>,
    pub last_sync_at: Option<Instant>,
    pub interval: Duration,
}

/// What an engine that waits for ArtSync has seen.
pub struct SyncDelayView {
    pub packets: Seq<Packet>,
    pub last_sync_at: Option<Instant>,
    pub interval: Duration,
}

impl View for SyncDelayEngine {
    type V = SyncDelayView;

    open spec fn view(&self) -> SyncDelayView {
        SyncDelayView {
            packets: self.current_frame@,
            last_sync_at: self.last_sync_at,
            interval: self.interval,
        }
    }
}

impl SyncDelayView {
    /// The interval of a frame that an ArtSync packet completes at a point in time.
    pub open spec fn interval_at(self, received_at: Instant) -> Duration {
        match self.last_sync_at {
            Some(previous) => intervals::smoothed(
                self.interval,
                duration::since(received_at, previous),
            ),
            None => self.interval,
        }
    }

    /// What has been seen after one more packet.
    pub open spec fn after(self, event: Event) -> SyncDelayView {
        match event {
            Event::Dmx(packet) => SyncDelayView { packets: self.packets.push(packet), ..self },
            Event::Sync(packet) => SyncDelayView {
                packets: Seq::empty(),
                last_sync_at: Some(packet.received_at),
                interval: self.interval_at(packet.received_at),
            },
        }
    }

    /// The frame that a packet completes.
    pub open spec fn completed_by(self, event: Event) -> Option<FrameView> {
        match event {
            Event::Dmx(_) => None,
            Event::Sync(packet) => Some(
                FrameView {
                    packets: self.packets,
                    sync: Some(packet),
                    interval: self.interval_at(packet.received_at),
                },
            ),
        }
    }

    /// The counters after a packet: the second ArtSync packet and those behind it give a new frame
    /// rate.
    pub open spec fn stats_after(self, event: Event, stats: Stats) -> Stats {
        match (event, self.last_sync_at) {
            (Event::Sync(packet), Some(_)) => stats.with_frame_rate(
                intervals::milli_hz(self.interval_at(packet.received_at)),
            ),
            _ => stats,
        }
    }

    /// What has been seen after many more packets.
    pub open spec fn after_all(self, events: Seq<Event>) -> SyncDelayView
        decreases events.len(),
    {
        if events.len() == 0 {
            self
        } else {
            self.after_all(events.drop_last()).after(events.last())
        }
    }

    /// The frames that many more packets complete.
    pub open spec fn frames(self, events: Seq<Event>) -> Seq<FrameView>
        decreases events.len(),
    {
        if events.len() == 0 {
            Seq::empty()
        } else {
            let before = self.frames(events.drop_last());
            match self.after_all(events.drop_last()).completed_by(events.last()) {
                Some(frame) => before.push(frame),
                None => before,
            }
        }
    }
}

impl SyncDelayEngine {
    /// Starts with an interval and no packet.
    pub fn new(default_interval: Duration) -> (r: SyncDelayEngine)
        ensures
            r@ == (SyncDelayView {
                packets: Seq::empty(),
                last_sync_at: None,
                interval: default_interval,
            }),
            r.current_frame@.len() == 0,
            r.last_sync_at is None,
            r.interval == default_interval,
    {
        SyncDelayEngine { current_frame: Vec::new(), last_sync_at: None, interval: default_interval }
    }

    /// Takes in a packet, and hands out the frame that it completes.
    pub fn on_event(&mut self, event: Event, stats: &mut Stats) -> (r: Option<Frame>)
        requires
            old(self).interval.wf(),
        ensures
            final(self).interval.wf(),
            final(self)@ == old(self)@.after(event),
            match r {
                Some(frame) => old(self)@.completed_by(event) == Some(frame@),
                None => old(self)@.completed_by(event) is None,
            },
            *final(stats) == old(self)@.stats_after(event, *old(stats)),
            event matches Event::Dmx(packet) ==> {
                &&& r is None
                &&& final(self).current_frame@ == old(self).current_frame@.push(packet)
                &&& final(self).last_sync_at == old(self).last_sync_at
                &&& final(self).interval == old(self).interval
                &&& *final(stats) == *old(stats)
            },
            event matches Event::Sync(sync) ==> {
                &&& r matches Some(frame) && frame.packets@ == old(self).current_frame@ && frame.sync
                    == Some(sync) && frame.interval == final(self).interval
                &&& final(self).current_frame@.len() == 0
                &&& final(self).last_sync_at == Some(sync.received_at)
                &&& match old(self).last_sync_at {
                    None => final(self).interval == old(self).interval && *final(stats) == *old(stats),
                    Some(previous) => {
                        let observed = sync.received_at.nanos - previous.nanos;
                        &&& observed >= 0 ==> final(self).interval == intervals::smoothed(
                            old(self).interval,
                            Duration { nanos: observed as u128 },
                        )
                        &&& !(2_000_000 <= observed <= 1_000_000_000) ==> final(self).interval == old(
                            self,
                        ).interval
                        &&& 2_000_000 <= observed <= 1_000_000_000 && old(self).interval.nanos
                            <= 0x4000_0000_0000 ==> final(self).interval.nanos == (8 * old(
                            self,
                        ).interval.nanos + 5) / 10 + (2 * observed + 5) / 10
                        &&& *final(stats) == (Stats {
                            frame_rate_milli_hz: final(stats).frame_rate_milli_hz,
                            ..*old(stats)
                        })
                        &&& final(stats).frame_rate_milli_hz == intervals::milli_hz(final(self).interval)
                    },
                }
            },
    {
        match event {
            Event::Dmx(packet) => {
                self.current_frame.push(packet);
                None
            },
            Event::Sync(sync) => {
                let received_at = sync.received_at;
                if let Some(previous) = self.last_sync_at {
                    self.interval = smooth_interval(
                        self.interval,
                        received_at.saturating_duration_since(previous),
                    );
                    stats.frame_rate_milli_hz = duration_to_milli_hz(self.interval);
                }
                self.last_sync_at = Some(received_at);
                let packets = take_packets(&mut self.current_frame);
                Some(Frame { packets, sync: Some(sync), interval: self.interval })
            },
        }
    }
}

/// Collects ArtDmx, and completes a frame whenever an interval has passed.
#[derive(Debug)]
pub struct FixedIntervalEngine {
    pub current_frame: Vec<Packet>,
    pub interval: Duration,
    pub next_flush: Instant,
}

/// What an engine that keeps an interval has seen.
pub struct FixedIntervalView {
    pub packets: Seq<Packet>,
    pub interval: Duration,
    pub next_flush: Instant,
}

impl View for FixedIntervalEngine {
    type V = FixedIntervalView;

    open spec fn view(&self) -> FixedIntervalView {
        FixedIntervalView {
            packets: self.current_frame@,
            interval: self.interval,
            next_flush: self.next_flush,
        }
    }
}

impl FixedIntervalView {
    /// The clock reaches the end of the next interval.
    pub open spec fn can_advance(self) -> bool {
        self.next_flush.nanos + self.interval.nanos < CLOCK_LIMIT
    }

    /// What has been seen after one more packet; ArtSync counts for nothing.
    pub open spec fn after(self, event: Event) -> FixedIntervalView {
        match event {
            Event::Dmx(packet) => FixedIntervalView { packets: self.packets.push(packet), ..self },
            Event::Sync(_) => self,
        }
    }

    /// The frame that is complete when the interval has passed.
    pub open spec fn frame(self) -> FrameView {
        FrameView { packets: self.packets, sync: None, interval: self.interval }
    }

    /// What is left when the frame has been handed out.
    pub open spec fn emptied(self) -> FixedIntervalView {
        FixedIntervalView { packets: Seq::empty(), ..self }
    }

    /// What is left after packets have come in and waits for one have run out; a wait that ran out
    /// is no packet. Between them the engine may move on to later intervals, which leaves the
    /// packets alone.
    pub open spec fn after_all(self, inputs: Seq<Option<Event>>) -> FixedIntervalView
        decreases inputs.len(),
    {
        if inputs.len() == 0 {
            self
        } else {
            let before = self.after_all(inputs.drop_last());
            match inputs.last() {
                Some(event) => before.after(event),
                None => before.emptied(),
            }
        }
    }

    /// The frames that are handed out meanwhile.
    pub open spec fn frames(self, inputs: Seq<Option<Event>>) -> Seq<FrameView>
        decreases inputs.len(),
    {
        if inputs.len() == 0 {
            Seq::empty()
        } else {
            let before = self.frames(inputs.drop_last());
            match inputs.last() {
                Some(_) => before,
                None => before.push(self.after_all(inputs.drop_last()).frame()),
            }
        }
    }

    /// The same, an interval later.
    pub open spec fn advanced(self) -> FixedIntervalView {
        FixedIntervalView {
            next_flush: Instant { nanos: (self.next_flush.nanos + self.interval.nanos) as u128 },
            ..self
        }
    }

    /// The interval after the next flush is over too: there is no time left to send a frame in it.
    pub open spec fn is_behind(self, now: Instant) -> bool {
        self.next_flush.nanos + self.interval.nanos <= now.nanos
    }

    /// The intervals that are over after the next flush.
    pub open spec fn intervals_over(self, now: Instant) -> nat {
        if now.nanos < self.next_flush.nanos {
            0
        } else {
            ((now.nanos - self.next_flush.nanos) / self.interval.nanos as int) as nat
        }
    }

    /// The same after one look at the clock: an interval later where it is behind.
    pub open spec fn caught_up(self, now: Instant) -> FixedIntervalView {
        if self.is_behind(now) {
            self.advanced()
        } else {
            self
        }
    }

    /// The counters after one look at the clock: an interval that is skipped is a late frame.
    pub open spec fn stats_caught_up(self, now: Instant, stats: Stats) -> Stats {
        if self.is_behind(now) {
            stats.with_late_frame()
        } else {
            stats
        }
    }

    /// The same, and the counters, after so many looks at a clock that stands still.
    pub open spec fn caught_up_by(self, now: Instant, stats: Stats, count: nat) -> (
        FixedIntervalView,
        Stats,
    )
        decreases count,
    {
        if count == 0 {
            (self, stats)
        } else {
            let (engine, counted) = self.caught_up_by(now, stats, (count - 1) as nat);
            (engine.caught_up(now), engine.stats_caught_up(now, counted))
        }
    }

    /// The same, and the counters, after frames have been handed out and sent, each by a point in
    /// time at which the clock was looked at once.
    pub open spec fn after_frames(self, ends: Seq<Instant>, stats: Stats) -> (
        FixedIntervalView,
        Stats,
    )
        decreases ends.len(),
    {
        if ends.len() == 0 {
            (self, stats)
        } else {
            let (engine, counted) = self.after_frames(ends.drop_last(), stats);
            let flushed = engine.emptied().advanced();
            (flushed.caught_up(ends.last()), flushed.stats_caught_up(ends.last(), counted))
        }
    }

    /// The same, so many intervals later.
    pub open spec fn advanced_by(self, count: nat) -> FixedIntervalView
        decreases count,
    {
        if count == 0 {
            self
        } else {
            self.advanced_by((count - 1) as nat).advanced()
        }
    }
}

impl FixedIntervalEngine {
    /// Starts with an interval, the first of which ends when it has passed.
    pub fn new(interval: Duration, now: Instant, stats: &mut Stats) -> (r: FixedIntervalEngine)
        requires
            now.nanos + interval.nanos < CLOCK_LIMIT,
        ensures
            r@ == (FixedIntervalView {
                packets: Seq::empty(),
                interval,
                next_flush: Instant { nanos: (now.nanos + interval.nanos) as u128 },
            }),
            *final(stats) == old(stats).with_frame_rate(intervals::milli_hz(interval)),
            r.current_frame@.len() == 0,
            r.interval == interval,
            r.next_flush.nanos == now.nanos + interval.nanos,
            *final(stats) == (Stats {
                frame_rate_milli_hz: final(stats).frame_rate_milli_hz,
                ..*old(stats)
            }),
            final(stats).frame_rate_milli_hz == intervals::milli_hz(interval),
    {
        stats.frame_rate_milli_hz = duration_to_milli_hz(interval);
        FixedIntervalEngine {
            current_frame: Vec::new(),
            interval,
            next_flush: Instant { nanos: now.nanos + interval.nanos },
        }
    }

    /// How long to wait for a packet before the frame is complete.
    pub fn timeout(&self, now: Instant) -> (r: Duration)
        ensures
            r == duration::since(self.next_flush, now),
            now.nanos <= self.next_flush.nanos ==> now.nanos + r.nanos == self.next_flush.nanos,
            now.nanos > self.next_flush.nanos ==> r.nanos == 0,
    {
        self.next_flush.saturating_duration_since(now)
    }

    /// Takes in a packet.
    pub fn on_event(&mut self, event: Event)
        ensures
            final(self)@ == old(self)@.after(event),
            final(self).interval == old(self).interval,
            final(self).next_flush == old(self).next_flush,
            event matches Event::Dmx(packet) ==> final(self).current_frame@ == old(
                self,
            ).current_frame@.push(packet),
            event is Sync ==> final(self).current_frame@ == old(self).current_frame@,
    {
        match event {
            Event::Dmx(packet) => {
                self.current_frame.push(packet);
            },
            Event::Sync(_) => {},
        }
    }

    /// Hands out the frame when the wait for a packet has run out.
    pub fn on_timeout(&mut self) -> (r: Frame)
        ensures
            r@ == old(self)@.frame(),
            final(self)@ == old(self)@.emptied(),
            r.packets@ == old(self).current_frame@,
            r.sync is None,
            r.interval == old(self).interval,
            final(self).current_frame@.len() == 0,
            final(self).interval == old(self).interval,
            final(self).next_flush == old(self).next_flush,
    {
        let packets = take_packets(&mut self.current_frame);
        Frame { packets, sync: None, interval: self.interval }
    }

    /// Moves on to the next interval when the frame has been sent.
    pub fn flushed(&mut self)
        requires
            old(self)@.can_advance(),
        ensures
            final(self)@ == old(self)@.advanced(),
            final(self).next_flush.nanos == old(self).next_flush.nanos + old(self).interval.nanos,
            final(self).interval == old(self).interval,
            final(self).current_frame@ == old(self).current_frame@,
    {
        self.next_flush = Instant { nanos: self.next_flush.nanos + self.interval.nanos };
    }

    /// Skips an interval that is wholly over, and counts a late frame for it. Tells whether there
    /// was one.
    pub fn catch_up(&mut self, now: Instant, stats: &mut Stats) -> (r: bool)
        ensures
            r == old(self)@.is_behind(now),
            final(self)@ == old(self)@.caught_up(now),
            *final(stats) == old(self)@.stats_caught_up(now, *old(stats)),
            r <==> old(self).next_flush.nanos + old(self).interval.nanos <= now.nanos,
            final(self).next_flush.nanos == old(self).next_flush.nanos + (if r {
                old(self).interval.nanos as int
            } else {
                0
            }),
            final(self).interval == old(self).interval,
            final(self).current_frame@ == old(self).current_frame@,
            *final(stats) == (Stats {
                late_frames: if r {
                    old(stats).late_frames.wrapping_add(1)
                } else {
                    old(stats).late_frames
                },
                ..*old(stats)
            }),
    {
        if now.nanos < self.next_flush.nanos || now.nanos - self.next_flush.nanos
            < self.interval.nanos {
            return false;
        }
        stats.count_late_frame();
        self.next_flush = Instant { nanos: self.next_flush.nanos + self.interval.nanos };
        true
    }
}

/// The engine of a mode.
#[derive(Debug)]
pub enum Engine {
    FixedInterval(FixedIntervalEngine),
    SyncDelay(SyncDelayEngine),
    /// Nothing is held back.
    Idle,
}

/// What the engine of a mode has seen.
pub enum EngineView {
    FixedInterval(FixedIntervalView),
    SyncDelay(SyncDelayView),
    Idle,
}

impl View for Engine {
    type V = EngineView;

    open spec fn view(&self) -> EngineView {
        match *self {
            Engine::FixedInterval(engine) => EngineView::FixedInterval(engine@),
            Engine::SyncDelay(engine) => EngineView::SyncDelay(engine@),
            Engine::Idle => EngineView::Idle,
        }
    }
}

/// Starts the engine of a mode.
pub fn start_engine(config: &SmootherConfig, now: Instant, stats: &mut Stats) -> (r: Engine)
    requires
        config.mode != Mode::Passthrough ==> intervals::is_rate(config.fps),
        config.mode == Mode::Spread || config.mode == Mode::FixedFps ==> now.nanos
            + intervals::frame_nanos(config.fps) < CLOCK_LIMIT,
    ensures
        match config.mode {
            Mode::Spread | Mode::FixedFps => {
                &&& r matches Engine::FixedInterval(engine)
                &&& engine@.packets == Seq::<Packet>::empty()
                &&& engine@.interval.nanos == intervals::frame_nanos(config.fps)
                &&& engine@.next_flush.nanos == now.nanos + intervals::frame_nanos(config.fps)
                &&& engine.current_frame@.len() == 0
                &&& engine.interval.nanos == intervals::frame_nanos(config.fps)
                &&& engine.next_flush.nanos == now.nanos + intervals::frame_nanos(config.fps)
                &&& *final(stats) == (Stats {
                    frame_rate_milli_hz: final(stats).frame_rate_milli_hz,
                    ..*old(stats)
                })
                &&& final(stats).frame_rate_milli_hz == intervals::milli_hz(engine.interval)
                &&& *final(stats) == old(stats).with_frame_rate(intervals::milli_hz(engine@.interval))
            },
            Mode::SyncDelay => {
                &&& r matches Engine::SyncDelay(engine)
                &&& engine@.packets == Seq::<Packet>::empty()
                &&& engine@.last_sync_at is None
                &&& engine@.interval.nanos == intervals::frame_nanos(config.fps)
                &&& engine.interval.wf()
                &&& engine.current_frame@.len() == 0
                &&& engine.last_sync_at is None
                &&& engine.interval.nanos == intervals::frame_nanos(config.fps)
                &&& *final(stats) == *old(stats)
            },
            Mode::Passthrough => r is Idle && *final(stats) == *old(stats),
        },
{
    match config.mode {
        Mode::Spread | Mode::FixedFps => Engine::FixedInterval(
            FixedIntervalEngine::new(frame_interval(config.fps), now, stats),
        ),
        Mode::SyncDelay => Engine::SyncDelay(SyncDelayEngine::new(frame_interval(config.fps))),
        Mode::Passthrough => Engine::Idle,
    }
}

/// The packets that came in.
pub open spec fn packets_of(events: Seq<Event>) -> Seq<Packet>
    decreases events.len(),
{
    if events.len() == 0 {
        Seq::empty()
    } else {
        match events.last() {
            Event::Dmx(packet) => packets_of(events.drop_last()).push(packet),
            Event::Sync(packet) => packets_of(events.drop_last()).push(packet),
        }
    }
}

/// The ArtSync packets among what came in.
pub open spec fn sync_packets(events: Seq<Event>) -> Seq<Packet>
    decreases events.len(),
{
    if events.len() == 0 {
        Seq::empty()
    } else {
        match events.last() {
            Event::Dmx(_) => sync_packets(events.drop_last()),
            Event::Sync(packet) => sync_packets(events.drop_last()).push(packet),
        }
    }
}

/// The ArtDmx packets among what came in.
pub open spec fn dmx_packets(inputs: Seq<Option<Event>>) -> Seq<Packet>
    decreases inputs.len(),
{
    if inputs.len() == 0 {
        Seq::empty()
    } else {
        match inputs.last() {
            Some(Event::Dmx(packet)) => dmx_packets(inputs.drop_last()).push(packet),
            _ => dmx_packets(inputs.drop_last()),
        }
    }
}

/// The packets of frames as they go out, one frame after the other.
pub open spec fn outgoing_of(frames: Seq<FrameView>) -> Seq<Packet>
    decreases frames.len(),
{
    if frames.len() == 0 {
        Seq::empty()
    } else {
        outgoing_of(frames.drop_last()) + frames.last().outgoing()
    }
}

/// With ArtSync no packet is lost, repeated or moved: the frames that have been handed out, each
/// with its ArtSync packet behind it, and the packets that are still held are what came in, in the
/// order in which it came.
pub proof fn law_output_keeps_arrival_order(engine: SyncDelayView, events: Seq<Event>)
    ensures
        outgoing_of(engine.frames(events)) + engine.after_all(events).packets == engine.packets
            + packets_of(events),
    decreases events.len(),
{
    if events.len() == 0 {
        assert(outgoing_of(engine.frames(events)) + engine.packets =~= engine.packets + packets_of(
            events,
        ));
    } else {
        let front = events.drop_last();
        law_output_keeps_arrival_order(engine, front);
        let before = engine.frames(front);
        let held = engine.after_all(front).packets;
        let sent = outgoing_of(before);
        match events.last() {
            Event::Dmx(packet) => {
                assert(sent + held.push(packet) =~= (sent + held).push(packet));
                assert((engine.packets + packets_of(front)).push(packet) =~= engine.packets
                    + packets_of(front).push(packet));
            },
            Event::Sync(packet) => {
                let frame = engine.after_all(front).completed_by(events.last())->0;
                assert(before.push(frame).drop_last() =~= before);
                assert(sent + held.push(packet) + Seq::<Packet>::empty() =~= (sent + held).push(packet));
                assert((engine.packets + packets_of(front)).push(packet) =~= engine.packets
                    + packets_of(front).push(packet));
            },
        }
    }
}

/// Every ArtSync packet completes one frame and is the one that goes out with it.
pub proof fn law_every_sync_completes_a_frame(engine: SyncDelayView, events: Seq<Event>)
    ensures
        engine.frames(events).len() == sync_packets(events).len(),
        forall|k: int|
            0 <= k < sync_packets(events).len() ==> (#[trigger] engine.frames(events)[k]).sync == Some(
                sync_packets(events)[k],
            ),
    decreases events.len(),
{
    if events.len() > 0 {
        law_every_sync_completes_a_frame(engine, events.drop_last());
    }
}

/// Where an interval is kept, no ArtDmx packet is lost, repeated or moved: the frames that have
/// been handed out and the packets that are still held are the ArtDmx packets that came in, in the
/// order in which they came. ArtSync is in none of them.
pub proof fn law_fixed_interval_keeps_dmx_order(
    engine: FixedIntervalView,
    inputs: Seq<Option<Event>>,
)
    ensures
        outgoing_of(engine.frames(inputs)) + engine.after_all(inputs).packets == engine.packets
            + dmx_packets(inputs),
        engine.after_all(inputs).interval == engine.interval,
        forall|k: int|
            0 <= k < engine.frames(inputs).len() ==> {
                &&& (#[trigger] engine.frames(inputs)[k]).sync is None
                &&& engine.frames(inputs)[k].interval == engine.interval
            },
    decreases inputs.len(),
{
    if inputs.len() == 0 {
        assert(outgoing_of(engine.frames(inputs)) + engine.packets =~= engine.packets + dmx_packets(
            inputs,
        ));
    } else {
        let front = inputs.drop_last();
        law_fixed_interval_keeps_dmx_order(engine, front);
        let before = engine.frames(front);
        let held = engine.after_all(front).packets;
        let sent = outgoing_of(before);
        match inputs.last() {
            Some(Event::Dmx(packet)) => {
                assert(sent + held.push(packet) =~= (sent + held).push(packet));
                assert((engine.packets + dmx_packets(front)).push(packet) =~= engine.packets
                    + dmx_packets(front).push(packet));
            },
            Some(Event::Sync(_)) => {},
            None => {
                let frame = engine.after_all(front).frame();
                assert(before.push(frame).drop_last() =~= before);
                assert(sent + held + Seq::<Packet>::empty() =~= sent + held);
            },
        }
    }
}

/// Frames end on a grid: so many intervals later means exactly that, however late the engine was
/// in between.
pub proof fn law_flushes_stay_on_grid(engine: FixedIntervalView, count: nat)
    requires
        engine.next_flush.nanos + count * engine.interval.nanos < CLOCK_LIMIT,
    ensures
        engine.advanced_by(count).next_flush.nanos == engine.next_flush.nanos + count
            * engine.interval.nanos,
        engine.advanced_by(count).interval == engine.interval,
        engine.advanced_by(count).packets == engine.packets,
    decreases count,
{
    let step = engine.interval.nanos as nat;
    if count == 0 {
        assert(count * step == 0) by (nonlinear_arith)
            requires
                count == 0,
        ;
    } else {
        let before = (count - 1) as nat;
        assert(count * step == before * step + step) by (nonlinear_arith)
            requires
                count == before + 1,
        ;
        law_flushes_stay_on_grid(engine, before);
    }
}

/// An engine that is behind skips the intervals that are wholly over, no more and no fewer, and
/// each is counted as a late frame: every look at the clock up to that number finds one, and every
/// later look finds none. It is then not behind, and no more than an interval after its flush.
pub proof fn law_catching_up_skips_what_is_over(
    engine: FixedIntervalView,
    now: Instant,
    stats: Stats,
    count: nat,
)
    requires
        engine.interval.nanos > 0,
        now.wf(),
    ensures
        ({
            let over = engine.intervals_over(now);
            let (after, counted) = engine.caught_up_by(now, stats, count);
            let skipped = if count < over {
                count
            } else {
                over
            };
            &&& after == engine.advanced_by(skipped)
            &&& after.next_flush.nanos == engine.next_flush.nanos + skipped * engine.interval.nanos
            &&& after.is_behind(now) <==> count < over
            &&& counted.late_frames == (stats.late_frames + skipped) % (u64::MAX + 1)
            &&& counted == (Stats { late_frames: counted.late_frames, ..stats })
        }),
    decreases count,
{
    let step = engine.interval.nanos as int;
    let over = engine.intervals_over(now);
    let skipped = if count < over {
        count
    } else {
        over
    };
    let behind = now.nanos - engine.next_flush.nanos;
    assert(over * step <= behind < (over + 1) * step || over == 0 && behind < 0) by {
        if behind >= 0 {
            vstd::arithmetic::div_mod::lemma_fundamental_div_mod(behind, step);
            let rest = behind % step;
            assert(over * step == behind - rest && (over + 1) * step == behind - rest + step)
                by (nonlinear_arith)
                requires
                    behind == step * over + rest,
            ;
        }
    }
    assert(skipped * step <= over * step) by (nonlinear_arith)
        requires
            skipped <= over,
            step > 0,
    ;
    assert(over == 0 ==> over * step == 0);
    assert((skipped + 1) * step == skipped * step + step && (over + 1) * step == over * step + step)
        by (nonlinear_arith);
    if skipped < over {
        assert((skipped + 1) * step <= over * step) by (nonlinear_arith)
            requires
                skipped + 1 <= over,
                step > 0,
        ;
    }
    if over > 0 {
        law_flushes_stay_on_grid(engine, skipped);
    }
    if count == 0 {
        vstd::arithmetic::div_mod::lemma_small_mod(stats.late_frames as nat, (u64::MAX + 1) as nat);
    } else {
        let before = (count - 1) as nat;
        law_catching_up_skips_what_is_over(engine, now, stats, before);
        pacing::lemma_mod_step(stats.late_frames + before, u64::MAX + 1);
    }
}

/// A frame that is sent on time is not late, and the next one begins exactly one interval after it:
/// a frame that begins at its flush or a little later, and takes its interval and no longer, is
/// followed by one that begins at its end. Where it takes longer, the next begins then, and nothing
/// is skipped unless the interval after the next flush is over as well. A frame without packets is
/// over at once, and the next begins at the next flush.
pub proof fn law_frames_on_time_keep_the_rate(
    engine: FixedIntervalView,
    pacer: Pacer,
    end: Instant,
    stats: Stats,
)
    requires
        engine.can_advance(),
        pacer.wf(),
        pacer.frame@ == engine.frame().packets,
        pacer.interval == engine.frame().interval,
        engine.next_flush.nanos <= pacer.start.nanos <= end.nanos,
        pacer.action_at(end) == PaceAction::Done,
        end.nanos < engine.next_flush.nanos + 2 * engine.interval.nanos,
    ensures
        ({
            let (next, counted) = engine.after_frames(seq![end], stats);
            let begin = end.nanos + duration::since(next.next_flush, end).nanos;
            &&& next == engine.emptied().advanced()
            &&& next.next_flush.nanos == engine.next_flush.nanos + engine.interval.nanos
            &&& counted == stats
            &&& end.nanos <= pacer.start.nanos + engine.interval.nanos ==> !pacer.is_late(end)
            &&& engine.packets.len() > 0 ==> begin == end.nanos && begin >= pacer.start.nanos
                + engine.interval.nanos
            &&& end.nanos <= next.next_flush.nanos ==> begin == next.next_flush.nanos
        }),
{
    let ends = seq![end];
    assert(ends.drop_last() =~= Seq::<Instant>::empty());
    assert(engine.after_frames(ends.drop_last(), stats) == (engine, stats));
}

/// Frames that are sent on time keep the rate for as long as one likes: so many frames later the
/// flush is so many intervals later, and no late frame has been counted.
pub proof fn law_rate_is_kept(engine: FixedIntervalView, ends: Seq<Instant>, stats: Stats)
    requires
        engine.next_flush.nanos + ends.len() * engine.interval.nanos < CLOCK_LIMIT,
        forall|k: int|
            0 <= k < ends.len() ==> (#[trigger] ends[k]).nanos < engine.next_flush.nanos + (k + 2)
                * engine.interval.nanos,
    ensures
        ({
            let (after, counted) = engine.after_frames(ends, stats);
            &&& after.next_flush.nanos == engine.next_flush.nanos + ends.len() * engine.interval.nanos
            &&& after.interval == engine.interval
            &&& counted == stats
        }),
    decreases ends.len(),
{
    let step = engine.interval.nanos as int;
    if ends.len() == 0 {
        assert(0 * step == 0);
    } else {
        let front = ends.drop_last();
        let n = front.len() as int;
        assert((n + 1) * step == n * step + step && (n + 2) * step == n * step + 2 * step)
            by (nonlinear_arith);
        assert(n * step >= 0) by (nonlinear_arith)
            requires
                n >= 0,
                step >= 0,
        ;
        assert forall|k: int| 0 <= k < front.len() implies (#[trigger] front[k]).nanos
            < engine.next_flush.nanos + (k + 2) * engine.interval.nanos by {
            assert(front[k] == ends[k]);
        }
        law_rate_is_kept(engine, front, stats);
        assert(ends[n].nanos < engine.next_flush.nanos + (n + 2) * engine.interval.nanos);
    }
}

/// The interval follows the time between ArtSync packets, slower or faster: the one after a packet
/// that came a reasonable time after the one before, from two milliseconds to a second, is four
/// fifths of the interval so far and a fifth of that time, each to the nearest nanosecond. After any
/// other time, and after the first packet, it is unchanged. The frame that the packet completes has
/// that interval, and the rate that is shown is the one of that interval.
pub proof fn law_interval_follows_sync(engine: SyncDelayView, sync: Packet, stats: Stats)
    requires
        engine.interval.nanos <= 0x4000_0000_0000,
    ensures
        ({
            let after = engine.after(Event::Sync(sync));
            let counted = engine.stats_after(Event::Sync(sync), stats);
            &&& engine.completed_by(Event::Sync(sync)) matches Some(frame) && frame.interval
                == after.interval
            &&& match engine.last_sync_at {
                None => after.interval == engine.interval && counted == stats,
                Some(previous) => {
                    let observed = sync.received_at.nanos - previous.nanos;
                    &&& 2_000_000 <= observed <= 1_000_000_000 ==> after.interval.nanos == (8
                        * engine.interval.nanos + 5) / 10 + (2 * observed + 5) / 10
                    &&& !(2_000_000 <= observed <= 1_000_000_000) ==> after.interval == engine.interval
                    &&& counted == (Stats {
                        frame_rate_milli_hz: counted.frame_rate_milli_hz,
                        ..stats
                    })
                    &&& after.interval.nanos == 0 ==> counted.frame_rate_milli_hz == 0
                    &&& after.interval.nanos > 0 ==> 2 * (counted.frame_rate_milli_hz
                        * after.interval.nanos) <= 2_000_000_000_000 + after.interval.nanos
                        && 2_000_000_000_000 <= 2 * (counted.frame_rate_milli_hz
                        * after.interval.nanos) + after.interval.nanos
                },
            }
        }),
{
    if let Some(previous) = engine.last_sync_at {
        let observed = duration::since(sync.received_at, previous);
        intervals::law_smoothing_in_numbers(engine.interval, observed);
        let after = engine.after(Event::Sync(sync)).interval;
        intervals::law_shown_rate_in_numbers(after);
    }
}

/// What an engine that waits for ArtSync keeps: ArtDmx is held in order and changes nothing else, and
/// ArtSync empties the engine into a frame and is noted with its time.
pub proof fn law_sync_empties_the_engine(engine: SyncDelayView, packet: Packet, stats: Stats)
    ensures
        engine.after(Event::Dmx(packet)) == (SyncDelayView {
            packets: engine.packets.push(packet),
            last_sync_at: engine.last_sync_at,
            interval: engine.interval,
        }),
        engine.completed_by(Event::Dmx(packet)) is None,
        engine.stats_after(Event::Dmx(packet), stats) == stats,
        engine.after(Event::Sync(packet)).packets.len() == 0,
        engine.after(Event::Sync(packet)).last_sync_at == Some(packet.received_at),
        engine.completed_by(Event::Sync(packet)) matches Some(frame) && frame.packets == engine.packets
            && frame.sync == Some(packet),
{
}

/// What an engine that keeps an interval does: ArtDmx is held in order, ArtSync counts for nothing,
/// the frame is what is held, and the next flush is one interval later.
pub proof fn law_interval_engine_in_numbers(engine: FixedIntervalView, packet: Packet)
    requires
        engine.next_flush.nanos + engine.interval.nanos <= u128::MAX,
    ensures
        engine.after(Event::Dmx(packet)) == (FixedIntervalView {
            packets: engine.packets.push(packet),
            interval: engine.interval,
            next_flush: engine.next_flush,
        }),
        engine.after(Event::Sync(packet)) == engine,
        engine.frame() == (FrameView {
            packets: engine.packets,
            sync: None,
            interval: engine.interval,
        }),
        engine.emptied() == (FixedIntervalView {
            packets: Seq::empty(),
            interval: engine.interval,
            next_flush: engine.next_flush,
        }),
        engine.advanced().next_flush.nanos == engine.next_flush.nanos + engine.interval.nanos,
        engine.advanced().packets == engine.packets,
        engine.advanced().interval == engine.interval,
{
}

/// The engine can move on exactly if the clock reaches the end of the next interval, and it is behind
/// exactly if that end has come.
pub proof fn law_end_of_the_next_interval(engine: FixedIntervalView, now: Instant)
    ensures
        engine.can_advance() <==> engine.next_flush.nanos + engine.interval.nanos
            < 0x8000_0000_0000_0000 * 1_000_000_000,
        engine.is_behind(now) <==> engine.next_flush.nanos + engine.interval.nanos <= now.nanos,
        engine.is_behind(now) ==> engine.caught_up(now).next_flush.nanos == engine.next_flush.nanos
            + engine.interval.nanos,
        !engine.is_behind(now) ==> engine.caught_up(now) == engine,
{
}

} // verus!
