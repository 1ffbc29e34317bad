//! The proxy as a whole: everything that can happen from the arrival of a datagram to its
//! departure, in terms of what the parts decide.
//!
//! The laws hold of every run that is made of the steps below. A step says what the functions of
//! the other modules return and count, as their contracts have it. That a program takes no other
//! steps, that its clock does not go back and that it sends one datagram at a time is not proved
//! here: it is up to the program that calls these functions, and shows in reading it.

use crate::artnet;
use crate::artnet::PacketKind;
use crate::config::{Mode, SmootherConfig};
use crate::duration::Instant;
use crate::engine::{EngineView, FrameView};
use crate::pacing;
use crate::pacing::{Departure, PaceAction, Pacer, WaitAction};
use crate::receive;
use crate::receive::{Event, Packet, ReceiveAction};
use crate::stats::Stats;
use vstd::prelude::*;
use vstd::multiset::Multiset;

verus! {

/// A datagram that is about to be sent on.
pub struct Waiting {
    pub bytes: Seq<u8>,
    /// Whether it is sent on whatever the gap.
    pub at_once: bool,
}

/// A datagram that has been sent.
pub struct Sent {
    pub bytes: Seq<u8>,
    pub departure: Departure,
}

/// All that a proxy has taken in, holds and has sent.
pub struct ProxyView {
    pub config: SmootherConfig,
    /// The last point in time at which something happened.
    pub clock: Instant,
    /// The datagrams that were read, as they were read.
    pub received: Seq<Seq<u8>>,
    /// The one that is about to be sent on.
    pub waiting: Option<Waiting>,
    /// Those on their way to the engine.
    pub queue: Seq<Event>,
    pub engine: EngineView,
    /// The frame that is being sent.
    pub pacer: Option<Pacer>,
    /// Those that will never be sent.
    pub discarded: Seq<Seq<u8>>,
    pub sent: Seq<Sent>,
    pub stats: Stats,
}

/// What can happen to a proxy.
pub enum Step {
    /// A datagram is read, and `receive_passthrough` or `receive_buffered` says what to do with it.
    Receive { bytes: Seq<u8>, at: Instant, action: ReceiveAction },
    /// A datagram is sent on; where the gap counts, `wait_to_forward` has let it.
    Forward { asked: Instant, sent: Instant },
    /// The engine takes in what is first in the queue; where that completes a frame, `Pacer::new`
    /// starts to send it.
    Take { pacer: Pacer },
    /// The engine's wait for a packet has run out, and `Pacer::new` starts to send the frame.
    Timeout { pacer: Pacer },
    /// The frame has been sent, and the engine moves on to the next interval by
    /// `FixedIntervalEngine::flushed`.
    Advance,
    /// The engine looks whether it is behind, by `FixedIntervalEngine::catch_up`.
    CatchUp { now: Instant },
    /// A packet of the frame is sent; `Pacer::next` has asked for it, after `Pacer::noted` told it
    /// of what else has been sent.
    Send { asked: Instant, sent: Instant },
    /// The frame is over, as `Pacer::next` says.
    Finish { at: Instant },
}

/// The bytes of packets.
pub open spec fn contents(packets: Seq<Packet>) -> Seq<Seq<u8>> {
    packets.map_values(|packet: Packet| packet.bytes@)
}

/// The packet of an event.
pub open spec fn packet_of(event: Event) -> Packet {
    match event {
        Event::Dmx(packet) => packet,
        Event::Sync(packet) => packet,
    }
}

/// The bytes of events.
pub open spec fn event_contents(events: Seq<Event>) -> Seq<Seq<u8>> {
    events.map_values(|event: Event| packet_of(event).bytes@)
}

/// The ArtDmx packets among events.
pub open spec fn dmx_events(events: Seq<Event>) -> nat
    decreases events.len(),
{
    if events.len() == 0 {
        0
    } else if events.last() is Dmx {
        dmx_events(events.drop_last()) + 1
    } else {
        dmx_events(events.drop_last())
    }
}

/// The datagrams of some kinds among those that were read.
pub open spec fn tally(received: Seq<Seq<u8>>, counts: spec_fn(PacketKind) -> bool) -> nat
    decreases received.len(),
{
    if received.len() == 0 {
        0
    } else if counts(artnet::kind_of(received.last())) {
        tally(received.drop_last(), counts) + 1
    } else {
        tally(received.drop_last(), counts)
    }
}

/// The kind is ArtDmx.
pub open spec fn counts_dmx() -> spec_fn(PacketKind) -> bool {
    |kind: PacketKind| kind is ArtDmx
}

/// The kind is ArtSync.
pub open spec fn counts_sync() -> spec_fn(PacketKind) -> bool {
    |kind: PacketKind| kind is ArtSync
}

/// The kind is dropped.
pub open spec fn counts_dropped(config: SmootherConfig) -> spec_fn(PacketKind) -> bool {
    |kind: PacketKind| receive::disposition(kind, config) is Drop
}

/// The bytes of what has been sent.
pub open spec fn outputs(sent: Seq<Sent>) -> Seq<Seq<u8>> {
    sent.map_values(|output: Sent| output.bytes)
}

impl EngineView {
    /// The packets that the engine holds.
    pub open spec fn held(self) -> Seq<Packet> {
        match self {
            EngineView::FixedInterval(engine) => engine.packets,
            EngineView::SyncDelay(engine) => engine.packets,
            EngineView::Idle => Seq::empty(),
        }
    }

    /// What the engine has seen after one more packet.
    pub open spec fn after(self, event: Event) -> EngineView {
        match self {
            EngineView::FixedInterval(engine) => EngineView::FixedInterval(engine.after(event)),
            EngineView::SyncDelay(engine) => EngineView::SyncDelay(engine.after(event)),
            EngineView::Idle => self,
        }
    }

    /// The frame that a packet completes.
    pub open spec fn completed_by(self, event: Event) -> Option<FrameView> {
        match self {
            EngineView::SyncDelay(engine) => engine.completed_by(event),
            _ => None,
        }
    }

    /// The counters after one more packet.
    pub open spec fn stats_after(self, event: Event, stats: Stats) -> Stats {
        match self {
            EngineView::SyncDelay(engine) => engine.stats_after(event, stats),
            _ => stats,
        }
    }

    /// The engine is the one that `start_engine` starts in a mode.
    pub open spec fn fits(self, mode: Mode) -> bool {
        match mode {
            Mode::Spread | Mode::FixedFps => self is FixedInterval,
            Mode::SyncDelay => self is SyncDelay,
            Mode::Passthrough => self is Idle,
        }
    }

    /// The engine has no use for a packet.
    pub open spec fn discards(self, event: Event) -> bool {
        match self {
            EngineView::FixedInterval(_) => event is Sync,
            EngineView::SyncDelay(_) => false,
            EngineView::Idle => true,
        }
    }
}

impl ProxyView {
    /// When the last datagram had been sent, by whichever sender.
    pub open spec fn last_send_at(self) -> Option<Instant> {
        if self.sent.len() == 0 {
            None
        } else {
            Some(self.sent.last().departure.sent())
        }
    }

    /// The frame that is being sent, told of what else has been sent.
    pub open spec fn informed(self, pacer: Pacer) -> Pacer {
        match self.last_send_at() {
            Some(last) => pacer.after_noted(last),
            None => pacer,
        }
    }

    /// Nothing has happened yet.
    pub open spec fn is_fresh(self) -> bool {
        &&& self.config.gap().wf()
        &&& self.received.len() == 0
        &&& self.waiting is None
        &&& self.queue.len() == 0
        &&& self.engine.fits(self.config.mode)
        &&& self.engine.held().len() == 0
        &&& self.stats.input_packets == 0
        &&& self.stats.output_packets == 0
        &&& self.stats.input_dmx == 0
        &&& self.stats.input_sync == 0
        &&& self.stats.dropped_packets == 0
        &&& self.stats.queued_packets == 0
        &&& self.pacer is None
        &&& self.discarded.len() == 0
        &&& self.sent.len() == 0
    }

    /// `Pacer::new` starts to send a frame.
    pub open spec fn starts(self, frame: FrameView, pacer: Pacer) -> bool {
        &&& pacer.wf()
        &&& pacer.frame@ == frame.packets
        &&& pacer.sync == frame.sync
        &&& pacer.interval == frame.interval
        &&& pacer.min_gap == self.config.gap()
        &&& pacer.last_send_at == self.last_send_at()
        &&& pacer.position() == 0
        &&& self.clock.nanos <= pacer.start.nanos
    }

    /// Something can happen next. The clock never goes back, and one datagram is sent at a time.
    pub open spec fn allows(self, step: Step) -> bool {
        match step {
            Step::Receive { bytes, at, action } => {
                &&& self.waiting is None
                &&& self.clock.nanos <= at.nanos
                &&& action.carries_out(
                    receive::disposition(artnet::kind_of(bytes), self.config),
                    bytes,
                    at,
                )
            },
            Step::Forward { asked, sent } => {
                &&& self.waiting matches Some(waiting)
                &&& self.clock.nanos <= asked.nanos <= sent.nanos
                &&& sent.wf()
                &&& waiting.at_once || pacing::gap_step(
                    self.config.gap(),
                    self.last_send_at(),
                    asked,
                ) == WaitAction::Done
            },
            Step::Take { pacer } => {
                &&& self.pacer is None
                &&& self.queue.len() > 0
                &&& self.engine.completed_by(self.queue.first()) matches Some(frame) ==> self.starts(
                    frame,
                    pacer,
                )
            },
            Step::Timeout { pacer } => {
                &&& self.pacer is None
                &&& self.engine matches EngineView::FixedInterval(engine)
                &&& self.starts(engine.frame(), pacer)
            },
            Step::Advance => self.engine is FixedInterval,
            Step::CatchUp { now } => self.engine is FixedInterval && self.clock.nanos <= now.nanos,
            Step::Send { asked, sent } => {
                &&& self.pacer matches Some(pacer)
                &&& self.clock.nanos <= asked.nanos <= sent.nanos
                &&& sent.wf()
                &&& self.informed(pacer).action_at(asked) == PaceAction::Send
            },
            Step::Finish { at } => {
                &&& self.pacer matches Some(pacer)
                &&& self.clock.nanos <= at.nanos
                &&& self.informed(pacer).action_at(at) == PaceAction::Done
            },
        }
    }

    /// The proxy after something has happened.
    pub open spec fn after(self, step: Step) -> ProxyView {
        match step {
            Step::Receive { bytes, at, action } => {
                let kind = artnet::kind_of(bytes);
                let read = ProxyView {
                    received: self.received.push(bytes),
                    clock: at,
                    stats: receive::disposed(
                        self.stats.with_input(kind),
                        receive::disposition(kind, self.config),
                    ),
                    ..self
                };
                match action {
                    ReceiveAction::ForwardAtOnce => ProxyView {
                        waiting: Some(Waiting { bytes, at_once: true }),
                        ..read
                    },
                    ReceiveAction::Forward => ProxyView {
                        waiting: Some(Waiting { bytes, at_once: false }),
                        ..read
                    },
                    ReceiveAction::Queue(event) => ProxyView {
                        queue: self.queue.push(event),
                        ..read
                    },
                    ReceiveAction::Ignore | ReceiveAction::Drop => ProxyView {
                        discarded: self.discarded.push(bytes),
                        ..read
                    },
                }
            },
            Step::Forward { asked, sent } => {
                let waiting = self.waiting->0;
                let departure = if waiting.at_once {
                    Departure::AtOnce { asked, sent }
                } else {
                    Departure::Forwarded { asked, sent }
                };
                ProxyView {
                    waiting: None,
                    sent: self.sent.push(Sent { bytes: waiting.bytes, departure }),
                    clock: sent,
                    stats: self.stats.with_output(),
                    ..self
                }
            },
            Step::Take { pacer } => {
                let event = self.queue.first();
                let taken = ProxyView {
                    queue: self.queue.drop_first(),
                    engine: self.engine.after(event),
                    stats: self.engine.stats_after(event, self.stats),
                    discarded: if self.engine.discards(event) {
                        self.discarded.push(packet_of(event).bytes@)
                    } else {
                        self.discarded
                    },
                    ..self
                };
                if self.engine.completed_by(event) is Some {
                    ProxyView { pacer: Some(pacer), clock: pacer.start, ..taken }
                } else {
                    taken
                }
            },
            Step::Timeout { pacer } => ProxyView {
                engine: EngineView::FixedInterval(self.engine->FixedInterval_0.emptied()),
                pacer: Some(pacer),
                clock: pacer.start,
                ..self
            },
            Step::Advance => ProxyView {
                engine: EngineView::FixedInterval(self.engine->FixedInterval_0.advanced()),
                ..self
            },
            Step::CatchUp { now } => {
                let engine = self.engine->FixedInterval_0;
                ProxyView {
                    engine: EngineView::FixedInterval(engine.caught_up(now)),
                    clock: now,
                    stats: engine.stats_caught_up(now, self.stats),
                    ..self
                }
            },
            Step::Send { asked, sent } => {
                let pacer = self.informed(self.pacer->0);
                let bytes = pacer.outgoing()[pacer.position() as int].bytes@;
                ProxyView {
                    pacer: Some(pacer.after_send(sent)),
                    sent: self.sent.push(Sent { bytes, departure: Departure::Paced { asked, sent } }),
                    clock: sent,
                    stats: pacer.stats_after_send(self.stats),
                    ..self
                }
            },
            Step::Finish { at } => ProxyView {
                pacer: None,
                clock: at,
                stats: if self.pacer->0.is_late(at) {
                    self.stats.with_late_frame()
                } else {
                    self.stats
                },
                ..self
            },
        }
    }

    /// The proxy after many things have happened.
    pub open spec fn after_all(self, steps: Seq<Step>) -> ProxyView
        decreases steps.len(),
    {
        if steps.len() == 0 {
            self
        } else {
            self.after_all(steps.drop_last()).after(steps.last())
        }
    }

    /// Each of many things could happen when it did.
    pub open spec fn is_run(self, steps: Seq<Step>) -> bool
        decreases steps.len(),
    {
        steps.len() == 0 || (self.is_run(steps.drop_last()) && self.after_all(
            steps.drop_last(),
        ).allows(steps.last()))
    }

    /// The datagram that is about to be sent on, if there is one.
    pub open spec fn waiting_bag(self) -> Multiset<Seq<u8>> {
        match self.waiting {
            Some(waiting) => Multiset::singleton(waiting.bytes),
            None => Multiset::empty(),
        }
    }

    /// The packets of the frame that are still to be sent.
    pub open spec fn unsent(self) -> Seq<Packet> {
        match self.pacer {
            Some(pacer) => pacer.outgoing().skip(pacer.position() as int),
            None => Seq::empty(),
        }
    }

    /// All that came in and has been neither sent nor discarded.
    pub open spec fn kept(self) -> Multiset<Seq<u8>> {
        self.waiting_bag().add(event_contents(self.queue).to_multiset()).add(
            contents(self.engine.held()).to_multiset(),
        ).add(contents(self.unsent()).to_multiset())
    }

    /// What came in has been sent or discarded, or is kept.
    pub open spec fn is_balanced(self) -> bool {
        outputs(self.sent).to_multiset().add(self.kept()).add(self.discarded.to_multiset())
            == self.received.to_multiset()
    }

    /// The ArtDmx packets that wait: on their way to the engine, in the engine, and in the frame that
    /// is being sent, but for those of it that have been sent.
    pub open spec fn queue_depth(self) -> nat {
        dmx_events(self.queue) + self.engine.held().len() + match self.pacer {
            Some(pacer) => (pacer.frame@.len() - pacer.sent) as nat,
            None => 0,
        }
    }

    /// The counters say what came in, what went out, what was dropped and what waits, each up to
    /// where it starts again.
    pub open spec fn is_counted(self) -> bool {
        let full = u64::MAX + 1;
        &&& self.stats.input_packets == self.received.len() % full as nat
        &&& self.stats.output_packets == self.sent.len() % full as nat
        &&& self.stats.input_dmx == tally(self.received, counts_dmx()) % full as nat
        &&& self.stats.input_sync == tally(self.received, counts_sync()) % full as nat
        &&& self.stats.dropped_packets == tally(self.received, counts_dropped(self.config))
            % full as nat
        &&& self.stats.queued_packets == self.queue_depth() % (usize::MAX + 1) as nat
    }

    /// Only what may be sent on at once is.
    pub open spec fn at_once_is_allowed(self) -> bool {
        self.config.mode == Mode::Passthrough || self.config.mode == Mode::Spread
    }

    /// The frame that is being sent fits the settings, and one datagram was sent after the other,
    /// at least the gap apart but for those that are sent on at once.
    pub open spec fn is_spaced(self) -> bool {
        &&& self.config.gap().wf()
        &&& self.pacer matches Some(pacer) ==> pacer.wf() && pacer.min_gap == self.config.gap()
        &&& self.waiting matches Some(waiting) ==> waiting.at_once ==> self.at_once_is_allowed()
        &&& forall|i: int|
            #![trigger self.sent[i]]
            0 <= i < self.sent.len() ==> {
                let departure = self.sent[i].departure;
                &&& departure.sent().wf()
                &&& departure.asked().nanos <= departure.sent().nanos <= self.clock.nanos
                &&& departure is AtOnce ==> self.at_once_is_allowed()
            }
        &&& forall|i: int, j: int|
            #![trigger self.sent[i], self.sent[j]]
            0 <= i < j < self.sent.len() ==> {
                let (before, departure) = (self.sent[i].departure, self.sent[j].departure);
                &&& before.sent().nanos <= departure.asked().nanos
                &&& departure is AtOnce || before.sent().nanos + self.config.gap().nanos
                    <= departure.asked().nanos
            }
    }
}

/// The last datagram is the latest.
proof fn lemma_last_is_latest(proxy: ProxyView)
    requires
        proxy.is_spaced(),
        proxy.sent.len() > 0,
    ensures
        forall|i: int|
            #![trigger proxy.sent[i]]
            0 <= i < proxy.sent.len() ==> proxy.sent[i].departure.sent().nanos
                <= proxy.last_send_at()->0.nanos,
{
    let last = proxy.sent.len() - 1;
    assert forall|i: int| #![trigger proxy.sent[i]] 0 <= i < proxy.sent.len() implies proxy.sent[i].departure.sent().nanos
        <= proxy.last_send_at()->0.nanos by {
        if i < last {
            assert(proxy.sent[last].departure.asked().nanos <= proxy.sent[last].departure.sent().nanos);
        }
    }
}

/// A datagram that was let through the gap comes after it.
proof fn lemma_gap_passed(proxy: ProxyView, asked: Instant)
    requires
        proxy.is_spaced(),
        proxy.clock.nanos <= asked.nanos,
        pacing::gap_step(proxy.config.gap(), proxy.last_send_at(), asked) == WaitAction::Done,
    ensures
        forall|i: int|
            #![trigger proxy.sent[i]]
            0 <= i < proxy.sent.len() ==> proxy.sent[i].departure.sent().nanos
                + proxy.config.gap().nanos <= asked.nanos,
{
    if proxy.sent.len() > 0 {
        let last = proxy.sent[proxy.sent.len() - 1];
        assert(last.departure.sent().wf());
        lemma_last_is_latest(proxy);
    }
}

/// Every step keeps the distances.
proof fn lemma_step_spaced(proxy: ProxyView, step: Step)
    requires
        proxy.is_spaced(),
        proxy.allows(step),
    ensures
        proxy.after(step).is_spaced(),
{
    if proxy.sent.len() > 0 {
        assert(proxy.sent[proxy.sent.len() - 1].departure.sent().wf());
    }
    match step {
        Step::Receive { bytes, at, action } => {
            receive::law_at_once_is_the_exception(artnet::kind_of(bytes), proxy.config);
        },
        Step::Forward { asked, sent } => {
            if !proxy.waiting->0.at_once {
                lemma_gap_passed(proxy, asked);
            }
        },
        Step::Send { asked, sent } => {
            let pacer = proxy.informed(proxy.pacer->0);
            lemma_gap_passed(proxy, asked);
            assert(pacer.wf());
            assert(pacer.frame.len() == pacer.frame@.len());
            assert(pacer.after_send(sent).wf());
        },
        _ => {},
    }
}

/// Taking the first of a sequence takes one from its bag.
proof fn lemma_bag_front(items: Seq<Seq<u8>>)
    requires
        items.len() > 0,
    ensures
        items.to_multiset() == items.drop_first().to_multiset().insert(items.first()),
{
    broadcast use vstd::seq_lib::group_to_multiset_ensures;

    assert(items.drop_first() =~= items.remove(0));
    assert(items.contains(items[0]));
    assert(items.to_multiset() =~= items.drop_first().to_multiset().insert(items.first()));
}

/// Adding to the end of a sequence adds one to its bag.
proof fn lemma_bag_push(items: Seq<Seq<u8>>, item: Seq<u8>)
    ensures
        items.push(item).to_multiset() == items.to_multiset().insert(item),
{
    broadcast use vstd::seq_lib::group_to_multiset_ensures;

}

/// Nothing makes an empty bag.
proof fn lemma_bag_empty(items: Seq<Seq<u8>>)
    requires
        items.len() == 0,
    ensures
        items.to_multiset() == Multiset::<Seq<u8>>::empty(),
{
    broadcast use vstd::seq_lib::group_to_multiset_ensures;

    assert(items.to_multiset().len() == 0);
    assert(items.to_multiset() =~= Multiset::empty());
}

/// What is handed over whole leaves an empty bag behind.
proof fn lemma_handed_over(proxy: ProxyView, frame: FrameView, pacer: Pacer)
    requires
        proxy.pacer is None,
        proxy.starts(frame, pacer),
    ensures
        contents(pacer.outgoing().skip(pacer.position() as int)) == contents(frame.outgoing()),
        contents(proxy.unsent()).to_multiset() == Multiset::<Seq<u8>>::empty(),
{
    lemma_bag_empty(contents(proxy.unsent()));
    assert(pacer.outgoing() == frame.outgoing());
    assert(pacer.outgoing().skip(0) =~= pacer.outgoing());
}

/// Reading a datagram keeps the balance.
proof fn lemma_receive_balanced(proxy: ProxyView, bytes: Seq<u8>, at: Instant, action: ReceiveAction)
    requires
        proxy.is_balanced(),
        proxy.allows(Step::Receive { bytes, at, action }),
    ensures
        proxy.after(Step::Receive { bytes, at, action }).is_balanced(),
{
    let after = proxy.after(Step::Receive { bytes, at, action });
    lemma_bag_push(proxy.received, bytes);
    match action {
        ReceiveAction::Queue(event) => {
            lemma_bag_push(event_contents(proxy.queue), bytes);
            assert(event_contents(after.queue) =~= event_contents(proxy.queue).push(bytes));
        },
        ReceiveAction::Ignore | ReceiveAction::Drop => {
            lemma_bag_push(proxy.discarded, bytes);
        },
        _ => {},
    }
    assert(outputs(after.sent).to_multiset().add(after.kept()).add(after.discarded.to_multiset())
        =~= after.received.to_multiset());
}

/// Taking a packet from the queue keeps the balance.
proof fn lemma_take_balanced(proxy: ProxyView, pacer: Pacer)
    requires
        proxy.is_balanced(),
        proxy.allows(Step::Take { pacer }),
    ensures
        proxy.after(Step::Take { pacer }).is_balanced(),
{
    let after = proxy.after(Step::Take { pacer });
    let event = proxy.queue.first();
    let bytes = packet_of(event).bytes@;
    let queued = event_contents(proxy.queue);
    lemma_bag_front(queued);
    assert(event_contents(after.queue) =~= queued.drop_first());
    let held = proxy.engine.held();
    if proxy.engine.discards(event) {
        lemma_bag_push(proxy.discarded, bytes);
        assert(after.engine.held() =~= held);
    } else {
        lemma_bag_push(contents(held), bytes);
        assert(contents(held.push(packet_of(event))) =~= contents(held).push(bytes));
        if let Some(frame) = proxy.engine.completed_by(event) {
            lemma_handed_over(proxy, frame, pacer);
            lemma_bag_empty(contents(after.engine.held()));
        }
    }
    assert(outputs(after.sent).to_multiset().add(after.kept()).add(after.discarded.to_multiset())
        =~= after.received.to_multiset());
}

/// Every step keeps the balance.
proof fn lemma_step_balanced(proxy: ProxyView, step: Step)
    requires
        proxy.is_balanced(),
        proxy.is_spaced(),
        proxy.allows(step),
    ensures
        proxy.after(step).is_balanced(),
{
    let after = proxy.after(step);
    match step {
        Step::Receive { bytes, at, action } => {
            lemma_receive_balanced(proxy, bytes, at, action);
        },
        Step::Take { pacer } => {
            lemma_take_balanced(proxy, pacer);
        },
        Step::Forward { asked, sent } => {
            let bytes = proxy.waiting->0.bytes;
            lemma_bag_push(outputs(proxy.sent), bytes);
            assert(outputs(after.sent) =~= outputs(proxy.sent).push(bytes));
        },
        Step::Timeout { pacer } => {
            let frame = proxy.engine->FixedInterval_0.frame();
            lemma_handed_over(proxy, frame, pacer);
            lemma_bag_empty(contents(after.engine.held()));
        },
        Step::Advance => {},
        Step::CatchUp { now } => {},
        Step::Send { asked, sent } => {
            let pacer = proxy.informed(proxy.pacer->0);
            let place = pacer.position() as int;
            let bytes = pacer.outgoing()[place].bytes@;
            assert(pacer.frame.len() == pacer.frame@.len());
            lemma_bag_push(outputs(proxy.sent), bytes);
            assert(outputs(after.sent) =~= outputs(proxy.sent).push(bytes));
            lemma_bag_front(contents(proxy.unsent()));
            assert(contents(after.unsent()) =~= contents(proxy.unsent()).drop_first());
        },
        Step::Finish { at } => {
            lemma_bag_empty(contents(proxy.unsent()));
            lemma_bag_empty(contents(after.unsent()));
        },
    }
    assert(outputs(after.sent).to_multiset().add(after.kept()).add(after.discarded.to_multiset())
        =~= after.received.to_multiset());
}

/// One more in the queue.
proof fn lemma_dmx_push(events: Seq<Event>, event: Event)
    ensures
        dmx_events(events.push(event)) == dmx_events(events) + (if event is Dmx {
            1nat
        } else {
            0
        }),
{
    assert(events.push(event).drop_last() =~= events);
}

/// The first of the queue taken.
proof fn lemma_dmx_front(events: Seq<Event>)
    requires
        events.len() > 0,
    ensures
        dmx_events(events) == dmx_events(events.drop_first()) + (if events.first() is Dmx {
            1nat
        } else {
            0
        }),
    decreases events.len(),
{
    if events.len() == 1 {
        assert(events.drop_first() =~= Seq::<Event>::empty());
        assert(events.drop_last() =~= Seq::<Event>::empty());
    } else {
        lemma_dmx_front(events.drop_last());
        assert(events.drop_last().drop_first() =~= events.drop_first().drop_last());
    }
}

/// One more datagram read.
proof fn lemma_tally_push(received: Seq<Seq<u8>>, bytes: Seq<u8>, counts: spec_fn(PacketKind) -> bool)
    ensures
        tally(received.push(bytes), counts) == tally(received, counts) + (if counts(
            artnet::kind_of(bytes),
        ) {
            1nat
        } else {
            0
        }),
{
    assert(received.push(bytes).drop_last() =~= received);
}

/// The engine stays the one of its mode, and where nothing is held back nothing is queued.
spec fn is_set_up(proxy: ProxyView) -> bool {
    &&& proxy.engine.fits(proxy.config.mode)
    &&& proxy.config.mode == Mode::Passthrough ==> proxy.queue.len() == 0
}

/// Every step is counted.
proof fn lemma_step_counted(proxy: ProxyView, step: Step)
    requires
        proxy.is_counted(),
        proxy.is_spaced(),
        is_set_up(proxy),
        proxy.allows(step),
    ensures
        proxy.after(step).is_counted(),
        is_set_up(proxy.after(step)),
{
    let after = proxy.after(step);
    let full = u64::MAX + 1;
    let wide = usize::MAX + 1;
    match step {
        Step::Receive { bytes, at, action } => {
            let (dmx, sync, dropped) = (counts_dmx(), counts_sync(), counts_dropped(proxy.config));
            lemma_tally_push(proxy.received, bytes, dmx);
            lemma_tally_push(proxy.received, bytes, sync);
            lemma_tally_push(proxy.received, bytes, dropped);
            pacing::lemma_mod_step(proxy.received.len() as int, full);
            pacing::lemma_mod_step(tally(proxy.received, dmx) as int, full);
            pacing::lemma_mod_step(tally(proxy.received, sync) as int, full);
            pacing::lemma_mod_step(tally(proxy.received, dropped) as int, full);
            if let ReceiveAction::Queue(event) = action {
                lemma_dmx_push(proxy.queue, event);
                pacing::lemma_mod_step(proxy.queue_depth() as int, wide);
            }
        },
        Step::Forward { asked, sent } => {
            pacing::lemma_mod_step(proxy.sent.len() as int, full);
        },
        Step::Take { pacer } => {
            lemma_dmx_front(proxy.queue);
            assert(after.queue_depth() == proxy.queue_depth());
        },
        Step::Send { asked, sent } => {
            let pacer = proxy.informed(proxy.pacer->0);
            assert(pacer.frame.len() == pacer.frame@.len());
            pacing::lemma_mod_step(proxy.sent.len() as int, full);
            pacing::lemma_mod_step(after.queue_depth() as int, wide);
        },
        _ => {},
    }
}

/// All three hold of a proxy whatever happens.
proof fn lemma_run(proxy: ProxyView, steps: Seq<Step>)
    requires
        proxy.is_fresh(),
        proxy.is_run(steps),
    ensures
        proxy.after_all(steps).is_balanced(),
        proxy.after_all(steps).is_spaced(),
        proxy.after_all(steps).is_counted(),
        is_set_up(proxy.after_all(steps)),
        proxy.after_all(steps).config == proxy.config,
    decreases steps.len(),
{
    if steps.len() == 0 {
        vstd::arithmetic::div_mod::lemma_small_mod(0, (u64::MAX + 1) as nat);
        vstd::arithmetic::div_mod::lemma_small_mod(0, (usize::MAX + 1) as nat);
        lemma_bag_empty(proxy.received);
        lemma_bag_empty(proxy.discarded);
        lemma_bag_empty(outputs(proxy.sent));
        lemma_bag_empty(event_contents(proxy.queue));
        lemma_bag_empty(contents(proxy.engine.held()));
        lemma_bag_empty(contents(proxy.unsent()));
        assert(outputs(proxy.sent).to_multiset().add(proxy.kept()).add(proxy.discarded.to_multiset())
            =~= proxy.received.to_multiset());
    } else {
        let before = proxy.after_all(steps.drop_last());
        lemma_run(proxy, steps.drop_last());
        lemma_step_balanced(before, steps.last());
        lemma_step_spaced(before, steps.last());
        lemma_step_counted(before, steps.last());
    }
}

/// The proxy sends what it has received and nothing else, in any mode and at any time: what has been
/// sent is contained in what has been read so far, byte for byte, and no datagram is sent more often
/// than it was read. What has not been sent is still kept, or has been discarded.
pub proof fn law_output_is_contained_in_input(proxy: ProxyView, steps: Seq<Step>)
    requires
        proxy.is_fresh(),
        proxy.is_run(steps),
    ensures
        ({
            let after = proxy.after_all(steps);
            &&& outputs(after.sent).to_multiset().subset_of(after.received.to_multiset())
            &&& after.is_balanced()
        }),
{
    lemma_run(proxy, steps);
    let after = proxy.after_all(steps);
    let (sent, received) = (outputs(after.sent).to_multiset(), after.received.to_multiset());
    assert forall|bytes: Seq<u8>| sent.count(bytes) <= received.count(bytes) by {
        assert(sent.add(after.kept()).add(after.discarded.to_multiset()).count(bytes) >= sent.count(
            bytes,
        ));
    }
}

/// The gap is kept between any two datagrams that a proxy sends, whichever of its senders sends
/// them: the later one is not asked for until the gap has passed since the earlier one had been
/// sent. The exceptions are those that are sent on at once, and there are none where ArtSync is held
/// back or ignored.
pub proof fn law_gap_between_all_outputs(proxy: ProxyView, steps: Seq<Step>, i: int, j: int)
    requires
        proxy.is_fresh(),
        proxy.is_run(steps),
        0 <= i < j < proxy.after_all(steps).sent.len(),
    ensures
        ({
            let sent = proxy.after_all(steps).sent;
            &&& !(sent[j].departure is AtOnce) ==> sent[i].departure.sent().nanos
                + proxy.config.gap().nanos <= sent[j].departure.asked().nanos
            &&& proxy.config.mode == Mode::SyncDelay || proxy.config.mode == Mode::FixedFps ==> !(
            sent[j].departure is AtOnce)
        }),
{
    lemma_run(proxy, steps);
    let sent = proxy.after_all(steps).sent;
    assert(sent[i].departure.sent().nanos <= sent[j].departure.asked().nanos);
}

/// The queue depth that the statistics show is the number of ArtDmx packets that wait: those on their
/// way to the engine, those that it collects, and those of the frame that is being sent which have
/// not gone out. Each counter starts again where it is full.
pub proof fn law_queue_depth_is_what_waits(proxy: ProxyView, steps: Seq<Step>)
    requires
        proxy.is_fresh(),
        proxy.is_run(steps),
    ensures
        ({
            let after = proxy.after_all(steps);
            after.stats.queued_packets == after.queue_depth() % (usize::MAX + 1) as nat
        }),
{
    lemma_run(proxy, steps);
}

/// The counters that the statistics show count what they say: datagrams read, those of them that are
/// ArtDmx, ArtSync or dropped, and datagrams sent. Each counter starts again where it is full.
pub proof fn law_counters_count_traffic(proxy: ProxyView, steps: Seq<Step>)
    requires
        proxy.is_fresh(),
        proxy.is_run(steps),
    ensures
        proxy.after_all(steps).is_counted(),
{
    lemma_run(proxy, steps);
}

} // verus!
