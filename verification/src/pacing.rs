//! When the packets of a frame go out.

use crate::binary64::MANTISSA_BOUND;
use crate::duration::{Duration, Instant, CLOCK_LIMIT};
use crate::receive::Packet;
use crate::slots;
use crate::slots::{slot_offset, spacing};
use crate::stats::Stats;
use vstd::prelude::*;

verus! {

/// The last stretch of a wait, which is spun through: 150 microseconds.
pub const SPIN_WINDOW: u128 = 150_000;

/// The stretch before it, which is not slept through: two milliseconds.
pub const SHORT_SLEEP_WINDOW: u128 = 2_000_000;

/// How much later than its interval a frame may end: one millisecond.
pub const LATE_WINDOW: u128 = 1_000_000;

/// How to go on waiting.
#[derive(Clone, Copy, Debug, PartialEq, Eq, Structural)]
pub enum WaitAction {
    /// The wait is over.
    Done,
    Sleep(Duration),
    Yield,
    Spin,
}

/// How to go on waiting: far from the deadline sleep to shortly before it, then yield, then spin.
pub open spec fn wait_step(deadline: Instant, now: Instant) -> WaitAction {
    let remaining = deadline.nanos - now.nanos;
    if remaining <= 0 {
        WaitAction::Done
    } else if remaining > SHORT_SLEEP_WINDOW {
        WaitAction::Sleep(Duration { nanos: (remaining - SHORT_SLEEP_WINDOW) as u128 })
    } else if remaining > SPIN_WINDOW {
        WaitAction::Yield
    } else {
        WaitAction::Spin
    }
}

/// How to go on waiting for a deadline.
pub fn wait_until(deadline: Instant, now: Instant) -> (r: WaitAction)
    ensures
        r == wait_step(deadline, now),
        r is Done <==> now.nanos >= deadline.nanos,
        r is Sleep <==> deadline.nanos > now.nanos + 2_000_000,
        r matches WaitAction::Sleep(span) ==> now.nanos + span.nanos + 2_000_000 == deadline.nanos,
        r is Yield <==> now.nanos + 150_000 < deadline.nanos <= now.nanos + 2_000_000,
        r is Spin <==> now.nanos < deadline.nanos <= now.nanos + 150_000,
{
    if now.nanos >= deadline.nanos {
        return WaitAction::Done;
    }
    let remaining: u128 = deadline.nanos - now.nanos;
    if remaining > SHORT_SLEEP_WINDOW {
        WaitAction::Sleep(Duration { nanos: remaining - SHORT_SLEEP_WINDOW })
    } else if remaining > SPIN_WINDOW {
        WaitAction::Yield
    } else {
        WaitAction::Spin
    }
}

/// The point before which nothing may be sent; none without a gap or before the first packet.
pub open spec fn gap_deadline(min_gap: Duration, last_send_at: Option<Instant>) -> Option<Instant> {
    match last_send_at {
        Some(last) if min_gap.nanos > 0 => Some(
            Instant { nanos: (last.nanos + min_gap.nanos) as u128 },
        ),
        _ => None,
    }
}

/// The point before which nothing may be sent.
pub fn wait_for_gap(min_gap: Duration, last_send_at: &Option<Instant>) -> (r: Option<Instant>)
    requires
        min_gap.wf(),
        last_send_at matches Some(last) ==> last.wf(),
        gap_deadline(min_gap, *last_send_at) matches Some(deadline) ==> deadline.wf(),
    ensures
        r == gap_deadline(min_gap, *last_send_at),
        r is Some <==> min_gap.nanos > 0 && *last_send_at is Some,
        r matches Some(deadline) ==> deadline.nanos == last_send_at->0.nanos + min_gap.nanos,
{
    if min_gap.is_zero() {
        return None;
    }
    match last_send_at {
        Some(last) => Some(Instant { nanos: last.nanos + min_gap.nanos }),
        None => None,
    }
}

/// How to go on waiting for the gap.
pub open spec fn gap_step(min_gap: Duration, last_send_at: Option<Instant>, now: Instant) -> WaitAction {
    match gap_deadline(min_gap, last_send_at) {
        Some(deadline) => wait_step(deadline, now),
        None => WaitAction::Done,
    }
}

/// How to go on waiting before a packet that has just come in is sent on: until the gap has passed
/// since the last packet, whether that was sent on too or was part of a frame.
pub fn wait_to_forward(min_gap: Duration, last_send_at: &Option<Instant>, now: Instant) -> (r:
    WaitAction)
    requires
        min_gap.wf(),
        last_send_at matches Some(last) ==> last.wf(),
        gap_deadline(min_gap, *last_send_at) matches Some(deadline) ==> deadline.wf(),
    ensures
        r == gap_step(min_gap, *last_send_at, now),
        min_gap.nanos == 0 || *last_send_at is None ==> r is Done,
        min_gap.nanos > 0 && *last_send_at is Some ==> {
            let end = last_send_at->0.nanos + min_gap.nanos;
            &&& r is Done <==> now.nanos >= end
            &&& r is Sleep <==> end > now.nanos + 2_000_000
            &&& r matches WaitAction::Sleep(span) ==> now.nanos + span.nanos + 2_000_000 == end
            &&& r is Yield <==> now.nanos + 150_000 < end <= now.nanos + 2_000_000
            &&& r is Spin <==> now.nanos < end <= now.nanos + 150_000
        },
{
    match wait_for_gap(min_gap, last_send_at) {
        Some(deadline) => wait_until(deadline, now),
        None => WaitAction::Done,
    }
}

/// What to do next for a frame.
#[derive(Clone, Copy, Debug, PartialEq, Eq, Structural)]
pub enum PaceAction {
    /// Go on waiting.
    Wait(WaitAction),
    /// Send the packet that is next.
    Send,
    /// Nothing; the frame is over.
    Done,
}

/// A frame on its way out: its ArtDmx packets, each in its slot, and the ArtSync packet behind
/// them, at the end of the interval. An ArtSync packet without a frame goes out at once.
#[derive(Debug)]
pub struct Pacer {
    pub frame: Vec<Packet>,
    pub sync: Option<Packet>,
    pub interval: Duration,
    pub spacing: Duration,
    pub min_gap: Duration,
    pub start: Instant,
    /// The ArtDmx packets that have been sent.
    pub sent: usize,
    /// Whether the ArtSync packet has been sent.
    pub sync_sent: bool,
    pub last_send_at: Option<Instant>,
}

impl Pacer {
    /// The packets of the frame, in the order in which they go out.
    pub open spec fn outgoing(self) -> Seq<Packet> {
        match self.sync {
            Some(sync) => self.frame@.push(sync),
            None => self.frame@,
        }
    }

    /// The number of packets that have been sent.
    pub open spec fn position(self) -> nat {
        if self.sync_sent {
            self.sent as nat + 1
        } else {
            self.sent as nat
        }
    }

    /// The point before which the next packet, or the end of the frame, must not come; none where
    /// the frame has no ArtDmx packet.
    pub open spec fn slot_deadline(self) -> Option<Instant> {
        if self.frame@.len() == 0 {
            None
        } else if self.sent < self.frame@.len() {
            Some(
                Instant {
                    nanos: (self.start.nanos + slots::slot_nanos(
                        self.spacing.nanos as nat,
                        self.sent as nat,
                    )) as u128,
                },
            )
        } else {
            Some(Instant { nanos: (self.start.nanos + self.interval.nanos) as u128 })
        }
    }

    /// What to do next at a point in time.
    pub open spec fn action_at(self, now: Instant) -> PaceAction {
        let slot = match self.slot_deadline() {
            Some(deadline) => wait_step(deadline, now),
            None => WaitAction::Done,
        };
        let gap = gap_step(self.min_gap, self.last_send_at, now);
        if slot != WaitAction::Done {
            PaceAction::Wait(slot)
        } else if self.position() >= self.outgoing().len() {
            PaceAction::Done
        } else if gap != WaitAction::Done {
            PaceAction::Wait(gap)
        } else {
            PaceAction::Send
        }
    }

    /// The frame after its next packet has been sent.
    pub open spec fn after_send(self, now: Instant) -> Pacer {
        if self.sent < self.frame@.len() {
            Pacer { sent: (self.sent + 1) as usize, last_send_at: Some(now), ..self }
        } else {
            Pacer { sync_sent: true, last_send_at: Some(now), ..self }
        }
    }

    /// The frame after a packet that is not part of it has been sent.
    pub open spec fn after_noted(self, now: Instant) -> Pacer {
        Pacer { last_send_at: Some(now), ..self }
    }

    /// The frame after a packet has been sent.
    pub open spec fn after(self, departure: Departure) -> Pacer {
        match departure {
            Departure::Paced { sent, .. } => self.after_send(sent),
            Departure::Forwarded { sent, .. } => self.after_noted(sent),
            Departure::AtOnce { sent, .. } => self.after_noted(sent),
        }
    }

    /// The frame after packets have been sent, one after the other.
    pub open spec fn after_all(self, departures: Seq<Departure>) -> Pacer
        decreases departures.len(),
    {
        if departures.len() == 0 {
            self
        } else {
            self.after_all(departures.drop_last()).after(departures.last())
        }
    }

    /// A packet may be sent next: one of the frame when its slot and the gap have come, one that is
    /// sent on when the gap has passed, and one that is sent on at once at any time.
    pub open spec fn allows(self, departure: Departure) -> bool {
        &&& departure.sent().wf()
        &&& match departure {
            Departure::Paced { asked, .. } => self.action_at(asked) == PaceAction::Send,
            Departure::Forwarded { asked, .. } => gap_step(self.min_gap, self.last_send_at, asked)
                == WaitAction::Done,
            Departure::AtOnce { .. } => true,
        }
    }

    /// The counters after the next packet has been sent.
    pub open spec fn stats_after_send(self, stats: Stats) -> Stats {
        if self.sent < self.frame@.len() {
            stats.with_output().with_unqueued()
        } else {
            stats.with_output()
        }
    }

    /// A frame with ArtDmx packets that ends at a point in time ends late.
    pub open spec fn is_late(self, now: Instant) -> bool {
        self.frame@.len() > 0 && now.nanos > self.start.nanos + self.interval.nanos + LATE_WINDOW
    }

    /// The spacing fits the frame, and the clock reaches the end of its interval.
    pub open spec fn wf(self) -> bool {
        &&& self.frame@.len() > 0 ==> self.start.nanos + self.interval.nanos < CLOCK_LIMIT
        &&& self.min_gap.wf()
        &&& self.last_send_at matches Some(last) ==> last.wf()
        &&& self.spacing.wf()
        &&& self.frame@.len() > 0 ==> self.spacing.nanos == slots::spacing_nanos(
            self.interval.nanos as nat,
            self.frame@.len(),
        )
        &&& self.sent <= self.frame@.len()
        &&& self.sync_sent ==> self.sync is Some && self.sent == self.frame@.len()
    }

    /// Starts to send a frame.
    pub fn new(
        frame: Vec<Packet>,
        sync: Option<Packet>,
        interval: Duration,
        min_gap: Duration,
        last_send_at: Option<Instant>,
        start: Instant,
    ) -> (r: Pacer)
        requires
            frame@.len() > 0 ==> start.nanos + interval.nanos < CLOCK_LIMIT,
            min_gap.wf(),
            last_send_at matches Some(last) ==> last.wf(),
        ensures
            r.wf(),
            r.frame@ == frame@,
            r.sync == sync,
            r.interval == interval,
            r.min_gap == min_gap,
            r.last_send_at == last_send_at,
            r.start == start,
            r.position() == 0,
            r.sent == 0,
            !r.sync_sent,
            frame@.len() > 0 ==> r.spacing.nanos == slots::spacing_nanos(
                interval.nanos as nat,
                frame@.len(),
            ),
    {
        let count: usize = frame.len();
        let spacing = if count == 0 {
            Duration::zero()
        } else {
            spacing(interval, count)
        };
        Pacer { frame, sync, interval, spacing, min_gap, start, sent: 0, sync_sent: false, last_send_at }
    }

    /// What to do next.
    pub fn next(&self, now: Instant) -> (r: PaceAction)
        requires
            self.wf(),
            gap_deadline(self.min_gap, self.last_send_at) matches Some(deadline) ==> deadline.wf(),
        ensures
            r == self.action_at(now),
            r == PaceAction::Send <==> {
                &&& self.min_gap.nanos == 0 || self.last_send_at is None || now.nanos
                    >= self.last_send_at->0.nanos + self.min_gap.nanos
                &&& if self.sent < self.frame@.len() {
                    now.nanos >= self.start.nanos + slots::slot_nanos(
                        self.spacing.nanos as nat,
                        self.sent as nat,
                    )
                } else {
                    &&& self.sync is Some && !self.sync_sent
                    &&& self.frame@.len() > 0 ==> now.nanos >= self.start.nanos + self.interval.nanos
                }
            },
            r == PaceAction::Done <==> {
                &&& self.sent >= self.frame@.len()
                &&& self.sync is None || self.sync_sent
                &&& self.frame@.len() > 0 ==> now.nanos >= self.start.nanos + self.interval.nanos
            },
    {
        proof {
            law_packets_go_out_on_time(*self, now);
        }
        let count: usize = self.frame.len();
        if count > 0 {
            let offset = if self.sent < count {
                slot_offset(self.interval, self.spacing, count, self.sent)
            } else {
                self.interval
            };
            let deadline = Instant { nanos: self.start.nanos + offset.nanos };
            let wait = wait_until(deadline, now);
            if wait != WaitAction::Done {
                return PaceAction::Wait(wait);
            }
        }
        if self.sent >= count && (self.sync.is_none() || self.sync_sent) {
            return PaceAction::Done;
        }
        let wait = wait_to_forward(self.min_gap, &self.last_send_at, now);
        if wait != WaitAction::Done {
            return PaceAction::Wait(wait);
        }
        PaceAction::Send
    }

    /// The bytes of the packet that is next.
    pub fn payload(&self) -> (r: &[u8])
        requires
            self.wf(),
            self.position() < self.outgoing().len(),
        ensures
            r@ == self.outgoing()[self.position() as int].bytes@,
            self.sent < self.frame@.len() ==> r@ == self.frame@[self.sent as int].bytes@,
            self.sent >= self.frame@.len() ==> self.sync is Some && r@ == self.sync->0.bytes@,
    {
        if self.sent < self.frame.len() {
            return self.frame[self.sent].bytes.as_slice();
        }
        match &self.sync {
            Some(sync) => sync.bytes.as_slice(),
            None => self.frame[self.sent].bytes.as_slice(),
        }
    }

    /// Notes that the next packet has been sent.
    pub fn sent(&mut self, now: Instant, stats: &mut Stats)
        requires
            old(self).wf(),
            old(self).position() < old(self).outgoing().len(),
            now.wf(),
        ensures
            *final(self) == old(self).after_send(now),
            final(self).wf(),
            *final(stats) == old(self).stats_after_send(*old(stats)),
            old(self).sent < old(self).frame@.len() ==> {
                &&& *final(self) == (Pacer {
                    sent: (old(self).sent + 1) as usize,
                    last_send_at: Some(now),
                    ..*old(self)
                })
                &&& *final(stats) == (Stats {
                    output_packets: old(stats).output_packets.wrapping_add(1),
                    queued_packets: old(stats).queued_packets.wrapping_sub(1),
                    ..*old(stats)
                })
            },
            old(self).sent >= old(self).frame@.len() ==> {
                &&& *final(self) == (Pacer { sync_sent: true, last_send_at: Some(now), ..*old(self) })
                &&& *final(stats) == (Stats {
                    output_packets: old(stats).output_packets.wrapping_add(1),
                    ..*old(stats)
                })
            },
    {
        stats.count_output();
        self.last_send_at = Some(now);
        if self.sent < self.frame.len() {
            stats.count_unqueued();
            self.sent = self.sent + 1;
        } else {
            self.sync_sent = true;
        }
    }

    /// Notes that a packet that is not part of the frame has been sent.
    pub fn noted(&mut self, now: Instant)
        requires
            old(self).wf(),
            now.wf(),
        ensures
            *final(self) == old(self).after_noted(now),
            *final(self) == (Pacer { last_send_at: Some(now), ..*old(self) }),
            final(self).wf(),
    {
        self.last_send_at = Some(now);
    }

    /// Notes that the frame is over, and counts it if it is late.
    pub fn finish(&self, now: Instant, stats: &mut Stats)
        requires
            self.wf(),
        ensures
            *final(stats) == (if self.is_late(now) {
                old(stats).with_late_frame()
            } else {
                *old(stats)
            }),
            *final(stats) == (Stats {
                late_frames: if self.frame@.len() > 0 && now.nanos > self.start.nanos
                    + self.interval.nanos + 1_000_000 {
                    old(stats).late_frames.wrapping_add(1)
                } else {
                    old(stats).late_frames
                },
                ..*old(stats)
            }),
    {
        if self.frame.len() > 0 && now.nanos > self.start.nanos + self.interval.nanos + LATE_WINDOW {
            stats.count_late_frame();
        }
    }
}

/// A packet that goes out: it was asked for at one point in time, and had been sent by another.
pub enum Departure {
    /// A packet of the frame.
    Paced { asked: Instant, sent: Instant },
    /// A packet that is sent on when the gap has passed.
    Forwarded { asked: Instant, sent: Instant },
    /// A packet that is sent on at once.
    AtOnce { asked: Instant, sent: Instant },
}

impl Departure {
    /// When the packet was asked for.
    pub open spec fn asked(self) -> Instant {
        match self {
            Departure::Paced { asked, .. } => asked,
            Departure::Forwarded { asked, .. } => asked,
            Departure::AtOnce { asked, .. } => asked,
        }
    }

    /// By when the packet had been sent.
    pub open spec fn sent(self) -> Instant {
        match self {
            Departure::Paced { sent, .. } => sent,
            Departure::Forwarded { sent, .. } => sent,
            Departure::AtOnce { sent, .. } => sent,
        }
    }
}

/// Packets were sent while a frame went out, each when it was allowed.
pub open spec fn is_run(pacer: Pacer, departures: Seq<Departure>) -> bool {
    forall|k: int|
        0 <= k < departures.len() ==> (#[trigger] pacer.after_all(departures.take(k))).allows(
            departures[k],
        )
}

/// The packets of the frame among those that were sent.
pub open spec fn paced(departures: Seq<Departure>) -> nat
    decreases departures.len(),
{
    if departures.len() == 0 {
        0
    } else if departures.last() is Paced {
        paced(departures.drop_last()) + 1
    } else {
        paced(departures.drop_last())
    }
}

/// What sending leaves alone, and how far the frame has got.
proof fn lemma_after_all(pacer: Pacer, departures: Seq<Departure>, k: int)
    requires
        pacer.wf(),
        pacer.position() == 0,
        is_run(pacer, departures),
        0 <= k <= departures.len(),
    ensures
        ({
            let after = pacer.after_all(departures.take(k));
            &&& after.wf()
            &&& after.position() == paced(departures.take(k))
            &&& after.position() <= after.outgoing().len()
            &&& after.frame == pacer.frame
            &&& after.sync == pacer.sync
            &&& after.interval == pacer.interval
            &&& after.spacing == pacer.spacing
            &&& after.min_gap == pacer.min_gap
            &&& after.start == pacer.start
            &&& after.last_send_at == (if k == 0 {
                pacer.last_send_at
            } else {
                Some(departures[k - 1].sent())
            })
        }),
    decreases k,
{
    if k > 0 {
        lemma_after_all(pacer, departures, k - 1);
        let (front, whole) = (departures.take(k - 1), departures.take(k));
        assert(whole.drop_last() =~= front);
        assert(whole.last() == departures[k - 1]);
        assert(pacer.after_all(front).allows(departures[k - 1]));
        assert(pacer.frame.len() == pacer.frame@.len());
    }
}

/// The packets of a frame go out in the order in which they came, each of them once, and the
/// ArtSync packet behind them, whatever is sent on in between: the next packet after so many is the
/// one at that place.
pub proof fn law_packets_go_out_in_order(pacer: Pacer, departures: Seq<Departure>, k: int)
    requires
        pacer.wf(),
        pacer.position() == 0,
        is_run(pacer, departures),
        0 <= k <= departures.len(),
    ensures
        paced(departures.take(k)) <= pacer.outgoing().len(),
        pacer.after_all(departures.take(k)).position() == paced(departures.take(k)),
        pacer.after_all(departures.take(k)).outgoing() == pacer.outgoing(),
        pacer.sync matches Some(sync) ==> pacer.outgoing().last() == sync && pacer.outgoing().len()
            == pacer.frame@.len() + 1,
{
    lemma_after_all(pacer, departures, k);
}

/// No ArtDmx packet goes out before its slot, and ArtSync goes out after the frame that it
/// completes, no sooner than a frame interval after the frame began to go out.
pub proof fn law_packets_wait_for_their_slots(pacer: Pacer, departures: Seq<Departure>, k: int)
    requires
        pacer.wf(),
        pacer.position() == 0,
        is_run(pacer, departures),
        0 <= k < departures.len(),
        departures[k] is Paced,
        pacer.frame@.len() > 0,
    ensures
        ({
            let (place, asked) = (paced(departures.take(k)), departures[k].asked());
            &&& place < pacer.frame@.len() ==> asked.nanos >= pacer.start.nanos + slots::slot_nanos(
                pacer.spacing.nanos as nat,
                place,
            )
            &&& place == pacer.frame@.len() ==> asked.nanos >= pacer.start.nanos
                + pacer.interval.nanos
        }),
{
    lemma_after_all(pacer, departures, k);
    let state = pacer.after_all(departures.take(k));
    assert(state.allows(departures[k]));
    if state.position() < pacer.frame@.len() {
        lemma_slot_fits(state);
    }
}

/// The packets of a frame are spread evenly over its interval: none is asked for earlier than at its
/// share of the interval, but for half a nanosecond for each packet up to its own and eleven parts
/// in `2^53`.
pub proof fn law_packets_are_spread_evenly(pacer: Pacer, departures: Seq<Departure>, k: int)
    requires
        pacer.wf(),
        pacer.position() == 0,
        is_run(pacer, departures),
        0 <= k < departures.len(),
        departures[k] is Paced,
        paced(departures.take(k)) < pacer.frame@.len(),
    ensures
        ({
            let (place, count) = (paced(departures.take(k)), pacer.frame@.len());
            let passed = departures[k].asked().nanos - pacer.start.nanos;
            &&& passed >= 0
            &&& 2 * ((place * pacer.interval.nanos) * (MANTISSA_BOUND - 11)) <= MANTISSA_BOUND * (2 * (
            count * passed) + (place + 1) * count)
        }),
{
    law_packets_wait_for_their_slots(pacer, departures, k);
    let (place, count) = (paced(departures.take(k)), pacer.frame@.len());
    let passed = departures[k].asked().nanos - pacer.start.nanos;
    assert(pacer.frame.len() == count);
    slots::law_slots_are_shares(pacer.interval.nanos as nat, count, place);
    let slot = slots::slot_nanos(pacer.spacing.nanos as nat, place);
    let extra = (place + 1) * count;
    let b = MANTISSA_BOUND as int;
    assert(b * (2 * (count * slot) + extra) <= b * (2 * (count * passed) + extra)) by (nonlinear_arith)
        requires
            slot <= passed,
            b > 0,
    {
        assert(count * slot <= count * passed);
    }
}

/// A slot lies within the range of the clock's integer.
proof fn lemma_slot_fits(pacer: Pacer)
    requires
        pacer.wf(),
        pacer.sent < pacer.frame@.len(),
    ensures
        pacer.start.nanos + slots::slot_nanos(pacer.spacing.nanos as nat, pacer.sent as nat)
            <= u128::MAX,
{
    assert(pacer.frame.len() == pacer.frame@.len());
    slots::lemma_slot_bounded(
        pacer.interval.nanos as nat,
        pacer.frame@.len(),
        pacer.sent as nat,
    );
}

/// Two packets are at least the gap apart, whether both are of one frame, of two frames, or sent on
/// in between: none but those that are sent on at once is asked for until the gap has passed since
/// the one before it had been sent.
pub proof fn law_gap_is_kept(pacer: Pacer, departures: Seq<Departure>, k: int)
    requires
        pacer.wf(),
        pacer.position() == 0,
        is_run(pacer, departures),
        0 <= k < departures.len(),
        !(departures[k] is AtOnce),
        pacer.min_gap.nanos > 0,
    ensures
        k > 0 ==> departures[k].asked().nanos >= departures[k - 1].sent().nanos + pacer.min_gap.nanos,
        k == 0 && pacer.last_send_at is Some ==> departures[0].asked().nanos
            >= pacer.last_send_at->0.nanos + pacer.min_gap.nanos,
{
    lemma_after_all(pacer, departures, k);
    let state = pacer.after_all(departures.take(k));
    assert(state.allows(departures[k]));
    if k > 0 {
        assert(pacer.after_all(departures.take(k - 1)).allows(departures[k - 1]));
    }
}

/// A packet goes out exactly when its time has come: each ArtDmx packet of a frame from its slot on,
/// ArtSync behind them from the end of the interval on, or at any time where the frame has no ArtDmx
/// packet, and none before the gap to the last packet has passed. The frame is over exactly when all
/// have gone out and its interval has passed.
pub proof fn law_packets_go_out_on_time(pacer: Pacer, now: Instant)
    requires
        pacer.wf(),
    ensures
        ({
            let gap_passed = pacer.min_gap.nanos == 0 || pacer.last_send_at is None || now.nanos
                >= pacer.last_send_at->0.nanos + pacer.min_gap.nanos;
            let interval_passed = now.nanos >= pacer.start.nanos + pacer.interval.nanos;
            let waits = pacer.sync is Some && !pacer.sync_sent;
            if pacer.sent < pacer.frame@.len() {
                &&& pacer.action_at(now) == PaceAction::Send <==> gap_passed && now.nanos
                    >= pacer.start.nanos + slots::slot_nanos(pacer.spacing.nanos as nat, pacer.sent as nat)
                &&& pacer.action_at(now) != PaceAction::Done
            } else if pacer.frame@.len() > 0 {
                &&& pacer.action_at(now) == PaceAction::Send <==> waits && gap_passed && interval_passed
                &&& pacer.action_at(now) == PaceAction::Done <==> !waits && interval_passed
            } else {
                &&& pacer.action_at(now) == PaceAction::Send <==> waits && gap_passed
                &&& pacer.action_at(now) == PaceAction::Done <==> !waits
            }
        }),
{
    if pacer.sent < pacer.frame@.len() {
        lemma_slot_fits(pacer);
    }
}

/// The slots on the clock, in numbers: with the gap passed, the packet with so many before it goes out
/// from so many spacings after the start on and not before, and a spacing is an even share of the
/// interval, to the nearest nanosecond.
pub proof fn law_slots_on_the_clock(pacer: Pacer, now: Instant) -> (spacing: int)
    requires
        pacer.wf(),
        pacer.sent < pacer.frame@.len() <= 0x2_0000_0000_0000,
        pacer.interval.nanos <= 0x2_0000_0000_0000,
        pacer.min_gap.nanos == 0 || pacer.last_send_at is None || now.nanos
            >= pacer.last_send_at->0.nanos + pacer.min_gap.nanos,
    ensures
        2 * (pacer.frame@.len() * spacing) <= 2 * pacer.interval.nanos + pacer.frame@.len(),
        2 * pacer.interval.nanos <= 2 * (pacer.frame@.len() * spacing) + pacer.frame@.len(),
        pacer.action_at(now) == PaceAction::Send <==> now.nanos >= pacer.start.nanos + pacer.sent
            * spacing,
{
    let (interval, count) = (pacer.interval.nanos as nat, pacer.frame@.len());
    law_packets_go_out_on_time(pacer, now);
    slots::law_spacing_is_even(interval, count);
    slots::law_slots_are_even(interval, count, pacer.sent as nat);
    pacer.spacing.nanos as int
}

/// What a frame waits for: first its slot or the end of its interval, then the gap, and each of them
/// as one waits for a point in time.
pub proof fn law_waits_are_for_slot_and_gap(pacer: Pacer, now: Instant)
    requires
        pacer.wf(),
        pacer.sent < pacer.frame@.len(),
    ensures
        ({
            let slot = pacer.start.nanos + slots::slot_nanos(
                pacer.spacing.nanos as nat,
                pacer.sent as nat,
            );
            &&& now.nanos < slot ==> pacer.action_at(now) == PaceAction::Wait(
                wait_step(Instant { nanos: slot as u128 }, now),
            )
            &&& now.nanos >= slot && pacer.min_gap.nanos > 0 && pacer.last_send_at is Some && now.nanos
                < pacer.last_send_at->0.nanos + pacer.min_gap.nanos ==> pacer.action_at(now)
                == PaceAction::Wait(
                wait_step(
                    Instant {
                        nanos: (pacer.last_send_at->0.nanos + pacer.min_gap.nanos) as u128,
                    },
                    now,
                ),
            )
        }),
{
    lemma_slot_fits(pacer);
}

/// When the ArtDmx packets have gone out, a frame waits for the end of its interval, and then ArtSync
/// for the gap.
pub proof fn law_waits_are_for_end_and_gap(pacer: Pacer, now: Instant)
    requires
        pacer.wf(),
        pacer.sent >= pacer.frame@.len(),
    ensures
        ({
            let end = pacer.start.nanos + pacer.interval.nanos;
            let early = pacer.frame@.len() > 0 && now.nanos < end;
            &&& early ==> pacer.action_at(now) == PaceAction::Wait(
                wait_step(Instant { nanos: end as u128 }, now),
            )
            &&& !early && pacer.sync is Some && !pacer.sync_sent && pacer.min_gap.nanos > 0
                && pacer.last_send_at is Some && now.nanos < pacer.last_send_at->0.nanos
                + pacer.min_gap.nanos ==> pacer.action_at(now) == PaceAction::Wait(
                wait_step(
                    Instant {
                        nanos: (pacer.last_send_at->0.nanos + pacer.min_gap.nanos) as u128,
                    },
                    now,
                ),
            )
        }),
{
}

/// Waiting, in nanoseconds: done at the deadline, asleep until two milliseconds before it, yielding
/// until 150 microseconds before it, and spinning through the rest.
pub proof fn law_waiting_in_numbers(deadline: Instant, now: Instant)
    ensures
        wait_step(deadline, now) is Done <==> now.nanos >= deadline.nanos,
        wait_step(deadline, now) is Sleep <==> deadline.nanos > now.nanos + 2_000_000,
        wait_step(deadline, now) matches WaitAction::Sleep(span) ==> now.nanos + span.nanos + 2_000_000
            == deadline.nanos,
        wait_step(deadline, now) is Yield <==> now.nanos + 150_000 < deadline.nanos <= now.nanos
            + 2_000_000,
        wait_step(deadline, now) is Spin <==> now.nanos < deadline.nanos <= now.nanos + 150_000,
{
}

/// The packets of a frame are its ArtDmx packets and the ArtSync packet behind them, and those before
/// the next one have been sent.
pub proof fn law_frame_in_order(pacer: Pacer)
    ensures
        pacer.sync is None ==> pacer.outgoing() == pacer.frame@,
        pacer.sync matches Some(sync) ==> pacer.outgoing() == pacer.frame@.push(sync),
        pacer.position() == pacer.sent + (if pacer.sync_sent {
            1int
        } else {
            0int
        }),
{
}

/// A frame is well-formed exactly if its spacing is the share of its interval, the clock reaches the
/// end of that, no more packets have been sent than there are, and ArtSync goes last.
pub proof fn law_well_formed_frames(pacer: Pacer)
    ensures
        pacer.wf() <==> {
            &&& pacer.frame@.len() > 0 ==> pacer.start.nanos + pacer.interval.nanos
                < 0x8000_0000_0000_0000 * 1_000_000_000 && pacer.spacing.nanos == slots::spacing_nanos(
                pacer.interval.nanos as nat,
                pacer.frame@.len(),
            )
            &&& pacer.min_gap.nanos < 0x1_0000_0000_0000_0000 * 1_000_000_000
            &&& pacer.spacing.nanos < 0x1_0000_0000_0000_0000 * 1_000_000_000
            &&& pacer.last_send_at matches Some(last) ==> last.nanos < 0x8000_0000_0000_0000
                * 1_000_000_000
            &&& pacer.sent <= pacer.frame@.len()
            &&& pacer.sync_sent ==> pacer.sync is Some && pacer.sent == pacer.frame@.len()
        },
{
}

/// A frame with ArtDmx packets is not over before its interval is.
pub proof fn law_frame_takes_its_interval(pacer: Pacer, now: Instant)
    requires
        pacer.wf(),
        pacer.action_at(now) == PaceAction::Done,
    ensures
        pacer.position() == pacer.outgoing().len(),
        pacer.frame@.len() > 0 ==> now.nanos >= pacer.start.nanos + pacer.interval.nanos,
{
}

/// A packet that is sent on goes out at once unless a gap is set and has not passed since the last
/// packet.
pub proof fn law_only_the_gap_delays_forwarding(
    min_gap: Duration,
    last_send_at: Option<Instant>,
    now: Instant,
)
    requires
        min_gap.wf(),
        last_send_at matches Some(last) ==> last.wf(),
    ensures
        gap_step(min_gap, last_send_at, now) == WaitAction::Done <==> (min_gap.nanos == 0
            || last_send_at is None || now.nanos >= last_send_at->0.nanos + min_gap.nanos),
{
}

/// A wait ends: once the clock has reached the slot and the gap has passed, the next packet goes
/// out, or the frame is over.
pub proof fn law_waits_end(pacer: Pacer, now: Instant)
    requires
        pacer.wf(),
        pacer.slot_deadline() matches Some(slot) ==> now.nanos >= slot.nanos,
        gap_deadline(pacer.min_gap, pacer.last_send_at) matches Some(gap) ==> now.nanos >= gap.nanos,
    ensures
        pacer.action_at(now) == (if pacer.position() < pacer.outgoing().len() {
            PaceAction::Send
        } else {
            PaceAction::Done
        }),
{
}

/// A sleep ends two milliseconds before the deadline, never after it.
pub proof fn law_sleep_ends_before_deadline(deadline: Instant, now: Instant)
    ensures
        wait_step(deadline, now) matches WaitAction::Sleep(span) ==> now.nanos + span.nanos
            + SHORT_SLEEP_WINDOW == deadline.nanos && span.nanos > 0,
        wait_step(deadline, now) is Done <==> now.nanos >= deadline.nanos,
{
}

/// The counters after packets have been sent; a packet that is sent on adds one to those that went
/// out.
pub open spec fn stats_after_all(pacer: Pacer, stats: Stats, departures: Seq<Departure>) -> Stats
    decreases departures.len(),
{
    if departures.len() == 0 {
        stats
    } else {
        let front = departures.drop_last();
        let before = stats_after_all(pacer, stats, front);
        if departures.last() is Paced {
            pacer.after_all(front).stats_after_send(before)
        } else {
            before.with_output()
        }
    }
}

/// One more, counted round and round.
pub proof fn lemma_mod_step(v: int, m: int)
    requires
        m > 1,
    ensures
        (v + 1) % m == (if v % m + 1 == m {
            0
        } else {
            v % m + 1
        }),
{
    let (q, rest) = (v / m, v % m);
    vstd::arithmetic::div_mod::lemma_fundamental_div_mod(v, m);
    assert(m * q == q * m && (q + 1) * m == q * m + m) by (nonlinear_arith);
    if rest + 1 == m {
        vstd::arithmetic::div_mod::lemma_fundamental_div_mod_converse(v + 1, m, q + 1, 0);
    } else {
        vstd::arithmetic::div_mod::lemma_fundamental_div_mod_converse(v + 1, m, q, rest + 1);
    }
}

/// Each packet adds one to the packets that went out, and each ArtDmx packet of the frame takes one
/// off the queue; nothing else is counted. Both counters start again where they are full.
pub proof fn law_frame_leaves_the_queue(
    pacer: Pacer,
    stats: Stats,
    departures: Seq<Departure>,
    k: int,
)
    requires
        pacer.wf(),
        pacer.position() == 0,
        is_run(pacer, departures),
        0 <= k <= departures.len(),
    ensures
        ({
            let after = stats_after_all(pacer, stats, departures.take(k));
            let place = paced(departures.take(k));
            let dmx = if place <= pacer.frame@.len() {
                place
            } else {
                pacer.frame@.len()
            };
            &&& after.output_packets == (stats.output_packets + k) % (u64::MAX + 1)
            &&& after.queued_packets == (stats.queued_packets - dmx) % (usize::MAX + 1)
            &&& after == (Stats {
                output_packets: after.output_packets,
                queued_packets: after.queued_packets,
                ..stats
            })
        }),
    decreases k,
{
    let place = paced(departures.take(k));
    let dmx = if place <= pacer.frame@.len() {
        place
    } else {
        pacer.frame@.len()
    };
    if k > 0 {
        let (front, whole) = (departures.take(k - 1), departures.take(k));
        assert(whole.drop_last() =~= front);
        assert(whole.last() == departures[k - 1]);
        law_frame_leaves_the_queue(pacer, stats, departures, k - 1);
        lemma_after_all(pacer, departures, k - 1);
        assert(pacer.after_all(front).allows(departures[k - 1]));
        lemma_mod_step(stats.output_packets + k - 1, u64::MAX + 1);
        lemma_mod_step(stats.queued_packets - dmx, usize::MAX + 1);
    } else {
        vstd::arithmetic::div_mod::lemma_small_mod(
            stats.output_packets as nat,
            (u64::MAX + 1) as nat,
        );
        vstd::arithmetic::div_mod::lemma_small_mod(
            stats.queued_packets as nat,
            (usize::MAX + 1) as nat,
        );
    }
}

/// A frame with ArtDmx packets is late exactly if it ends more than a millisecond after its interval,
/// and one without is never late.
pub proof fn law_late_by_more_than_a_millisecond(pacer: Pacer, end: Instant)
    ensures
        pacer.is_late(end) <==> pacer.frame@.len() > 0 && end.nanos > pacer.start.nanos
            + pacer.interval.nanos + 1_000_000,
{
}

/// Sending moves a frame on by one packet, notes the time and counts the packet; an ArtDmx packet
/// leaves the queue.
pub proof fn law_sending_in_numbers(pacer: Pacer, now: Instant, stats: Stats)
    requires
        pacer.wf(),
    ensures
        pacer.after_noted(now) == (Pacer { last_send_at: Some(now), ..pacer }),
        pacer.sent < pacer.frame@.len() ==> {
            &&& pacer.after_send(now) == (Pacer {
                sent: (pacer.sent + 1) as usize,
                last_send_at: Some(now),
                ..pacer
            })
            &&& pacer.after_send(now).sent == pacer.sent + 1
            &&& pacer.stats_after_send(stats) == (Stats {
                output_packets: stats.output_packets.wrapping_add(1),
                queued_packets: stats.queued_packets.wrapping_sub(1),
                ..stats
            })
        },
        pacer.sent >= pacer.frame@.len() ==> {
            &&& pacer.after_send(now) == (Pacer { sync_sent: true, last_send_at: Some(now), ..pacer })
            &&& pacer.stats_after_send(stats) == (Stats {
                output_packets: stats.output_packets.wrapping_add(1),
                ..stats
            })
        },
{
    assert(pacer.frame.len() == pacer.frame@.len());
}

/// The gap ends so long after the last packet, and there is none without a gap or before the first
/// packet.
pub proof fn law_gap_ends_after_the_last_packet(min_gap: Duration, last_send_at: Option<Instant>)
    requires
        last_send_at matches Some(last) ==> last.nanos + min_gap.nanos <= u128::MAX,
    ensures
        gap_deadline(min_gap, last_send_at) is Some <==> min_gap.nanos > 0 && last_send_at is Some,
        gap_deadline(min_gap, last_send_at) matches Some(deadline) ==> deadline.nanos
            == last_send_at->0.nanos + min_gap.nanos,
{
}

} // verus!
