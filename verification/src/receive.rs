//! What is done with an incoming packet.

use crate::artnet;
use crate::artnet::PacketKind;
use crate::config::{Mode, SmootherConfig, UnknownPolicy};
use crate::duration::Instant;
use crate::stats::{record_input, Stats};
use vstd::prelude::*;

verus! {

/// The largest datagram that is taken in.
pub const MAX_PACKET_SIZE: usize = 1500;

/// A packet that waits to be sent.
#[derive(Debug)]
pub struct Packet {
    pub bytes: Vec<u8>,
    pub received_at: Instant,
}

/// What the pacing engine is told.
#[derive(Debug)]
pub enum Event {
    Dmx(Packet),
    Sync(Packet),
}

/// What to do with an incoming packet.
#[derive(Debug)]
pub enum ReceiveAction {
    /// Send it on at once, whatever the gap.
    ForwardAtOnce,
    /// Send it on as soon as the gap to the packet before it has passed.
    Forward,
    /// Hand it to the pacing engine.
    Queue(Event),
    /// Nothing; it is not counted as dropped.
    Ignore,
    /// Nothing.
    Drop,
}

/// What to do with an incoming packet, without the packet itself.
pub enum Disposition {
    ForwardAtOnce,
    Forward,
    QueueDmx,
    QueueSync,
    Ignore,
    Drop,
}

/// A packet that is neither held nor filtered out is passed on.
pub open spec fn forwards(kind: PacketKind, config: SmootherConfig) -> bool {
    match kind {
        PacketKind::ArtDmx { universe, .. } => config.allows(universe),
        PacketKind::ArtSync | PacketKind::ArtPoll | PacketKind::ArtPollReply => true,
        PacketKind::OtherArtNet { .. } | PacketKind::NonArtNet => config.unknown_policy
            == UnknownPolicy::Forward,
    }
}

/// What becomes of a packet where nothing is held back.
pub open spec fn passthrough_disposition(kind: PacketKind, config: SmootherConfig) -> Disposition {
    if forwards(kind, config) {
        Disposition::ForwardAtOnce
    } else {
        Disposition::Drop
    }
}

/// What becomes of a packet where ArtDmx is held back.
pub open spec fn buffered_disposition(kind: PacketKind, config: SmootherConfig) -> Disposition {
    match kind {
        PacketKind::ArtDmx { universe, .. } => if config.allows(universe) {
            Disposition::QueueDmx
        } else {
            Disposition::Drop
        },
        PacketKind::ArtSync => match config.mode {
            Mode::SyncDelay => Disposition::QueueSync,
            Mode::FixedFps => Disposition::Ignore,
            _ => Disposition::ForwardAtOnce,
        },
        _ => if forwards(kind, config) {
            Disposition::Forward
        } else {
            Disposition::Drop
        },
    }
}

/// What becomes of a packet in the mode that is set.
pub open spec fn disposition(kind: PacketKind, config: SmootherConfig) -> Disposition {
    if config.mode == Mode::Passthrough {
        passthrough_disposition(kind, config)
    } else {
        buffered_disposition(kind, config)
    }
}

/// The counters after a packet has been disposed of.
pub open spec fn disposed(stats: Stats, disposition: Disposition) -> Stats {
    match disposition {
        Disposition::QueueDmx => stats.with_queued(),
        Disposition::Drop => stats.with_drop(),
        _ => stats,
    }
}

impl ReceiveAction {
    /// The action does with a packet what its disposition says.
    pub open spec fn carries_out(
        self,
        disposition: Disposition,
        bytes: Seq<u8>,
        received_at: Instant,
    ) -> bool {
        match disposition {
            Disposition::ForwardAtOnce => self is ForwardAtOnce,
            Disposition::Forward => self is Forward,
            Disposition::QueueDmx => self matches ReceiveAction::Queue(Event::Dmx(packet))
                && packet.bytes@ == bytes && packet.received_at == received_at,
            Disposition::QueueSync => self matches ReceiveAction::Queue(Event::Sync(packet))
                && packet.bytes@ == bytes && packet.received_at == received_at,
            Disposition::Ignore => self is Ignore,
            Disposition::Drop => self is Drop,
        }
    }
}

/// Whether a packet of a kind is passed on where nothing is held back.
pub fn should_forward_immediately(kind: PacketKind, config: &SmootherConfig) -> (r: bool)
    ensures
        r == forwards(kind, *config),
        r == (match kind {
            PacketKind::ArtDmx { universe, .. } => match config.universes {
                Some(universes) => universes@.contains(universe),
                None => true,
            },
            PacketKind::ArtSync | PacketKind::ArtPoll | PacketKind::ArtPollReply => true,
            PacketKind::OtherArtNet { .. } | PacketKind::NonArtNet => config.unknown_policy
                == UnknownPolicy::Forward,
        }),
{
    match kind {
        PacketKind::ArtDmx { universe, .. } => config.is_allowed(universe),
        PacketKind::ArtSync | PacketKind::ArtPoll | PacketKind::ArtPollReply => true,
        PacketKind::OtherArtNet { .. } | PacketKind::NonArtNet => config.unknown_policy
            == UnknownPolicy::Forward,
    }
}

/// Takes in a packet where nothing is held back.
pub fn receive_passthrough(packet: &[u8], config: &SmootherConfig, stats: &mut Stats) -> (r:
    ReceiveAction)
    ensures
        ({
            let kind = artnet::kind_of(packet@);
            let disposition = passthrough_disposition(kind, *config);
            &&& forall|received_at: Instant| #[trigger] r.carries_out(disposition, packet@, received_at)
            &&& *final(stats) == disposed(old(stats).with_input(kind), disposition)
        }),
        match artnet::kind_of(packet@) {
            PacketKind::ArtDmx { universe, .. } => match config.universes {
                Some(universes) => if universes@.contains(universe) {
                    r is ForwardAtOnce
                } else {
                    r is Drop
                },
                None => r is ForwardAtOnce,
            },
            PacketKind::ArtSync | PacketKind::ArtPoll | PacketKind::ArtPollReply => r is ForwardAtOnce,
            PacketKind::OtherArtNet { .. } | PacketKind::NonArtNet => match config.unknown_policy {
                UnknownPolicy::Forward => r is ForwardAtOnce,
                UnknownPolicy::Drop => r is Drop,
            },
        },
        *final(stats) == (Stats {
            input_packets: old(stats).input_packets.wrapping_add(1),
            input_dmx: if artnet::kind_of(packet@) is ArtDmx {
                old(stats).input_dmx.wrapping_add(1)
            } else {
                old(stats).input_dmx
            },
            input_sync: if artnet::kind_of(packet@) is ArtSync {
                old(stats).input_sync.wrapping_add(1)
            } else {
                old(stats).input_sync
            },
            dropped_packets: if r is Drop {
                old(stats).dropped_packets.wrapping_add(1)
            } else {
                old(stats).dropped_packets
            },
            ..*old(stats)
        }),
{
    let kind = record_input(stats, packet);
    if should_forward_immediately(kind, config) {
        ReceiveAction::ForwardAtOnce
    } else {
        stats.count_drop();
        ReceiveAction::Drop
    }
}

/// Takes in a packet where ArtDmx is held back.
pub fn receive_buffered(
    packet: &[u8],
    received_at: Instant,
    config: &SmootherConfig,
    stats: &mut Stats,
) -> (r: ReceiveAction)
    ensures
        ({
            let kind = artnet::kind_of(packet@);
            let disposition = buffered_disposition(kind, *config);
            &&& r.carries_out(disposition, packet@, received_at)
            &&& *final(stats) == disposed(old(stats).with_input(kind), disposition)
        }),
        match artnet::kind_of(packet@) {
            PacketKind::ArtDmx { universe, .. } => {
                let listed = match config.universes {
                    Some(universes) => universes@.contains(universe),
                    None => true,
                };
                &&& listed ==> (r matches ReceiveAction::Queue(Event::Dmx(held)) && held.bytes@ == packet@
                    && held.received_at == received_at)
                &&& !listed ==> r is Drop
            },
            PacketKind::ArtSync => match config.mode {
                Mode::SyncDelay => r matches ReceiveAction::Queue(Event::Sync(held)) && held.bytes@
                    == packet@ && held.received_at == received_at,
                Mode::FixedFps => r is Ignore,
                Mode::Spread | Mode::Passthrough => r is ForwardAtOnce,
            },
            PacketKind::ArtPoll | PacketKind::ArtPollReply => r is Forward,
            PacketKind::OtherArtNet { .. } | PacketKind::NonArtNet => match config.unknown_policy {
                UnknownPolicy::Forward => r is Forward,
                UnknownPolicy::Drop => r is Drop,
            },
        },
        *final(stats) == (Stats {
            input_packets: old(stats).input_packets.wrapping_add(1),
            input_dmx: if artnet::kind_of(packet@) is ArtDmx {
                old(stats).input_dmx.wrapping_add(1)
            } else {
                old(stats).input_dmx
            },
            input_sync: if artnet::kind_of(packet@) is ArtSync {
                old(stats).input_sync.wrapping_add(1)
            } else {
                old(stats).input_sync
            },
            dropped_packets: if r is Drop {
                old(stats).dropped_packets.wrapping_add(1)
            } else {
                old(stats).dropped_packets
            },
            queued_packets: if r matches ReceiveAction::Queue(Event::Dmx(_)) {
                old(stats).queued_packets.wrapping_add(1)
            } else {
                old(stats).queued_packets
            },
            ..*old(stats)
        }),
{
    let kind = record_input(stats, packet);
    match kind {
        PacketKind::ArtDmx { universe, .. } => {
            if !config.is_allowed(universe) {
                stats.count_drop();
                return ReceiveAction::Drop;
            }
            stats.count_queued();
            let bytes = vstd::slice::slice_to_vec(packet);
            ReceiveAction::Queue(Event::Dmx(Packet { bytes, received_at }))
        },
        PacketKind::ArtSync => match config.mode {
            Mode::SyncDelay => {
                let bytes = vstd::slice::slice_to_vec(packet);
                ReceiveAction::Queue(Event::Sync(Packet { bytes, received_at }))
            },
            Mode::FixedFps => ReceiveAction::Ignore,
            _ => ReceiveAction::ForwardAtOnce,
        },
        _ => {
            if should_forward_immediately(kind, config) {
                ReceiveAction::Forward
            } else {
                stats.count_drop();
                ReceiveAction::Drop
            }
        },
    }
}

/// ArtDmx for a universe that is not on the list never goes out, in any mode.
pub proof fn law_unlisted_universe_is_dropped(universe: u16, length: u16, config: SmootherConfig)
    requires
        !config.allows(universe),
    ensures
        ({
            let kind = PacketKind::ArtDmx { universe, length };
            &&& passthrough_disposition(kind, config) is Drop
            &&& buffered_disposition(kind, config) is Drop
        }),
{
}

/// ArtDmx for a universe that is on the list is forwarded at once where nothing is held back, and
/// held back in every other case.
pub proof fn law_listed_universe_is_passed_on(universe: u16, length: u16, config: SmootherConfig)
    requires
        config.allows(universe),
    ensures
        ({
            let kind = PacketKind::ArtDmx { universe, length };
            &&& passthrough_disposition(kind, config) is ForwardAtOnce
            &&& buffered_disposition(kind, config) is QueueDmx
        }),
{
}

/// The list of universes decides over ArtDmx, in any mode: where there is one, a universe that it
/// holds is forwarded at once or held back, and one that it does not hold is dropped; where there is
/// none, nothing is dropped.
pub proof fn law_list_decides_over_dmx(universe: u16, length: u16, config: SmootherConfig)
    ensures
        ({
            let kind = PacketKind::ArtDmx { universe, length };
            match config.universes {
                Some(universes) => {
                    &&& passthrough_disposition(kind, config) is Drop <==> !universes@.contains(universe)
                    &&& passthrough_disposition(kind, config) is ForwardAtOnce <==> universes@.contains(
                        universe,
                    )
                    &&& buffered_disposition(kind, config) is Drop <==> !universes@.contains(universe)
                    &&& buffered_disposition(kind, config) is QueueDmx <==> universes@.contains(universe)
                    &&& config.allows(universe) <==> universes@.contains(universe)
                },
                None => {
                    &&& passthrough_disposition(kind, config) is ForwardAtOnce
                    &&& buffered_disposition(kind, config) is QueueDmx
                    &&& config.allows(universe)
                },
            }
        }),
{
}

/// An action does with a packet what it was decided: what is held back is the packet as it came in,
/// byte for byte, with the time at which it came.
pub proof fn law_actions_do_what_was_decided(
    action: ReceiveAction,
    disposition: Disposition,
    bytes: Seq<u8>,
    received_at: Instant,
)
    requires
        action.carries_out(disposition, bytes, received_at),
    ensures
        disposition is ForwardAtOnce <==> action is ForwardAtOnce,
        disposition is Forward <==> action is Forward,
        disposition is Ignore <==> action is Ignore,
        disposition is Drop <==> action is Drop,
        disposition is QueueDmx <==> action matches ReceiveAction::Queue(Event::Dmx(_)),
        disposition is QueueSync <==> action matches ReceiveAction::Queue(Event::Sync(_)),
        action matches ReceiveAction::Queue(Event::Dmx(held)) ==> held.bytes@ == bytes
            && held.received_at == received_at,
        action matches ReceiveAction::Queue(Event::Sync(held)) ==> held.bytes@ == bytes
            && held.received_at == received_at,
{
}

/// A packet that is not understood is forwarded or dropped, as the settings say, in any mode.
pub proof fn law_unknown_packets_follow_policy(kind: PacketKind, config: SmootherConfig)
    requires
        kind is OtherArtNet || kind is NonArtNet,
    ensures
        config.unknown_policy == UnknownPolicy::Forward ==> passthrough_disposition(
            kind,
            config,
        ) is ForwardAtOnce && buffered_disposition(kind, config) is Forward,
        config.unknown_policy == UnknownPolicy::Drop ==> passthrough_disposition(kind, config) is Drop
            && buffered_disposition(kind, config) is Drop,
{
}

/// ArtSync is forwarded at once, held back or ignored, as the mode says; it is never dropped.
pub proof fn law_sync_follows_mode(config: SmootherConfig)
    ensures
        passthrough_disposition(PacketKind::ArtSync, config) is ForwardAtOnce,
        config.mode == Mode::Spread ==> buffered_disposition(
            PacketKind::ArtSync,
            config,
        ) is ForwardAtOnce,
        config.mode == Mode::SyncDelay ==> buffered_disposition(
            PacketKind::ArtSync,
            config,
        ) is QueueSync,
        config.mode == Mode::FixedFps ==> buffered_disposition(PacketKind::ArtSync, config) is Ignore,
{
}

/// Polls and their replies are forwarded in any mode: at once where nothing is held back, and
/// otherwise as soon as the gap has passed.
pub proof fn law_polls_are_forwarded(kind: PacketKind, config: SmootherConfig)
    requires
        kind is ArtPoll || kind is ArtPollReply,
    ensures
        passthrough_disposition(kind, config) is ForwardAtOnce,
        buffered_disposition(kind, config) is Forward,
{
}

/// Only what is documented to go out at once does so without regard to the gap: everything in
/// passthrough mode, and ArtSync in spread mode.
pub proof fn law_at_once_is_the_exception(kind: PacketKind, config: SmootherConfig)
    ensures
        disposition(kind, config) is ForwardAtOnce ==> config.mode == Mode::Passthrough || (config.mode
            == Mode::Spread && kind is ArtSync),
        disposition(kind, config) is Forward ==> config.mode != Mode::Passthrough,
{
}

/// A packet that comes in is counted as one, and as dropped or queued where it is, in any mode; only
/// ArtDmx adds to the queue.
pub proof fn law_packets_are_counted_once(
    kind: PacketKind,
    config: SmootherConfig,
    disposition: Disposition,
    stats: Stats,
)
    requires
        disposition == passthrough_disposition(kind, config) || disposition == buffered_disposition(
            kind,
            config,
        ),
    ensures
        ({
            let after = disposed(stats.with_input(kind), disposition);
            &&& after.input_packets == stats.input_packets.wrapping_add(1)
            &&& after.output_packets == stats.output_packets
            &&& after.dropped_packets == (if disposition is Drop {
                stats.dropped_packets.wrapping_add(1)
            } else {
                stats.dropped_packets
            })
            &&& after.queued_packets == (if disposition is QueueDmx {
                stats.queued_packets.wrapping_add(1)
            } else {
                stats.queued_packets
            })
            &&& disposition is QueueDmx ==> kind is ArtDmx
        }),
{
}

} // verus!
