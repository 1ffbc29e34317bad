use artnet_smoother::artnet::{PacketKind, ARTNET_ID, OP_DMX, OP_POLL, OP_POLL_REPLY, OP_SYNC};
use artnet_smoother::binary64::Double;
use artnet_smoother::config::{Mode, SmootherConfig, UnknownPolicy};
use artnet_smoother::duration::Instant;
use artnet_smoother::receive::{
    receive_buffered, receive_passthrough, should_forward_immediately, Event, ReceiveAction,
    MAX_PACKET_SIZE,
};
use artnet_smoother::stats::{record_input, Stats};

fn datagram(opcode: u16, universe: u16) -> Vec<u8> {
    let mut packet = vec![0u8; 20];
    packet[..8].copy_from_slice(&ARTNET_ID);
    packet[8..10].copy_from_slice(&opcode.to_le_bytes());
    packet[14..16].copy_from_slice(&universe.to_le_bytes());
    packet[17] = 2;
    packet
}

fn settings(mode: Mode, unknown_policy: UnknownPolicy) -> SmootherConfig {
    SmootherConfig {
        mode,
        fps: Double { bits: 40f64.to_bits() },
        stats: false,
        universes: Some([7u16, 8].into_iter().collect()),
        min_packet_gap: None,
        unknown_policy,
    }
}

fn buffered(packet: &[u8], mode: Mode, unknown_policy: UnknownPolicy, stats: &mut Stats) -> ReceiveAction {
    receive_buffered(packet, Instant { nanos: 99 }, &settings(mode, unknown_policy), stats)
}

const MODES: [Mode; 4] = [Mode::Passthrough, Mode::Spread, Mode::SyncDelay, Mode::FixedFps];

#[test]
fn an_ethernet_frame_fits() {
    assert_eq!(MAX_PACKET_SIZE, 1500);
}

#[test]
fn every_packet_is_counted_by_kind() {
    let mut stats = Stats::default();
    let kinds = [
        (OP_DMX, PacketKind::ArtDmx { universe: 7, length: 2 }),
        (OP_SYNC, PacketKind::ArtSync),
        (OP_SYNC, PacketKind::ArtSync),
        (OP_POLL, PacketKind::ArtPoll),
        (OP_POLL_REPLY, PacketKind::ArtPollReply),
        (0x6000, PacketKind::OtherArtNet { opcode: 0x6000 }),
    ];
    for (opcode, kind) in kinds {
        assert_eq!(record_input(&mut stats, &datagram(opcode, 7)), kind);
    }
    assert_eq!(record_input(&mut stats, b"hello"), PacketKind::NonArtNet);
    assert_eq!(
        stats,
        Stats { input_packets: 7, input_dmx: 1, input_sync: 2, ..Stats::default() }
    );
}

#[test]
fn counters_start_again_when_full() {
    let mut stats = Stats { input_packets: u64::MAX, input_dmx: u64::MAX, ..Stats::default() };
    record_input(&mut stats, &datagram(OP_DMX, 7));
    assert_eq!(stats, Stats::default());
    stats.dropped_packets = u64::MAX;
    stats.output_packets = u64::MAX;
    stats.late_frames = u64::MAX;
    stats.queued_packets = usize::MAX;
    stats.count_drop();
    stats.count_output();
    stats.count_late_frame();
    stats.count_queued();
    assert_eq!(stats, Stats::default());
    stats.count_unqueued();
    assert_eq!(stats.queued_packets, usize::MAX);
}

#[test]
fn forwarding_follows_list_and_policy() {
    for mode in MODES {
        let forward = settings(mode, UnknownPolicy::Forward);
        let drop = settings(mode, UnknownPolicy::Drop);
        for config in [&forward, &drop] {
            assert!(should_forward_immediately(PacketKind::ArtDmx { universe: 7, length: 2 }, config));
            assert!(!should_forward_immediately(PacketKind::ArtDmx { universe: 9, length: 2 }, config));
            assert!(should_forward_immediately(PacketKind::ArtSync, config));
            assert!(should_forward_immediately(PacketKind::ArtPoll, config));
            assert!(should_forward_immediately(PacketKind::ArtPollReply, config));
        }
        for kind in [PacketKind::OtherArtNet { opcode: 1 }, PacketKind::NonArtNet] {
            assert!(should_forward_immediately(kind, &forward));
            assert!(!should_forward_immediately(kind, &drop));
        }
    }
}

#[test]
fn passthrough_forwards_or_drops() {
    let config = settings(Mode::Passthrough, UnknownPolicy::Drop);
    let mut stats = Stats::default();
    for packet in [datagram(OP_DMX, 7), datagram(OP_SYNC, 0), datagram(OP_POLL, 0)] {
        let action = receive_passthrough(&packet, &config, &mut stats);
        assert!(matches!(action, ReceiveAction::ForwardAtOnce));
    }
    for packet in [datagram(OP_DMX, 9), datagram(0x6000, 0), b"hello".to_vec()] {
        let action = receive_passthrough(&packet, &config, &mut stats);
        assert!(matches!(action, ReceiveAction::Drop));
    }
    assert_eq!(
        stats,
        Stats { input_packets: 6, input_dmx: 2, input_sync: 1, dropped_packets: 3, ..Stats::default() }
    );
}

#[test]
fn buffering_holds_listed_dmx() {
    for mode in MODES {
        let mut stats = Stats::default();
        let packet = datagram(OP_DMX, 8);
        match buffered(&packet, mode, UnknownPolicy::Drop, &mut stats) {
            ReceiveAction::Queue(Event::Dmx(held)) => {
                assert_eq!(held.bytes, packet);
                assert_eq!(held.received_at, Instant { nanos: 99 });
            }
            other => panic!("{other:?}"),
        }
        assert_eq!(
            stats,
            Stats { input_packets: 1, input_dmx: 1, queued_packets: 1, ..Stats::default() }
        );
    }
}

#[test]
fn buffering_drops_unlisted_dmx() {
    for mode in MODES {
        let mut stats = Stats::default();
        let action = buffered(&datagram(OP_DMX, 9), mode, UnknownPolicy::Forward, &mut stats);
        assert!(matches!(action, ReceiveAction::Drop));
        assert_eq!(
            stats,
            Stats { input_packets: 1, input_dmx: 1, dropped_packets: 1, ..Stats::default() }
        );
    }
}

#[test]
fn buffering_treats_sync_by_mode() {
    let sync = datagram(OP_SYNC, 0);
    let counted = Stats { input_packets: 1, input_sync: 1, ..Stats::default() };
    for mode in [Mode::Spread, Mode::Passthrough] {
        let mut stats = Stats::default();
        let action = buffered(&sync, mode, UnknownPolicy::Drop, &mut stats);
        assert!(matches!(action, ReceiveAction::ForwardAtOnce));
        assert_eq!(stats, counted);
    }
    let mut stats = Stats::default();
    match buffered(&sync, Mode::SyncDelay, UnknownPolicy::Drop, &mut stats) {
        ReceiveAction::Queue(Event::Sync(held)) => {
            assert_eq!(held.bytes, sync);
            assert_eq!(held.received_at, Instant { nanos: 99 });
        }
        other => panic!("{other:?}"),
    }
    assert_eq!(stats, counted);
    let mut stats = Stats::default();
    let action = buffered(&sync, Mode::FixedFps, UnknownPolicy::Forward, &mut stats);
    assert!(matches!(action, ReceiveAction::Ignore));
    assert_eq!(stats, counted);
}

#[test]
fn buffering_forwards_polls_and_follows_the_policy() {
    for mode in MODES {
        for policy in [UnknownPolicy::Forward, UnknownPolicy::Drop] {
            let mut stats = Stats::default();
            for opcode in [OP_POLL, OP_POLL_REPLY] {
                let action = buffered(&datagram(opcode, 0), mode, policy, &mut stats);
                assert!(matches!(action, ReceiveAction::Forward));
            }
            assert_eq!(stats.dropped_packets, 0);
            for packet in [datagram(0x6000, 0), datagram(OP_DMX, 7)[..17].to_vec(), vec![]] {
                let action = buffered(&packet, mode, policy, &mut stats);
                match policy {
                    UnknownPolicy::Forward => assert!(matches!(action, ReceiveAction::Forward)),
                    UnknownPolicy::Drop => assert!(matches!(action, ReceiveAction::Drop)),
                }
            }
            let dropped = if policy == UnknownPolicy::Drop { 3 } else { 0 };
            assert_eq!(
                stats,
                Stats { input_packets: 5, dropped_packets: dropped, ..Stats::default() }
            );
        }
    }
}
