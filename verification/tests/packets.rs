use artnet_smoother::artnet::{
    classify, parse_dmx, PacketKind, ARTNET_ID, OP_DMX, OP_POLL, OP_POLL_REPLY, OP_SYNC,
};

fn packet_with(opcode: u16, len: usize) -> Vec<u8> {
    let mut packet = vec![0u8; len];
    packet[..8].copy_from_slice(&ARTNET_ID);
    packet[8..10].copy_from_slice(&opcode.to_le_bytes());
    packet
}

#[test]
fn classifies_art_dmx_and_preserves_port_address() {
    let mut packet = vec![0u8; 18 + 3];
    packet[..8].copy_from_slice(&ARTNET_ID);
    packet[8..10].copy_from_slice(&OP_DMX.to_le_bytes());
    packet[14] = 0x34;
    packet[15] = 0x12;
    packet[16..18].copy_from_slice(&3u16.to_be_bytes());

    assert_eq!(
        classify(&packet),
        PacketKind::ArtDmx {
            universe: 0x1234,
            length: 3
        }
    );
}

#[test]
fn rejects_truncated_art_dmx_as_other_artnet() {
    let mut packet = vec![0u8; 19];
    packet[..8].copy_from_slice(&ARTNET_ID);
    packet[8..10].copy_from_slice(&OP_DMX.to_le_bytes());
    packet[16..18].copy_from_slice(&2u16.to_be_bytes());

    assert_eq!(
        classify(&packet),
        PacketKind::OtherArtNet { opcode: OP_DMX }
    );
}

#[test]
fn classifies_sync() {
    let mut packet = vec![0u8; 14];
    packet[..8].copy_from_slice(&ARTNET_ID);
    packet[8..10].copy_from_slice(&OP_SYNC.to_le_bytes());

    assert_eq!(classify(&packet), PacketKind::ArtSync);
}

#[test]
fn classifies_poll_and_reply() {
    assert_eq!(classify(&packet_with(OP_POLL, 14)), PacketKind::ArtPoll);
    assert_eq!(
        classify(&packet_with(OP_POLL_REPLY, 10)),
        PacketKind::ArtPollReply
    );
}

#[test]
fn identification_is_the_text_and_a_zero() {
    assert_eq!(&ARTNET_ID, b"Art-Net\0");
}

#[test]
fn other_opcodes_are_kept() {
    assert_eq!(
        classify(&packet_with(0x6000, 10)),
        PacketKind::OtherArtNet { opcode: 0x6000 }
    );
}

#[test]
fn short_or_foreign_datagrams_are_not_artnet() {
    assert_eq!(classify(&[]), PacketKind::NonArtNet);
    assert_eq!(classify(&packet_with(OP_SYNC, 10)[..9]), PacketKind::NonArtNet);
    for i in 0..8 {
        let mut packet = packet_with(OP_SYNC, 14);
        packet[i] ^= 1;
        assert_eq!(classify(&packet), PacketKind::NonArtNet);
    }
}

#[test]
fn dmx_length_may_be_zero_or_less_than_the_rest() {
    let mut packet = packet_with(OP_DMX, 18);
    assert_eq!(
        classify(&packet),
        PacketKind::ArtDmx { universe: 0, length: 0 }
    );
    packet.extend_from_slice(&[1, 2, 3, 4]);
    packet[17] = 2;
    assert_eq!(
        classify(&packet),
        PacketKind::ArtDmx { universe: 0, length: 2 }
    );
}

#[test]
fn dmx_header_must_be_whole() {
    assert_eq!(parse_dmx(&packet_with(OP_DMX, 17)), None);
    assert_eq!(
        classify(&packet_with(OP_DMX, 17)),
        PacketKind::OtherArtNet { opcode: OP_DMX }
    );
    let mut packet = packet_with(OP_DMX, 17 + 0x102);
    packet[16] = 1;
    packet[17] = 2;
    assert_eq!(parse_dmx(&packet), None);
    packet.push(0);
    assert_eq!(
        parse_dmx(&packet),
        Some(PacketKind::ArtDmx { universe: 0, length: 0x102 })
    );
}
