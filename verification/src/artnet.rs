//! What an incoming datagram is.

use vstd::prelude::*;

verus! {

/// The eight bytes that every Art-Net packet starts with: `Art-Net` and a zero.
pub const ARTNET_ID: [u8; 8] = [0x41, 0x72, 0x74, 0x2d, 0x4e, 0x65, 0x74, 0x00];

pub const OP_POLL: u16 = 0x2000;

pub const OP_POLL_REPLY: u16 = 0x2100;

pub const OP_DMX: u16 = 0x5000;

pub const OP_SYNC: u16 = 0x5200;

/// The kinds of datagram that are told apart.
#[derive(Clone, Copy, Debug, PartialEq, Eq, Structural)]
pub enum PacketKind {
    ArtDmx { universe: u16, length: u16 },
    ArtSync,
    ArtPoll,
    ArtPollReply,
    OtherArtNet { opcode: u16 },
    NonArtNet,
}

/// The packet has the Art-Net identification, and an opcode behind it.
pub open spec fn is_artnet(packet: Seq<u8>) -> bool {
    packet.len() >= 10 && packet.subrange(0, 8) == ARTNET_ID@
}

/// Two bytes as a number, the low byte first.
pub open spec fn little_endian(low: u8, high: u8) -> u16 {
    (low + 256 * high) as u16
}

/// The opcode stands behind the identification, low byte first.
pub open spec fn opcode_of(packet: Seq<u8>) -> u16 {
    little_endian(packet[8], packet[9])
}

/// The universe that an ArtDmx packet is addressed to, low byte first.
pub open spec fn universe_of(packet: Seq<u8>) -> u16 {
    little_endian(packet[14], packet[15])
}

/// The number of channel bytes that an ArtDmx packet announces, high byte first.
pub open spec fn length_of(packet: Seq<u8>) -> u16 {
    little_endian(packet[17], packet[16])
}

/// An ArtDmx packet holds its header and all the channel bytes that it announces.
pub open spec fn is_whole_dmx(packet: Seq<u8>) -> bool {
    packet.len() >= 18 && packet.len() >= 18 + length_of(packet)
}

/// What a datagram is.
pub open spec fn kind_of(packet: Seq<u8>) -> PacketKind {
    let opcode = opcode_of(packet);
    if !is_artnet(packet) {
        PacketKind::NonArtNet
    } else if opcode == OP_DMX && is_whole_dmx(packet) {
        PacketKind::ArtDmx { universe: universe_of(packet), length: length_of(packet) }
    } else if opcode == OP_SYNC {
        PacketKind::ArtSync
    } else if opcode == OP_POLL {
        PacketKind::ArtPoll
    } else if opcode == OP_POLL_REPLY {
        PacketKind::ArtPollReply
    } else {
        PacketKind::OtherArtNet { opcode }
    }
}

/// Whether the packet starts with the identification.
fn has_artnet_id(packet: &[u8]) -> (r: bool)
    requires
        packet.len() >= 8,
    ensures
        r == (packet@.subrange(0, 8) == ARTNET_ID@),
{
    let id: [u8; 8] = ARTNET_ID;
    let mut i: usize = 0;
    while i < 8
        invariant
            i <= 8 <= packet.len(),
            id@ == ARTNET_ID@,
            forall|j: int| 0 <= j < i ==> packet[j] == id[j],
        decreases 8 - i,
    {
        if packet[i] != id[i] {
            assert(packet@.subrange(0, 8)[i as int] != ARTNET_ID@[i as int]);
            return false;
        }
        i = i + 1;
    }
    assert(packet@.subrange(0, 8) =~= ARTNET_ID@);
    true
}

/// What a datagram is. An ArtDmx packet that is cut short counts as any other Art-Net packet.
pub fn classify(packet: &[u8]) -> (r: PacketKind)
    ensures
        r == kind_of(packet@),
{
    if packet.len() < 10 || !has_artnet_id(packet) {
        return PacketKind::NonArtNet;
    }
    let opcode: u16 = packet[8] as u16 + 256 * packet[9] as u16;
    match opcode {
        OP_DMX => match parse_dmx(packet) {
            Some(kind) => kind,
            None => PacketKind::OtherArtNet { opcode },
        },
        OP_SYNC => PacketKind::ArtSync,
        OP_POLL => PacketKind::ArtPoll,
        OP_POLL_REPLY => PacketKind::ArtPollReply,
        _ => PacketKind::OtherArtNet { opcode },
    }
}

/// The universe and length of an ArtDmx packet, unless it is cut short.
pub fn parse_dmx(packet: &[u8]) -> (r: Option<PacketKind>)
    ensures
        r == (if is_whole_dmx(packet@) {
            Some(PacketKind::ArtDmx { universe: universe_of(packet@), length: length_of(packet@) })
        } else {
            None
        }),
        r is Some <==> packet@.len() >= 18 && packet@.len() >= 18 + 256 * packet@[16] + packet@[17],
        r matches Some(kind) ==> (kind matches PacketKind::ArtDmx { universe, length } && universe
            == packet@[14] + 256 * packet@[15] && length == 256 * packet@[16] + packet@[17]),
{
    if packet.len() < 18 {
        return None;
    }
    let universe: u16 = packet[14] as u16 + 256 * packet[15] as u16;
    let length: u16 = 256 * packet[16] as u16 + packet[17] as u16;
    if packet.len() < 18 + length as usize {
        return None;
    }
    Some(PacketKind::ArtDmx { universe, length })
}

/// The identification, byte by byte.
proof fn lemma_id_bytes(packet: Seq<u8>)
    requires
        packet.len() >= 8,
    ensures
        packet.subrange(0, 8) == ARTNET_ID@ <==> packet[0] == 0x41 && packet[1] == 0x72 && packet[2]
            == 0x74 && packet[3] == 0x2d && packet[4] == 0x4e && packet[5] == 0x65 && packet[6] == 0x74
            && packet[7] == 0x00,
{
    let front = packet.subrange(0, 8);
    let id = ARTNET_ID@;
    assert(id[0] == 0x41 && id[1] == 0x72 && id[2] == 0x74 && id[3] == 0x2d && id[4] == 0x4e && id[5]
        == 0x65 && id[6] == 0x74 && id[7] == 0x00);
    assert(front[0] == packet[0] && front[1] == packet[1] && front[2] == packet[2] && front[3]
        == packet[3] && front[4] == packet[4] && front[5] == packet[5] && front[6] == packet[6]
        && front[7] == packet[7]);
    if packet[0] == 0x41 && packet[1] == 0x72 && packet[2] == 0x74 && packet[3] == 0x2d && packet[4]
        == 0x4e && packet[5] == 0x65 && packet[6] == 0x74 && packet[7] == 0x00 {
        assert(front =~= id);
    }
}

/// A datagram is no Art-Net exactly if it is shorter than ten bytes, or does not start with
/// `Art-Net` and a zero.
pub proof fn law_foreign_datagrams_by_bytes(packet: Seq<u8>)
    ensures
        kind_of(packet) is NonArtNet <==> packet.len() < 10 || packet[0] != 0x41 || packet[1] != 0x72
            || packet[2] != 0x74 || packet[3] != 0x2d || packet[4] != 0x4e || packet[5] != 0x65
            || packet[6] != 0x74 || packet[7] != 0x00,
{
    if packet.len() >= 10 {
        lemma_id_bytes(packet);
    }
}

/// A datagram is ArtDmx for a universe, with a length, exactly if it starts with the identification
/// and the opcode `0x5000`, low byte first, has the universe behind the fourteenth byte, low byte
/// first, and the length behind that, high byte first, and is long enough to hold so many channels.
/// No other byte counts.
pub proof fn law_dmx_by_bytes(packet: Seq<u8>, universe: u16, length: u16)
    ensures
        kind_of(packet) == (PacketKind::ArtDmx { universe, length }) <==> {
            &&& packet.len() >= 18
            &&& packet[0] == 0x41 && packet[1] == 0x72 && packet[2] == 0x74 && packet[3] == 0x2d
            &&& packet[4] == 0x4e && packet[5] == 0x65 && packet[6] == 0x74 && packet[7] == 0x00
            &&& packet[8] == 0x00 && packet[9] == 0x50
            &&& universe == packet[14] + 256 * packet[15]
            &&& length == 256 * packet[16] + packet[17]
            &&& packet.len() >= 18 + length
        },
{
    if packet.len() >= 10 {
        lemma_id_bytes(packet);
    }
}

/// The other kinds that are known are told by identification and opcode alone.
pub proof fn law_control_packets_by_bytes(packet: Seq<u8>)
    requires
        packet.len() >= 10,
        packet[0] == 0x41 && packet[1] == 0x72 && packet[2] == 0x74 && packet[3] == 0x2d,
        packet[4] == 0x4e && packet[5] == 0x65 && packet[6] == 0x74 && packet[7] == 0x00,
    ensures
        kind_of(packet) is ArtSync <==> packet[8] == 0x00 && packet[9] == 0x52,
        kind_of(packet) is ArtPoll <==> packet[8] == 0x00 && packet[9] == 0x20,
        kind_of(packet) is ArtPollReply <==> packet[8] == 0x00 && packet[9] == 0x21,
{
    lemma_id_bytes(packet);
}

/// Any other Art-Net packet, an ArtDmx packet that is cut short among them, keeps its opcode.
pub proof fn law_other_packets_by_bytes(packet: Seq<u8>, opcode: u16)
    requires
        packet.len() >= 10,
        packet[0] == 0x41 && packet[1] == 0x72 && packet[2] == 0x74 && packet[3] == 0x2d,
        packet[4] == 0x4e && packet[5] == 0x65 && packet[6] == 0x74 && packet[7] == 0x00,
    ensures
        kind_of(packet) == (PacketKind::OtherArtNet { opcode }) <==> {
            &&& opcode == packet[8] + 256 * packet[9]
            &&& opcode != 0x5200 && opcode != 0x2000 && opcode != 0x2100
            &&& opcode == 0x5000 ==> packet.len() < 18 || packet.len() < 18 + 256 * packet[16]
                + packet[17]
        },
{
    lemma_id_bytes(packet);
}

/// A whole ArtDmx packet is taken for what it says: both bytes of its universe count, and so do
/// both bytes of its length.
pub proof fn law_port_address_is_preserved(packet: Seq<u8>, universe: u16, length: u16)
    requires
        is_artnet(packet),
        opcode_of(packet) == OP_DMX,
        packet.len() >= 18 + length,
        packet[14] == universe % 256,
        packet[15] == universe / 256,
        packet[16] == length / 256,
        packet[17] == length % 256,
    ensures
        kind_of(packet) == (PacketKind::ArtDmx { universe, length }),
{
}

/// An ArtDmx packet that is cut short is no ArtDmx packet, and keeps its opcode.
pub proof fn law_truncated_dmx_is_other_artnet(packet: Seq<u8>)
    requires
        is_artnet(packet),
        opcode_of(packet) == OP_DMX,
        !is_whole_dmx(packet),
    ensures
        kind_of(packet) == (PacketKind::OtherArtNet { opcode: OP_DMX }),
{
}

/// What follows the channel bytes of a packet does not change what it is.
pub proof fn law_trailing_bytes_do_not_count(packet: Seq<u8>, tail: Seq<u8>)
    requires
        is_artnet(packet),
        opcode_of(packet) == OP_DMX ==> is_whole_dmx(packet),
    ensures
        kind_of(packet + tail) == kind_of(packet),
{
    assert((packet + tail).subrange(0, 8) =~= packet.subrange(0, 8));
}

} // verus!
