use vstd::prelude::*;

use crate::node::packets::flood_packet::{flood_unpack, FloodPacket};
use crate::node::packets::frame::{parse_tcp_packet, parse_udp_packet, tcp_packet_of, udp_payload_of};
use crate::node::packets::packet::{is_packet_of, PacketType};
use crate::node::packets::stream_packet::StreamPacket;

verus! {

/// The port on which nodes listen, over TCP and UDP.
pub const LISTENER_PORT: u16 = 1234;

/// Why a received buffer holds no packet a node can take.
#[derive(Debug, PartialEq, Eq, Structural)]
pub enum FrameError {
    /// The size field is below the header or beyond the buffer.
    Malformed,
    /// The kind byte names no packet kind.
    UnknownKind,
    /// The kind is a flood but the payload holds no flood packet.
    BadFlood,
}

/// What a node reads out of a TCP receive buffer: the packet of the kind
/// and payload that the buffer frames, or why there is none.
pub open spec fn received_packet(buf: Seq<u8>, r: Result<PacketType, FrameError>) -> bool {
    match tcp_packet_of(buf) {
        None => r == Err::<PacketType, FrameError>(FrameError::Malformed),
        Some((kind, payload)) => if kind > 4 {
            r == Err::<PacketType, FrameError>(FrameError::UnknownKind)
        } else if kind == 0 && flood_unpack(payload) is None {
            r == Err::<PacketType, FrameError>(FrameError::BadFlood)
        } else {
            r matches Ok(p) && is_packet_of(kind, payload, Some(p))
        },
    }
}

/// Reads the packet out of a TCP receive buffer: kind in the first byte,
/// size in the next two, payload up to the size.
pub fn read_packet(buf: &[u8]) -> (r: Result<PacketType, FrameError>)
    ensures
        received_packet(buf@, r),
{
    let (kind, payload) = match parse_tcp_packet(buf) {
        Some(frame) => frame,
        None => {
            return Err(FrameError::Malformed);
        },
    };
    if kind > 4 {
        return Err(FrameError::UnknownKind);
    }
    if kind == 0 && FloodPacket::decode(payload.as_slice()).is_none() {
        return Err(FrameError::BadFlood);
    }
    match PacketType::from_u8(kind, payload) {
        Some(p) => Ok(p),
        None => {
            assert(false);
            Err(FrameError::UnknownKind)
        },
    }
}

/// Reads the piece of the stream out of a UDP receive buffer: size in the
/// first two bytes, data up to the size. `None` when the size is below
/// the size field or beyond the buffer.
pub fn read_stream_packet(buf: &[u8]) -> (r: Option<StreamPacket>)
    ensures
        match udp_payload_of(buf@) {
            Some(data) => r matches Some(p) && p.data@ == data,
            None => r is None,
        },
{
    match parse_udp_packet(buf) {
        Some(data) => Some(StreamPacket::from_bytes_packet_type(data)),
        None => None,
    }
}

} // verus!
