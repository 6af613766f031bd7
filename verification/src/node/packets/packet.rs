use vstd::prelude::*;

use crate::node::flooding::routing_table::{
    flood_outcome, has_client, has_link, refuse_outcome, request_outcome, request_refused,
    RoutingTable,
};
use crate::node::packets::ack_packet::AckPacket;
use crate::node::packets::flood_packet::{flood_unpack, unpacks_to, FloodPacket};
use crate::node::packets::refuse_packet::RefusePacket;
use crate::node::packets::request_packet::RequestPacket;
use crate::node::packets::stream_packet::StreamPacket;

verus! {

broadcast use vstd::string::group_string_axioms;

/// The packets nodes exchange, by kind: `0` flood, `1` request, `2`
/// acknowledgement, `3` refusal, `4` stream.
#[derive(Debug)]
pub enum PacketType {
    Flood(FloodPacket),
    Request(RequestPacket),
    Ack(AckPacket),
    Stream(StreamPacket),
    Refuse(RefusePacket),
}

/// `r` is the packet of kind `value` read from the payload `bytes`:
/// `None` for an unknown kind.
pub open spec fn is_packet_of(value: u8, bytes: Seq<u8>, r: Option<PacketType>) -> bool {
    if value == 0 {
        r matches Some(PacketType::Flood(p)) && unpacks_to(bytes, p)
    } else if value == 1 {
        r == Some(PacketType::Request(RequestPacket {}))
    } else if value == 2 {
        r == Some(PacketType::Ack(AckPacket {}))
    } else if value == 3 {
        r == Some(PacketType::Refuse(RefusePacket {}))
    } else if value == 4 {
        r matches Some(PacketType::Stream(p)) && p.data@ == bytes
    } else {
        r is None
    }
}

/// What a node does after it took a packet into its table: nothing more
/// (with whether its closest link changed), or send `bytes` to the node at
/// the address.
#[derive(Debug)]
pub enum Reply {
    Done(bool),
    Forward(String, Vec<u8>),
}

/// The step a node takes on `packet` from `peer` at the time `now`
/// (milliseconds since the Unix epoch), from the table `old` to `new`,
/// answering `r`.
pub open spec fn step_outcome(
    packet: PacketType,
    old: RoutingTable,
    peer: Seq<char>,
    now: u64,
    new: RoutingTable,
    r: Result<Reply, String>,
) -> bool {
    match packet {
        PacketType::Flood(p) => r matches Ok(Reply::Done(changed)) && flood_outcome(
            old,
            peer,
            p,
            now,
            new,
            Ok(changed),
        ),
        PacketType::Request(_) => {
            &&& request_outcome(old, peer, new, Ok(true))
            &&& if new.num_stream_connections == 1 {
                r matches Ok(Reply::Forward(addr, bytes)) && addr@ == new.closest_link.addr@
                    && bytes@ == seq![1u8, 0u8, 3u8]
            } else {
                r matches Ok(Reply::Done(false))
            }
        },
        PacketType::Refuse(_) => if has_link(old.links@, peer) || has_client(old.clients@, peer) {
            &&& refuse_outcome(old, peer, new, Ok(()))
            &&& if new.num_stream_connections > 0 {
                r matches Ok(Reply::Done(false))
            } else {
                r matches Ok(Reply::Forward(addr, bytes)) && addr@ == new.closest_link.addr@
                    && bytes@ == seq![3u8, 0u8, 3u8]
            }
        } else {
            &&& new == old
            &&& r matches Err(e) && e@ == "Node wasn't receiving the stream..."@
        },
        PacketType::Ack(_) => {
            &&& new == old
            &&& r matches Err(e) && e@ == "Acknowledgements are not handled"@
        },
        PacketType::Stream(_) => {
            &&& new == old
            &&& r matches Err(e) && e@ == "FIXME"@
        },
    }
}

/// The packet `p` can be taken at `now` by a node with table `t` from
/// `peer`: a flood packet comes over a known link and not from the
/// future, a request is not refused and leaves room in the connection
/// count, and a refusal from a link finds a connection to end.
pub open spec fn step_allowed(p: PacketType, t: RoutingTable, peer: Seq<char>, now: u64) -> bool {
    match p {
        PacketType::Flood(f) => has_link(t.links@, peer) && f.timestamp <= now,
        PacketType::Request(_) => !request_refused(t, peer) && t.num_stream_connections
            < u32::MAX,
        PacketType::Refuse(_) => has_link(t.links@, peer) ==> t.num_stream_connections > 0,
        _ => true,
    }
}

/// A request that the node accepts while it serves no stream is its
/// first stream connection, whoever asks, a link or a client: the node
/// forwards the request, as a request frame, to its closest link.
/// Accepted while it already serves one, it is not forwarded.
pub proof fn law_first_request_forwarded(
    old: RoutingTable,
    peer: Seq<char>,
    now: u64,
    new: RoutingTable,
    r: Result<Reply, String>,
)
    requires
        !request_refused(old, peer),
        step_outcome(PacketType::Request(RequestPacket {}), old, peer, now, new, r),
    ensures
        old.num_stream_connections == 0 ==> (r matches Ok(Reply::Forward(addr, bytes)) && addr@
            == old.closest_link.addr@ && bytes@ == seq![1u8, 0u8, 3u8]),
        old.num_stream_connections > 0 ==> r matches Ok(Reply::Done(false)),
        new.num_stream_connections == old.num_stream_connections + 1,
{
}

impl PacketType {
    /// The packet of kind `value` read from the payload `bytes`; `None`
    /// for an unknown kind.
    pub fn from_u8(value: u8, bytes: Vec<u8>) -> (r: Option<PacketType>)
        requires
            value == 0 ==> flood_unpack(bytes@) is Some,
        ensures
            is_packet_of(value, bytes@, r),
    {
        let ghost b = bytes@;
        match value {
            0 => Some(PacketType::Flood(FloodPacket::from_bytes_packet_type(bytes))),
            1 => Some(PacketType::Request(RequestPacket::from_bytes_packet_type(bytes))),
            2 => Some(PacketType::Ack(AckPacket::from_bytes_packet_type(bytes))),
            3 => Some(PacketType::Refuse(RefusePacket::from_bytes_packet_type(bytes))),
            4 => Some(PacketType::Stream(StreamPacket::from_bytes_packet_type(bytes))),
            _ => None,
        }
    }

    /// As `from_u8`, but an error when the kind is `0` and the payload
    /// holds no flood packet.
    pub fn try_from_u8(value: u8, bytes: Vec<u8>) -> (r: Result<Option<PacketType>, String>)
        ensures
            value == 0 && flood_unpack(bytes@) is None ==> (r matches Err(e) && e@
                == "Flood packet could not be decoded"@),
            !(value == 0 && flood_unpack(bytes@) is None) ==> (r matches Ok(p) && is_packet_of(
                value,
                bytes@,
                p,
            )),
    {
        if value == 0 {
            if FloodPacket::decode(bytes.as_slice()).is_none() {
                return Err(String::from_str("Flood packet could not be decoded"));
            }
        }
        Ok(Self::from_u8(value, bytes))
    }

    /// Whether this packet, from `peer_addr` at `now`, can be taken into
    /// the table (see `step_allowed`).
    pub fn allowed(&self, table: &RoutingTable, peer_addr: &String, now: u64) -> (r: bool)
        ensures
            r == step_allowed(*self, *table, peer_addr@, now),
    {
        match self {
            PacketType::Flood(f) => table.knows_link(peer_addr) && f.timestamp <= now,
            PacketType::Request(_) => !table.refuses_request(peer_addr)
                && table.num_stream_connections < u32::MAX,
            PacketType::Refuse(_) => !table.knows_link(peer_addr)
                || table.num_stream_connections > 0,
            _ => true,
        }
    }

    /// Takes this packet, which came from `peer_addr` at `now`, into the
    /// table, and says what the node must do next. A flood updates the
    /// table and tells whether the closest link changed. A request updates
    /// the table and, when it is the node's first stream connection, is
    /// forwarded to the closest link. A refusal updates the table and, when
    /// the node serves no stream any more, is forwarded to the closest link.
    /// Acknowledgements and stream packets are errors here.
    pub fn apply(&self, table: &mut RoutingTable, peer_addr: String, now: u64) -> (r: Result<
        Reply,
        String,
    >)
        requires
            step_allowed(*self, *old(table), peer_addr@, now),
        ensures
            step_outcome(*self, *old(table), peer_addr@, now, *final(table), r),
    {
        match self {
            PacketType::Flood(packet) => {
                match table.handle_flood_packet_at(peer_addr, packet, now) {
                    Ok(changed) => Ok(Reply::Done(changed)),
                    Err(e) => Err(e),
                }
            },
            PacketType::Request(packet) => {
                match table.handle_request_packet(peer_addr) {
                    Ok(_) => {},
                    Err(e) => {
                        return Err(e);
                    },
                }
                if table.num_stream_connections == 1 {
                    Ok(Reply::Forward(table.closest_link.addr.clone(), packet.to_bytes()))
                } else {
                    Ok(Reply::Done(false))
                }
            },
            PacketType::Refuse(packet) => {
                match table.handle_refuse_packet(peer_addr) {
                    Ok(_) => {
                        if table.has_active_connections() {
                            Ok(Reply::Done(false))
                        } else {
                            match packet.to_bytes() {
                                Ok(bytes) => Ok(
                                    Reply::Forward(table.closest_link.addr.clone(), bytes),
                                ),
                                Err(e) => Err(e),
                            }
                        }
                    },
                    Err(e) => Err(e),
                }
            },
            PacketType::Ack(_) => Err(String::from_str("Acknowledgements are not handled")),
            PacketType::Stream(_) => Err(String::from_str("FIXME")),
        }
    }
}

} // verus!
