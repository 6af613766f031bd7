use vstd::prelude::*;

use crate::clock::now_millis;
use crate::node::flooding::link::Link;
use crate::node::packets::frame::{
    be16_bytes, lemma_size_field_small, law_tcp_frame_roundtrip, size_field, size_field_of,
    tcp_frame, tcp_packet_of,
};

verus! {

/// The MessagePack encoding (as `rmp_serde::to_vec` writes it) of a flood
/// packet with these fields: an array of the source, the jumps and the
/// timestamp; `None` when the encoder fails on them.
pub uninterp spec fn flood_msgpack(source: Seq<char>, jumps: u32, timestamp: u64) -> Option<
    Seq<u8>,
>;

/// The fields of a flood packet that `rmp_serde` reads from the start of
/// `bytes` (an array of a string and two unsigned integers), or `None`
/// when it reads none.
pub uninterp spec fn flood_unpack(bytes: Seq<u8>) -> Option<(Seq<char>, u32, u64)>;

/// Calls `rmp_serde::to_vec` on the fields of a flood packet: it succeeds
/// exactly when `flood_msgpack` names an encoding, the bytes are that
/// encoding, and reading them back with `rmp_serde` gives the same fields.
/// The error's text is `rmp_serde::encode::Error`'s and is not stated.
#[verifier::external_body]
fn encode_flood_fields(source: &String, jumps: u32, timestamp: u64) -> (r: Result<
    Vec<u8>,
    String,
>)
    ensures
        match flood_msgpack(source@, jumps, timestamp) {
            Some(enc) => r matches Ok(v) && v@ == enc && flood_unpack(v@) == Some(
                (source@, jumps, timestamp),
            ),
            None => r is Err,
        },
{
    match rmp_serde::to_vec(&(source, jumps, timestamp)) {
        Ok(v) => Ok(v),
        Err(err) => Err(err.to_string()),
    }
}

/// Reads the fields of a flood packet with `rmp_serde::Deserializer` from
/// the start of `bytes`: the result is the one named by `flood_unpack`.
#[verifier::external_body]
fn decode_flood_fields(bytes: &[u8]) -> (r: Option<(String, u32, u64)>)
    ensures
        match flood_unpack(bytes@) {
            Some((s, j, t)) => r matches Some((a, b, c)) && a@ == s && b == j && c == t,
            None => r is None,
        },
{
    let mut des = rmp_serde::Deserializer::new(bytes);
    match <(String, u32, u64) as serde::Deserialize>::deserialize(&mut des) {
        Ok(fields) => Some(fields),
        Err(_) => None,
    }
}

/// A flood packet: the node that started the flood, how many jumps it
/// has made, and when it was sent (milliseconds since the Unix epoch).
#[derive(Debug)]
pub struct FloodPacket {
    pub source: String,
    pub jumps: u32,
    pub timestamp: u64,
}

/// The payload of a flood packet, if it can be encoded.
pub open spec fn flood_payload(p: FloodPacket) -> Option<Seq<u8>> {
    flood_msgpack(p.source@, p.jumps, p.timestamp)
}

/// `p` holds the fields read from `bytes`.
pub open spec fn unpacks_to(bytes: Seq<u8>, p: FloodPacket) -> bool {
    flood_unpack(bytes) == Some((p.source@, p.jumps, p.timestamp))
}

/// `b` is what a node sends for the flood packet `p`: kind `0`, the size
/// field and the payload, a payload from which `p`'s fields read back.
pub open spec fn flood_bytes_of(p: FloodPacket, b: Seq<u8>) -> bool {
    &&& flood_payload(p) matches Some(payload)
    &&& size_field(payload.len()) matches Some(size)
    &&& b == tcp_frame(0, size, payload)
    &&& unpacks_to(payload, p)
}

/// What a node sends for a flood packet, a node reads back, whatever
/// follows in its buffer, as a flood packet with the same fields. (A
/// payload of 65533 bytes or more has its size cut to 16 bits and does not
/// read back.)
pub proof fn law_flood_bytes_read_back(p: FloodPacket, b: Seq<u8>, rest: Seq<u8>)
    requires
        flood_bytes_of(p, b),
        flood_payload(p)->0.len() + 3 <= 65535,
    ensures
        tcp_packet_of(b + rest) matches Some((kind, payload)) && kind == 0 && Some(payload)
            == flood_payload(p) && unpacks_to(payload, p),
{
    let payload = flood_payload(p)->0;
    lemma_size_field_small(payload.len());
    law_tcp_frame_roundtrip(0, payload, rest);
}

impl FloodPacket {
    /// A flood packet from `source` that has made `cost` jumps, sent at
    /// `timestamp` (milliseconds since the Unix epoch).
    pub fn new(source: String, cost: u32, timestamp: u64) -> (p: Self)
        ensures
            p.source == source,
            p.jumps == cost,
            p.timestamp == timestamp,
    {
        Self { source, jumps: cost, timestamp }
    }

    /// Reads a flood packet out of a payload; `None` when the payload
    /// holds none.
    pub fn decode(bytes: &[u8]) -> (r: Option<FloodPacket>)
        ensures
            match flood_unpack(bytes@) {
                Some(_) => r matches Some(p) && unpacks_to(bytes@, p),
                None => r is None,
            },
    {
        match decode_flood_fields(bytes) {
            Some((source, jumps, timestamp)) => Some(FloodPacket { source, jumps, timestamp }),
            None => None,
        }
    }

    /// Reads the flood packet out of a payload that holds one.
    pub fn from_bytes_packet_type(bytes: Vec<u8>) -> (p: FloodPacket)
        requires
            flood_unpack(bytes@) is Some,
        ensures
            unpacks_to(bytes@, p),
    {
        match Self::decode(bytes.as_slice()) {
            Some(p) => p,
            None => {
                assert(false);
                FloodPacket { source: String::new(), jumps: 0, timestamp: 0 }
            },
        }
    }

    /// The bytes sent for this packet: kind `0`, the size field, then the
    /// MessagePack payload. An error when the encoder fails or when the
    /// size field would overflow.
    pub fn to_bytes(&self) -> (r: Result<Vec<u8>, String>)
        ensures
            match flood_payload(*self) {
                None => r is Err,
                Some(payload) => match size_field(payload.len()) {
                    Some(_) => r matches Ok(b) && flood_bytes_of(*self, b@),
                    None => r matches Err(e) && e@ == "Flood packet is too large"@,
                },
            },
    {
        let pack_type: u8 = 0;
        let mut data = match encode_flood_fields(&self.source, self.jumps, self.timestamp) {
            Ok(vec) => vec,
            Err(err) => return Err(err),
        };
        let size = match size_field_of(data.len()) {
            Some(size) => size,
            None => return Err(String::from_str("Flood packet is too large")),
        };
        let mut pack_data: Vec<u8> = Vec::new();
        pack_data.push(pack_type);
        let mut size_bytes = be16_bytes(size);
        pack_data.append(&mut size_bytes);
        pack_data.append(&mut data);
        Ok(pack_data)
    }

    /// The flood packet a node sends on over its links, sent at `now`:
    /// it names the link's address as source, with one jump more.
    pub fn from_link_at(link: &Link, now: u64) -> (p: Self)
        requires
            link.jumps < u32::MAX,
        ensures
            p.source@ == link.addr@,
            p.jumps == link.jumps + 1,
            p.timestamp == now,
    {
        Self { source: link.addr.clone(), jumps: link.jumps + 1, timestamp: now }
    }

    /// As `from_link_at`, sent now by the system clock; an error when the
    /// clock is before the Unix epoch.
    pub fn from_link(link: &Link) -> (r: Result<Self, String>)
        requires
            link.jumps < u32::MAX,
        ensures
            r matches Ok(p) ==> p.source@ == link.addr@ && p.jumps == link.jumps + 1,
            r matches Err(e) ==> e@ == "System clock is before the Unix epoch"@,
    {
        match now_millis() {
            Some(now) => Ok(Self::from_link_at(link, now)),
            None => Err(String::from_str("System clock is before the Unix epoch")),
        }
    }

    /// The packet kind of flood packets.
    pub fn get_type(&self) -> (t: u8)
        ensures
            t == 0,
    {
        0
    }
}

} // verus!
