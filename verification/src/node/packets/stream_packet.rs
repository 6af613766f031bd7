use vstd::prelude::*;

use crate::node::flooding::routing_table::{stream_targets, RoutingTable};
use crate::node::packets::frame::{be16, be16_bytes, size_field, size_field_of, udp_payload_of};
use crate::text::views;

verus! {

/// A piece of the stream.
#[derive(Debug)]
pub struct StreamPacket {
    pub data: Vec<u8>,
}

/// A node that reads a framed piece of the stream out of its UDP buffer
/// gets the data and the one byte that follows it: the size field counts
/// three header bytes where the frame has two. With nothing after the
/// data in the buffer, it reads nothing.
pub proof fn law_stream_frame_read_back(data: Seq<u8>, rest: Seq<u8>)
    requires
        data.len() + 3 <= 65535,
    ensures
        size_field(data.len()) == Some((data.len() + 3) as u16),
        rest.len() >= 1 ==> udp_payload_of(be16(data.len() + 3int) + data + rest) == Some(
            data + rest.take(1),
        ),
        rest.len() == 0 ==> udp_payload_of(be16(data.len() + 3int) + data + rest) is None,
{
    let n: int = data.len() + 3int;
    let buf = be16(n) + data + rest;
    assert(buf[0] == (n / 256) as u8);
    assert(buf[1] == (n % 256) as u8);
    assert(buf[0] as int * 256 + buf[1] as int == n);
    if rest.len() >= 1 {
        assert(buf.subrange(2, n) =~= data + rest.take(1));
    }
}

impl StreamPacket {
    /// A piece of the stream holding `data`.
    pub fn new(data: Vec<u8>) -> (p: Self)
        ensures
            p.data == data,
    {
        Self { data }
    }

    /// The stream packet read from a payload: the payload is the data.
    pub fn from_bytes_packet_type(bytes: Vec<u8>) -> (p: StreamPacket)
        ensures
            p.data == bytes,
    {
        Self { data: bytes }
    }

    /// The bytes sent for this piece: the 16-bit size field, then the
    /// data. The data moves into the result and the packet is left empty.
    pub fn to_bytes(&mut self) -> (r: Result<Vec<u8>, String>)
        requires
            size_field(old(self).data@.len()) is Some,
        ensures
            r matches Ok(b) && b@ == be16(size_field(old(self).data@.len())->0 as int)
                + old(self).data@,
            final(self).data@ == Seq::<u8>::empty(),
    {
        let size = match size_field_of(self.data.len()) {
            Some(size) => size,
            None => {
                assert(false);
                0
            },
        };
        let mut pack_data = be16_bytes(size);
        pack_data.append(&mut self.data);
        Ok(pack_data)
    }

    /// What a node does with this piece of the stream when it came from
    /// `peer_addr`: the bytes it sends (as `to_bytes` frames them) and the
    /// addresses it sends them to (the links with clients but the peer,
    /// then every client).
    pub fn relay(&mut self, table: &RoutingTable, peer_addr: &String) -> (r: (Vec<u8>, Vec<String>))
        requires
            size_field(old(self).data@.len()) is Some,
        ensures
            r.0@ == be16(size_field(old(self).data@.len())->0 as int) + old(self).data@,
            views(r.1@) == stream_targets(*table, peer_addr@),
            final(self).data@ == Seq::<u8>::empty(),
    {
        let bytes = match self.to_bytes() {
            Ok(bytes) => bytes,
            Err(_) => {
                assert(false);
                Vec::new()
            },
        };
        (bytes, table.stream_targets(peer_addr))
    }
}

} // verus!
