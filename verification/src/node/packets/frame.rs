use vstd::prelude::*;

verus! {

/// The two bytes of `n` in big-endian order.
pub open spec fn be16(n: int) -> Seq<u8> {
    seq![(n / 256) as u8, (n % 256) as u8]
}

/// The size field of a packet whose payload has `len` bytes: the payload
/// length cut to 16 bits (as `as u16` does) plus the three header bytes;
/// `None` when that sum does not fit in 16 bits.
pub open spec fn size_field(len: nat) -> Option<u16> {
    if len % 65536 + 3 <= 65535 {
        Some((len % 65536 + 3) as u16)
    } else {
        None
    }
}

/// A TCP packet: its kind, the 16-bit size field, then the payload.
pub open spec fn tcp_frame(kind: u8, size: u16, payload: Seq<u8>) -> Seq<u8> {
    seq![kind] + be16(size as int) + payload
}

/// What a node reads out of a TCP buffer: the kind in the first byte, and
/// the payload from the fourth byte up to the size in bytes two and three.
/// `None` when the buffer is shorter than the header or the size lies
/// outside the buffer.
pub open spec fn tcp_packet_of(buf: Seq<u8>) -> Option<(u8, Seq<u8>)> {
    if buf.len() < 3 {
        None
    } else {
        let size = buf[1] as int * 256 + buf[2] as int;
        if 3 <= size <= buf.len() {
            Some((buf[0], buf.subrange(3, size)))
        } else {
            None
        }
    }
}

/// What a node reads out of a UDP buffer: the payload from the third byte
/// up to the size in the first two bytes. `None` when the buffer is
/// shorter than the size field or the size lies outside the buffer.
pub open spec fn udp_payload_of(buf: Seq<u8>) -> Option<Seq<u8>> {
    if buf.len() < 2 {
        None
    } else {
        let size = buf[0] as int * 256 + buf[1] as int;
        if 2 <= size <= buf.len() {
            Some(buf.subrange(2, size))
        } else {
            None
        }
    }
}

/// The size field for a payload of `len` bytes.
pub fn size_field_of(len: usize) -> (r: Option<u16>)
    ensures
        r == size_field(len as nat),
{
    let t = len % 65536;
    if t <= 65532 {
        Some((t + 3) as u16)
    } else {
        None
    }
}

/// The big-endian bytes of `n`.
pub fn be16_bytes(n: u16) -> (r: Vec<u8>)
    ensures
        r@ == be16(n as int),
{
    let mut r: Vec<u8> = Vec::new();
    r.push((n / 256) as u8);
    r.push((n % 256) as u8);
    assert(r@ =~= be16(n as int));
    r
}

/// Reads a TCP packet out of a receive buffer: its kind and its payload.
pub fn parse_tcp_packet(buf: &[u8]) -> (r: Option<(u8, Vec<u8>)>)
    ensures
        match tcp_packet_of(buf@) {
            Some((kind, payload)) => r matches Some((k, p)) && k == kind && p@ == payload,
            None => r is None,
        },
{
    if buf.len() < 3 {
        return None;
    }
    let size = buf[1] as usize * 256 + buf[2] as usize;
    if 3 <= size && size <= buf.len() {
        let payload = vstd::slice::slice_to_vec(vstd::slice::slice_subrange(buf, 3, size));
        Some((buf[0], payload))
    } else {
        None
    }
}

/// Reads the payload of a UDP stream packet out of a receive buffer.
pub fn parse_udp_packet(buf: &[u8]) -> (r: Option<Vec<u8>>)
    ensures
        match udp_payload_of(buf@) {
            Some(payload) => r matches Some(p) && p@ == payload,
            None => r is None,
        },
{
    if buf.len() < 2 {
        return None;
    }
    let size = buf[0] as usize * 256 + buf[1] as usize;
    if 2 <= size && size <= buf.len() {
        Some(vstd::slice::slice_to_vec(vstd::slice::slice_subrange(buf, 2, size)))
    } else {
        None
    }
}

/// A framed TCP packet reads back as the kind and payload it was framed
/// with, whatever follows it in the receive buffer.
pub proof fn law_tcp_frame_roundtrip(kind: u8, payload: Seq<u8>, rest: Seq<u8>)
    requires
        payload.len() + 3 <= 65535,
    ensures
        tcp_packet_of(tcp_frame(kind, (payload.len() + 3) as u16, payload) + rest) == Some(
            (kind, payload),
        ),
{
    let buf = tcp_frame(kind, (payload.len() + 3) as u16, payload) + rest;
    let n = payload.len() + 3;
    assert(buf[1] == (n / 256) as u8);
    assert(buf[2] == (n % 256) as u8);
    assert(buf[1] as int * 256 + buf[2] as int == n);
    assert(buf.subrange(3, n as int) =~= payload);
}

/// The size field of a payload shorter than 65533 bytes is its length
/// plus the three header bytes.
pub proof fn lemma_size_field_small(len: nat)
    requires
        len + 3 <= 65535,
    ensures
        size_field(len) == Some((len + 3) as u16),
{
}

} // verus!
