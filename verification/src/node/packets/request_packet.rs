use vstd::prelude::*;

verus! {

/// A request for the stream; it carries nothing.
#[derive(Debug)]
pub struct RequestPacket {}

impl RequestPacket {
    /// The bytes sent for a request: its kind, then the size field `3`
    /// (the header alone, no payload) in two big-endian bytes.
    pub fn to_bytes(&self) -> (b: Vec<u8>)
        ensures
            b@ == seq![1u8, 0u8, 3u8],
    {
        let mut b: Vec<u8> = Vec::new();
        b.push(self.get_type());
        b.push(0);
        b.push(3);
        assert(b@ =~= seq![1u8, 0u8, 3u8]);
        b
    }

    /// A request.
    pub fn new() -> (p: Self)
        ensures
            p == (RequestPacket {}),
    {
        Self {}
    }

    /// The request read from a payload: the payload is not looked at.
    pub fn from_bytes_packet_type(_bytes: Vec<u8>) -> (p: RequestPacket)
        ensures
            p == (RequestPacket {}),
    {
        Self::new()
    }

    /// The packet kind of requests.
    pub fn get_type(&self) -> (t: u8)
        ensures
            t == 1,
    {
        1
    }
}

} // verus!
