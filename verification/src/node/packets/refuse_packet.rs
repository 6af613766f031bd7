use vstd::prelude::*;

verus! {

/// A node no longer wants the stream; it carries nothing.
#[derive(Debug)]
pub struct RefusePacket {}

impl RefusePacket {
    /// A refusal.
    pub fn new() -> (p: Self)
        ensures
            p == (RefusePacket {}),
    {
        Self {}
    }

    /// The refusal read from a payload: the payload is not looked at.
    pub fn from_bytes_packet_type(_bytes: Vec<u8>) -> (p: RefusePacket)
        ensures
            p == (RefusePacket {}),
    {
        Self::new()
    }

    /// The bytes sent for a refusal: its kind, then the size field `3`
    /// (the header alone, no payload) in two big-endian bytes.
    pub fn to_bytes(&self) -> (r: Result<Vec<u8>, String>)
        ensures
            r matches Ok(b) && b@ == seq![3u8, 0u8, 3u8],
    {
        let mut b: Vec<u8> = Vec::new();
        b.push(self.get_type());
        b.push(0);
        b.push(3);
        assert(b@ =~= seq![3u8, 0u8, 3u8]);
        Ok(b)
    }

    /// The packet kind of refusals.
    pub fn get_type(&self) -> (t: u8)
        ensures
            t == 3,
    {
        3
    }
}

} // verus!
