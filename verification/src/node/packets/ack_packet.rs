use vstd::prelude::*;

verus! {

/// An acknowledgement; it carries nothing.
#[derive(Debug)]
pub struct AckPacket {}

impl AckPacket {
    /// The acknowledgement read from a payload: there is only one.
    pub fn from_bytes_packet_type(_bytes: Vec<u8>) -> (p: AckPacket)
        ensures
            p == (AckPacket {}),
    {
        AckPacket {}
    }

    /// The packet kind of acknowledgements.
    pub fn get_type(&self) -> (t: u8)
        ensures
            t == 2,
    {
        2
    }
}

} // verus!
