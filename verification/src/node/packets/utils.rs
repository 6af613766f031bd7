use vstd::prelude::*;

use crate::node::routing::ip::{digit_char, digit_str};

verus! {

broadcast use vstd::string::group_string_axioms;

/// One more than the number of times a node tries to connect to a peer.
pub const RETRY_TIMES: u32 = 5;

/// The decimal text of `n`, without leading zeros.
pub open spec fn decimal_text(n: nat) -> Seq<char>
    decreases n,
{
    if n < 10 {
        seq![digit_char(n as int)]
    } else {
        decimal_text(n / 10) + seq![digit_char((n % 10) as int)]
    }
}

/// The decimal text of a port number.
pub fn port_string(n: u16) -> (s: String)
    ensures
        s@ == decimal_text(n as nat),
    decreases n,
{
    if n < 10 {
        String::from_str(digit_str(n as u8))
    } else {
        port_string(n / 10).concat(digit_str((n % 10) as u8))
    }
}

/// The error a node gives when `peer_addr` and `port` make no socket
/// address.
pub fn address_error(peer_addr: &str, port: u16) -> (e: String)
    ensures
        e@ == "Cannot create socket address "@ + peer_addr@ + ": "@ + decimal_text(port as nat),
{
    String::from_str("Cannot create socket address ").concat(peer_addr).concat(": ").concat(
        port_string(port).as_str(),
    )
}

/// What a node does after `failed` attempts to connect to a peer have
/// failed (each failure followed by a pause): try again, or give up with
/// this error.
#[derive(Debug, PartialEq, Eq)]
pub enum ConnectStep {
    Attempt,
    GiveUp(String),
}

/// The next step of connecting to a peer after `failed` failed attempts:
/// a node makes `RETRY_TIMES - 1` attempts, then gives up.
pub fn connect_step(failed: u32) -> (r: ConnectStep)
    ensures
        failed < RETRY_TIMES - 1 ==> r is Attempt,
        failed >= RETRY_TIMES - 1 ==> (r matches ConnectStep::GiveUp(e) && e@
            == "Error connecting to peer. Perhaps it's down?"@),
{
    if failed < RETRY_TIMES - 1 {
        ConnectStep::Attempt
    } else {
        ConnectStep::GiveUp(String::from_str("Error connecting to peer. Perhaps it's down?"))
    }
}

} // verus!
