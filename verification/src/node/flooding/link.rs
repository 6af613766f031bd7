use vstd::prelude::*;

verus! {

broadcast use vstd::string::group_string_axioms;

/// What a node knows of one neighbour in the flooding overlay.
///
/// Times are kept as milliseconds: `delay` is the measured one-way delay
/// of the last flood packet, and `last_down` the moment (since the Unix
/// epoch) the link last went down.
#[derive(Debug, Clone)]
pub struct Link {
    pub addr: String,
    pub source: String,
    pub jumps: u32,
    pub delay: u64,
    pub active: bool,
    pub times_down: u8,
    pub last_down: u64,
    pub has_clients: bool,
}

/// `l` is a link to `addr` about which nothing is known yet.
pub open spec fn is_default_link(l: Link, addr: Seq<char>) -> bool {
    &&& l.addr@ == addr
    &&& l.source@ == "empty"@
    &&& l.jumps == u32::MAX
    &&& l.delay == u64::MAX
    &&& !l.active
    &&& l.times_down == 0
    &&& l.last_down == 0
    &&& !l.has_clients
}

impl Link {
    /// A link with these fields.
    pub fn new(
        addr: String,
        source: String,
        jumps: u32,
        delay: u64,
        active: bool,
        times_down: u8,
        last_down: u64,
        has_clients: bool,
    ) -> (l: Self)
        ensures
            l == (Link { addr, source, jumps, delay, active, times_down, last_down, has_clients }),
    {
        Self { addr, source, jumps, delay, active, times_down, last_down, has_clients }
    }

    /// A link to `addr` that has not been measured yet: infinitely many
    /// jumps and the longest delay.
    pub fn new_default(addr: &str) -> (l: Self)
        ensures
            is_default_link(l, addr@),
    {
        let l = Self {
            addr: String::from_str(addr),
            source: String::from_str("empty"),
            jumps: u32::MAX,
            delay: u64::MAX,
            active: false,
            times_down: 0,
            last_down: 0,
            has_clients: false,
        };
        l
    }

    /// A copy of this link, field for field.
    pub fn copy(&self) -> (l: Self)
        ensures
            l == *self,
    {
        Self {
            addr: self.addr.clone(),
            source: self.source.clone(),
            jumps: self.jumps,
            delay: self.delay,
            active: self.active,
            times_down: self.times_down,
            last_down: self.last_down,
            has_clients: self.has_clients,
        }
    }
}

} // verus!
