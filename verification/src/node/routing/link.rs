use vstd::prelude::*;

verus! {

/// A link of the overlay as the routing controller sees it. `last_down`
/// is the moment (milliseconds since the Unix epoch) it last went down.
#[derive(Debug, Clone)]
pub struct Link {
    addr: String,
    source: String,
    cost: u32,
    delay: u32,
    active: bool,
    times_down: u8,
    last_down: u64,
}

/// The fields of a routing link.
pub ghost struct LinkView {
    pub addr: Seq<char>,
    pub source: Seq<char>,
    pub cost: u32,
    pub delay: u32,
    pub active: bool,
    pub times_down: u8,
    pub last_down: u64,
}

impl View for Link {
    type V = LinkView;

    closed spec fn view(&self) -> LinkView {
        LinkView {
            addr: self.addr@,
            source: self.source@,
            cost: self.cost,
            delay: self.delay,
            active: self.active,
            times_down: self.times_down,
            last_down: self.last_down,
        }
    }
}

impl Link {
    /// A link with these fields.
    pub fn new(
        addr: String,
        source: String,
        cost: u32,
        delay: u32,
        active: bool,
        times_down: u8,
        last_down: u64,
    ) -> (l: Self)
        ensures
            l@ == (LinkView {
                addr: addr@,
                source: source@,
                cost,
                delay,
                active,
                times_down,
                last_down,
            }),
    {
        Self { addr, source, cost, delay, active, times_down, last_down }
    }
}

} // verus!
