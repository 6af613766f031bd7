use vstd::prelude::*;

use crate::clock::now_millis;
use crate::node::flooding::link::{is_default_link, Link};
use crate::node::packets::flood_packet::{flood_bytes_of, flood_msgpack, flood_unpack, FloodPacket};
use crate::node::packets::frame::{size_field, tcp_frame};
use crate::text::{lines, lines_of, split_char, split_once, split_once_char, split_pieces, views};

verus! {

broadcast use vstd::string::group_string_axioms;

/// What a node of the flooding overlay knows of its neighbourhood: its
/// links, the link that leads to the stream source in the fewest jumps,
/// how many streams it serves, and the clients it serves directly.
#[derive(Debug, Clone)]
pub struct RoutingTable {
    pub links: Vec<Link>,
    pub closest_link: Link,
    pub num_stream_connections: u32,
    pub clients: Vec<String>,
}

/// `k` is the first of the links with the fewest jumps, and it has fewer
/// than `bound` jumps.
pub open spec fn is_closest_index(links: Seq<Link>, bound: u32, k: int) -> bool {
    &&& 0 <= k < links.len()
    &&& links[k].jumps < bound
    &&& forall|i: int| 0 <= i < links.len() ==> links[k].jumps <= #[trigger] links[i].jumps
    &&& forall|i: int| 0 <= i < k ==> links[k].jumps < #[trigger] links[i].jumps
}

/// The link that becomes the closest one when the current closest link
/// has `bound` jumps: the first link with the fewest jumps, if that is
/// fewer than `bound`; `None` when no link beats the current one.
pub open spec fn closest_index(links: Seq<Link>, bound: u32) -> Option<int> {
    if exists|k: int| is_closest_index(links, bound, k) {
        Some(choose|k: int| is_closest_index(links, bound, k))
    } else {
        None
    }
}

/// `i` is the first link whose address is `addr`.
pub open spec fn is_first_link(links: Seq<Link>, addr: Seq<char>, i: int) -> bool {
    &&& 0 <= i < links.len()
    &&& links[i].addr@ == addr
    &&& forall|j: int| 0 <= j < i ==> links[j].addr@ != addr
}

/// Some link has the address `addr`.
pub open spec fn has_link(links: Seq<Link>, addr: Seq<char>) -> bool {
    exists|i: int| 0 <= i < links.len() && links[i].addr@ == addr
}

/// The position of the first link whose address is `addr`.
pub open spec fn link_index(links: Seq<Link>, addr: Seq<char>) -> int {
    choose|i: int| is_first_link(links, addr, i)
}

/// `i` is the first client whose address is `addr`.
pub open spec fn is_first_client(clients: Seq<String>, addr: Seq<char>, i: int) -> bool {
    &&& 0 <= i < clients.len()
    &&& clients[i]@ == addr
    &&& forall|j: int| 0 <= j < i ==> clients[j]@ != addr
}

/// Some client has the address `addr`.
pub open spec fn has_client(clients: Seq<String>, addr: Seq<char>) -> bool {
    exists|i: int| 0 <= i < clients.len() && clients[i]@ == addr
}

/// The position of the first client whose address is `addr`.
pub open spec fn client_index(clients: Seq<String>, addr: Seq<char>) -> int {
    choose|i: int| is_first_client(clients, addr, i)
}

/// `t` is a table just built on `links`: no streams, no clients, and the
/// closest link chosen among `links` (a placeholder link to `dummy` when
/// every link has the maximum number of jumps).
pub open spec fn is_fresh_table(t: RoutingTable, links: Seq<Link>) -> bool {
    &&& t.links@ == links
    &&& t.num_stream_connections == 0
    &&& t.clients@.len() == 0
    &&& match closest_index(links, u32::MAX) {
        Some(k) => t.closest_link == links[k],
        None => is_default_link(t.closest_link, "dummy"@),
    }
}

/// The neighbour addresses that the topology file gives for `own`: the
/// comma separated list after the `-` of the first line whose left side is
/// `own` (none if no line is), or `None` when a line before it has no `-`.
pub open spec fn file_links(ls: Seq<Seq<char>>, own: Seq<char>) -> Option<Seq<Seq<char>>>
    decreases ls.len(),
{
    if ls.len() == 0 {
        Some(seq![])
    } else {
        match split_once(ls[0], '-') {
            None => None,
            Some((left, right)) => if left == own {
                Some(split_pieces(right, ','))
            } else {
                file_links(ls.drop_first(), own)
            },
        }
    }
}

/// The link after a flood packet came over it: it now knows the
/// packet's source and jump count, is active, and has the measured delay.
pub open spec fn flooded_link(l: Link, packet: FloodPacket, delay: u64) -> Link {
    Link { source: packet.source, jumps: packet.jumps, active: true, delay, ..l }
}

/// A request for the stream from `peer` is refused: `peer` is a link
/// that already receives the stream.
pub open spec fn request_refused(t: RoutingTable, peer: Seq<char>) -> bool {
    has_link(t.links@, peer) && t.links@[link_index(t.links@, peer)].active
}


/// `new` and `r` are what a flood packet from `peer` sent at
/// `packet.timestamp` and received at `now` makes of the table `old`: the
/// first link to the peer is flooded with the measured delay, the closest
/// link is chosen again, and the result tells whether its address changed.
pub open spec fn flood_outcome(
    old: RoutingTable,
    peer: Seq<char>,
    packet: FloodPacket,
    now: u64,
    new: RoutingTable,
    r: Result<bool, String>,
) -> bool {
    let i = link_index(old.links@, peer);
    let flooded = old.links@.update(
        i,
        flooded_link(old.links@[i], packet, (now - packet.timestamp) as u64),
    );
    &&& new.links@ == flooded
    &&& new.num_stream_connections == old.num_stream_connections
    &&& new.clients == old.clients
    &&& match closest_index(flooded, old.closest_link.jumps) {
        Some(k) => new.closest_link == flooded[k],
        None => new.closest_link == old.closest_link,
    }
    &&& r == Ok::<bool, String>(old.closest_link.addr@ != new.closest_link.addr@)
}

/// `new` and `r` are what a flood packet from `peer` received at `now`
/// makes of the table `old`: refused with nothing changed when it is
/// timestamped after `now`, else as `flood_outcome` says.
pub open spec fn flood_at_outcome(
    old: RoutingTable,
    peer: Seq<char>,
    packet: FloodPacket,
    now: u64,
    new: RoutingTable,
    r: Result<bool, String>,
) -> bool {
    if packet.timestamp > now {
        &&& new == old
        &&& r matches Err(e) && e@ == "Flood packet is timestamped in the future"@
    } else {
        flood_outcome(old, peer, packet, now, new, r)
    }
}

/// `new` and `r` are what a request for the stream from `peer` makes of
/// `old`: refused, with nothing changed, when the peer is a link that
/// already receives the stream; otherwise one more stream connection, and
/// the peer's link becomes active with clients, or the peer joins the
/// clients when it is not a link.
pub open spec fn request_outcome(
    old: RoutingTable,
    peer: Seq<char>,
    new: RoutingTable,
    r: Result<bool, String>,
) -> bool {
    if request_refused(old, peer) {
        &&& new == old
        &&& r matches Err(e) && e@ == "Link is already receiving the stream..."@
    } else {
        &&& r == Ok::<bool, String>(true)
        &&& new.num_stream_connections == old.num_stream_connections + 1
        &&& new.closest_link == old.closest_link
        &&& if has_link(old.links@, peer) {
            let i = link_index(old.links@, peer);
            &&& new.links@ == old.links@.update(
                i,
                Link { active: true, has_clients: true, ..old.links@[i] },
            )
            &&& new.clients == old.clients
        } else {
            &&& new.links == old.links
            &&& new.clients@.len() == old.clients@.len() + 1
            &&& new.clients@.drop_last() == old.clients@
            &&& new.clients@.last()@ == peer
        }
    }
}

/// `new` and `r` are what a refusal of the stream from `peer` makes of
/// `old`: the peer's link becomes inactive and the node serves one stream
/// less; or the peer's first entry among the clients goes; or, when the
/// peer is neither, an error with nothing changed.
pub open spec fn refuse_outcome(
    old: RoutingTable,
    peer: Seq<char>,
    new: RoutingTable,
    r: Result<(), String>,
) -> bool {
    &&& new.closest_link == old.closest_link
    &&& if has_link(old.links@, peer) {
        let i = link_index(old.links@, peer);
        &&& new.links@ == old.links@.update(i, Link { active: false, ..old.links@[i] })
        &&& new.num_stream_connections == old.num_stream_connections - 1
        &&& new.clients == old.clients
        &&& r == Ok::<(), String>(())
    } else if has_client(old.clients@, peer) {
        &&& new.links == old.links
        &&& new.num_stream_connections == old.num_stream_connections
        &&& new.clients@ == old.clients@.remove(client_index(old.clients@, peer))
        &&& r == Ok::<(), String>(())
    } else {
        &&& new == old
        &&& r matches Err(e) && e@ == "Node wasn't receiving the stream..."@
    }
}

/// The addresses of `links` other than `skip`, in order: where a node
/// sends its flood when its closest link changed.
pub open spec fn addrs_except(links: Seq<Link>, skip: Seq<char>) -> Seq<Seq<char>>
    decreases links.len(),
{
    if links.len() == 0 {
        seq![]
    } else {
        let l = links.last();
        addrs_except(links.drop_last(), skip) + if l.addr@ == skip {
            seq![]
        } else {
            seq![l.addr@]
        }
    }
}

/// The addresses of the links of `links` that have clients, but `peer`,
/// in order.
pub open spec fn client_links_except(links: Seq<Link>, peer: Seq<char>) -> Seq<Seq<char>>
    decreases links.len(),
{
    if links.len() == 0 {
        seq![]
    } else {
        let l = links.last();
        client_links_except(links.drop_last(), peer) + if l.has_clients && l.addr@ != peer {
            seq![l.addr@]
        } else {
            seq![]
        }
    }
}

/// Where a node relays a piece of the stream that came from `peer`: the
/// links with clients other than `peer`, then every client.
pub open spec fn stream_targets(t: RoutingTable, peer: Seq<char>) -> Seq<Seq<char>> {
    client_links_except(t.links@, peer) + views(t.clients@)
}

/// `b` is what a node sends for a flood packet built on the link `l`:
/// with `l`'s address as source and one jump more than `l`.
pub open spec fn floods_from(l: Link, b: Seq<u8>) -> bool {
    exists|p: FloodPacket|
        p.source@ == l.addr@ && p.jumps == l.jumps + 1 && #[trigger] flood_bytes_of(p, b)
}

/// `r` is what a node sends at `now` (milliseconds since the Unix epoch)
/// when the closest link of `t` changed: the framed flood packet with the
/// closest link's address as source, one jump more and `now` as its
/// timestamp, to the address of every other link; an error when that
/// packet cannot be encoded or its size field would overflow.
pub open spec fn flood_message_outcome(
    t: RoutingTable,
    now: u64,
    r: Result<(Vec<u8>, Vec<String>), String>,
) -> bool {
    let source = t.closest_link.addr@;
    let jumps = (t.closest_link.jumps + 1) as u32;
    match flood_msgpack(source, jumps, now) {
        None => r is Err,
        Some(payload) => match size_field(payload.len()) {
            Some(size) => r matches Ok(m) && {
                &&& m.0@ == tcp_frame(0, size, payload)
                &&& flood_unpack(payload) == Some((source, jumps, now))
                &&& views(m.1@) == addrs_except(t.links@, source)
            },
            None => r matches Err(e) && e@ == "Flood packet is too large"@,
        },
    }
}

pub proof fn lemma_closest_unique(links: Seq<Link>, bound: u32, a: int, b: int)
    requires
        is_closest_index(links, bound, a),
        is_closest_index(links, bound, b),
    ensures
        a == b,
{
    if a < b {
        assert(links[b].jumps < links[a].jumps);
    } else if b < a {
        assert(links[a].jumps < links[b].jumps);
    }
}

pub proof fn lemma_first_link_unique(links: Seq<Link>, addr: Seq<char>, a: int, b: int)
    requires
        is_first_link(links, addr, a),
        is_first_link(links, addr, b),
    ensures
        a == b,
{
    if a < b {
        assert(links[a].addr@ != addr);
    } else if b < a {
        assert(links[b].addr@ != addr);
    }
}

pub proof fn lemma_first_client_unique(clients: Seq<String>, addr: Seq<char>, a: int, b: int)
    requires
        is_first_client(clients, addr, a),
        is_first_client(clients, addr, b),
    ensures
        a == b,
{
    if a < b {
        assert(clients[a]@ != addr);
    } else if b < a {
        assert(clients[b]@ != addr);
    }
}

/// The position of the first link whose address is `addr`, if any.
fn find_link(links: &Vec<Link>, addr: &String) -> (r: Option<usize>)
    ensures
        match r {
            Some(i) => is_first_link(links@, addr@, i as int) && i == link_index(links@, addr@),
            None => !has_link(links@, addr@),
        },
{
    let mut i: usize = 0;
    while i < links.len()
        invariant
            i <= links.len(),
            forall|j: int| 0 <= j < i ==> links@[j].addr@ != addr@,
        decreases links.len() - i,
    {
        if links[i].addr == *addr {
            proof {
                let k = choose|k: int| is_first_link(links@, addr@, k);
                lemma_first_link_unique(links@, addr@, i as int, k);
            }
            return Some(i);
        }
        i = i + 1;
    }
    None
}

/// The position of the first client whose address is `addr`, if any.
fn find_client(clients: &Vec<String>, addr: &String) -> (r: Option<usize>)
    ensures
        match r {
            Some(i) => is_first_client(clients@, addr@, i as int) && i == client_index(
                clients@,
                addr@,
            ),
            None => !has_client(clients@, addr@),
        },
{
    let mut i: usize = 0;
    while i < clients.len()
        invariant
            i <= clients.len(),
            forall|j: int| 0 <= j < i ==> clients@[j]@ != addr@,
        decreases clients.len() - i,
    {
        if clients[i] == *addr {
            proof {
                let k = choose|k: int| is_first_client(clients@, addr@, k);
                lemma_first_client_unique(clients@, addr@, i as int, k);
            }
            return Some(i);
        }
        i = i + 1;
    }
    None
}

impl RoutingTable {
    /// A table on `links`, with the closest of them chosen.
    pub fn new(links: Vec<Link>) -> (t: Self)
        ensures
            is_fresh_table(t, links@),
    {
        let mut table = Self {
            closest_link: Link::new_default("dummy"),
            links,
            num_stream_connections: 0,
            clients: Vec::new(),
        };
        table.calc_closest_link();
        table
    }

    /// Builds the table of the node `own_ip` from the topology file, whose
    /// lines read `ip-neighbour,neighbour,...`.
    pub fn from_file(file: &str, own_ip: &str) -> (r: Result<Self, String>)
        ensures
            match file_links(lines(file@), own_ip@) {
                None => r matches Err(e) && e@ == "File has an invalid format"@,
                Some(addrs) => r matches Ok(t) && {
                    &&& is_fresh_table(t, t.links@)
                    &&& t.links@.len() == addrs.len()
                    &&& forall|i: int|
                        0 <= i < addrs.len() ==> is_default_link(#[trigger] t.links@[i], addrs[i])
                },
            },
    {
        let mut links: Vec<Link> = Vec::new();
        let own = String::from_str(own_ip);
        let ls = lines_of(file);
        let mut idx: usize = 0;
        assert(views(ls@).skip(0) =~= views(ls@));
        while idx < ls.len()
            invariant
                idx <= ls.len(),
                own@ == own_ip@,
                links@.len() == 0,
                views(ls@) == lines(file@),
                file_links(views(ls@).skip(idx as int), own_ip@) == file_links(lines(file@), own_ip@),
            decreases ls.len() - idx,
        {
            let ghost rest = views(ls@).skip(idx as int);
            assert(rest[0] == ls@[idx as int]@);
            let (left, right) = match split_once_char(ls[idx].as_str(), '-') {
                Some(val) => val,
                None => {
                    return Err(String::from_str("File has an invalid format"));
                },
            };
            if left != own {
                assert(rest.drop_first() =~= views(ls@).skip(idx + 1));
                idx = idx + 1;
                continue;
            }
            let ips = split_char(right.as_str(), ',');
            let mut j: usize = 0;
            while j < ips.len()
                invariant
                    j <= ips.len(),
                    links@.len() == j,
                    forall|i: int| 0 <= i < j ==> is_default_link(#[trigger] links@[i], ips@[i]@),
                decreases ips.len() - j,
            {
                links.push(Link::new_default(ips[j].as_str()));
                j = j + 1;
            }
            let t = Self::new(links);
            assert(views(ips@).len() == ips@.len());
            assert forall|i: int| 0 <= i < ips@.len() implies is_default_link(
                #[trigger] t.links@[i],
                split_pieces(right@, ',')[i],
            ) by {
                assert(views(ips@)[i] == ips@[i]@);
            }
            return Ok(t);
        }
        assert(views(ls@).skip(idx as int).len() == 0);
        let t = Self::new(links);
        Ok(t)
    }

    /// Chooses the closest link again: the first link with the fewest
    /// jumps, if it has fewer jumps than the current closest link.
    /// Tells whether the closest link's address changed.
    fn calc_closest_link(&mut self) -> (changed: bool)
        ensures
            final(self).links == old(self).links,
            final(self).num_stream_connections == old(self).num_stream_connections,
            final(self).clients == old(self).clients,
            match closest_index(old(self).links@, old(self).closest_link.jumps) {
                Some(k) => final(self).closest_link == old(self).links@[k],
                None => final(self).closest_link == old(self).closest_link,
            },
            changed == (old(self).closest_link.addr@ != final(self).closest_link.addr@),
    {
        let prev_closest = self.closest_link.copy();
        let bound = prev_closest.jumps;
        let mut best: Option<usize> = None;
        let mut best_jumps = bound;
        let mut i: usize = 0;
        while i < self.links.len()
            invariant
                i <= self.links.len(),
                bound == prev_closest.jumps,
                match best {
                    None => best_jumps == bound && forall|j: int|
                        0 <= j < i ==> bound <= #[trigger] self.links@[j].jumps,
                    Some(b) => {
                        &&& b < i
                        &&& best_jumps == self.links@[b as int].jumps
                        &&& best_jumps < bound
                        &&& forall|j: int| 0 <= j < i ==> best_jumps <= #[trigger] self.links@[j].jumps
                        &&& forall|j: int| 0 <= j < b ==> best_jumps < #[trigger] self.links@[j].jumps
                    },
                },
            decreases self.links.len() - i,
        {
            if self.links[i].jumps < best_jumps {
                best = Some(i);
                best_jumps = self.links[i].jumps;
            }
            i = i + 1;
        }
        match best {
            Some(b) => {
                proof {
                    assert(is_closest_index(self.links@, bound, b as int));
                    let k = choose|k: int| is_closest_index(self.links@, bound, k);
                    lemma_closest_unique(self.links@, bound, b as int, k);
                }
                self.closest_link = self.links[b].copy();
            },
            None => {
                assert(!exists|k: int| is_closest_index(self.links@, bound, k));
            },
        }
        !(prev_closest.addr == self.closest_link.addr)
    }

    /// Records a flood packet that came from `peer_addr` at the time `now`
    /// (milliseconds since the Unix epoch): the link to the peer learns the
    /// packet's source and jumps, becomes active and gets the measured
    /// delay; then the closest link is chosen again. Tells whether the
    /// closest link's address changed. A packet timestamped after `now` is
    /// refused, and nothing changes.
    pub fn handle_flood_packet_at(
        &mut self,
        peer_addr: String,
        packet: &FloodPacket,
        now: u64,
    ) -> (r: Result<bool, String>)
        requires
            has_link(old(self).links@, peer_addr@),
        ensures
            flood_at_outcome(*old(self), peer_addr@, *packet, now, *final(self), r),
    {
        if packet.timestamp > now {
            return Err(String::from_str("Flood packet is timestamped in the future"));
        }
        let i = match find_link(&self.links, &peer_addr) {
            Some(i) => i,
            None => {
                assert(false);
                return Ok(false);
            },
        };
        let delay = now - packet.timestamp;
        let mut link = self.links[i].copy();
        link.source = packet.source.clone();
        link.jumps = packet.jumps;
        link.active = true;
        link.delay = delay;
        self.links.set(i, link);
        Ok(self.calc_closest_link())
    }

    /// Records a flood packet that came from `peer_addr` now, by the
    /// system clock: as `handle_flood_packet_at` with the current time in
    /// milliseconds since the Unix epoch. When the clock is before the
    /// epoch or before the packet's timestamp, nothing changes and the
    /// result is an error.
    pub fn handle_flood_packet(&mut self, peer_addr: String, packet: &FloodPacket) -> (r: Result<
        bool,
        String,
    >)
        requires
            has_link(old(self).links@, peer_addr@),
        ensures
            (r matches Err(e) && e@ == "System clock is before the Unix epoch"@ && *final(self)
                == *old(self)) || exists|now: u64|
                flood_at_outcome(*old(self), peer_addr@, *packet, now, *final(self), r),
    {
        let now = match now_millis() {
            Some(now) => now,
            None => {
                return Err(String::from_str("System clock is before the Unix epoch"));
            },
        };
        self.handle_flood_packet_at(peer_addr, packet, now)
    }

    /// Whether the node serves at least one stream.
    pub fn has_active_connections(&self) -> (r: bool)
        ensures
            r == (self.num_stream_connections > 0),
    {
        self.num_stream_connections > 0
    }

    /// A request for the stream came from `peer_addr`. A link that already
    /// receives the stream is refused; another link becomes active and
    /// marked as having clients; a peer that is not a link is a client
    /// and is added to the clients. Every accepted request counts one more
    /// stream connection.
    pub fn handle_request_packet(&mut self, peer_addr: String) -> (r: Result<bool, String>)
        requires
            !request_refused(*old(self), peer_addr@) ==> old(self).num_stream_connections < u32::MAX,
        ensures
            request_outcome(*old(self), peer_addr@, *final(self), r),
    {
        match find_link(&self.links, &peer_addr) {
            Some(i) => {
                if self.links[i].active {
                    return Err(String::from_str("Link is already receiving the stream..."));
                }
                let mut link = self.links[i].copy();
                link.active = true;
                link.has_clients = true;
                self.links.set(i, link);
            },
            None => {
                let ghost old_clients = self.clients@;
                self.clients.push(peer_addr);
                assert(self.clients@.drop_last() =~= old_clients);
            },
        }
        self.num_stream_connections = self.num_stream_connections + 1;
        Ok(true)
    }

    /// The peer `peer_addr` no longer wants the stream. A link becomes
    /// inactive and counts one stream connection less; a client is removed
    /// from the clients (its first occurrence). Any other peer is an error.
    pub fn handle_refuse_packet(&mut self, peer_addr: String) -> (r: Result<(), String>)
        requires
            has_link(old(self).links@, peer_addr@) ==> old(self).num_stream_connections > 0,
        ensures
            refuse_outcome(*old(self), peer_addr@, *final(self), r),
    {
        match find_link(&self.links, &peer_addr) {
            Some(i) => {
                let mut link = self.links[i].copy();
                link.active = false;
                self.links.set(i, link);
                self.num_stream_connections = self.num_stream_connections - 1;
                return Ok(());
            },
            None => {},
        }
        match find_client(&self.clients, &peer_addr) {
            Some(j) => {
                self.clients.remove(j);
                Ok(())
            },
            None => Err(String::from_str("Node wasn't receiving the stream...")),
        }
    }

    /// Whether some link has the address `addr`.
    pub fn knows_link(&self, addr: &String) -> (r: bool)
        ensures
            r == has_link(self.links@, addr@),
    {
        find_link(&self.links, addr).is_some()
    }

    /// Whether a request for the stream from `peer_addr` is refused: the
    /// peer is a link that already receives the stream.
    pub fn refuses_request(&self, peer_addr: &String) -> (r: bool)
        ensures
            r == request_refused(*self, peer_addr@),
    {
        match find_link(&self.links, peer_addr) {
            Some(i) => self.links[i].active,
            None => false,
        }
    }

    /// The addresses a node floods when its closest link changed: every
    /// link but the closest one, in order.
    pub fn flood_targets(&self) -> (r: Vec<String>)
        ensures
            views(r@) == addrs_except(self.links@, self.closest_link.addr@),
    {
        let mut r: Vec<String> = Vec::new();
        let mut i: usize = 0;
        while i < self.links.len()
            invariant
                i <= self.links.len(),
                views(r@) == addrs_except(self.links@.take(i as int), self.closest_link.addr@),
            decreases self.links.len() - i,
        {
            let ghost before = views(r@);
            assert(self.links@.take(i + 1).drop_last() =~= self.links@.take(i as int));
            if !(self.links[i].addr == self.closest_link.addr) {
                r.push(self.links[i].addr.clone());
                assert(views(r@) =~= before + seq![self.links@[i as int].addr@]);
            } else {
                assert(before + seq![] =~= before);
            }
            i = i + 1;
        }
        assert(self.links@.take(self.links@.len() as int) =~= self.links@);
        r
    }

    /// What a node sends at `now` when its closest link changed: the bytes
    /// of a flood packet built on the closest link (its address as source,
    /// one jump more, sent at `now`), and the addresses of every other
    /// link. An error when the packet cannot be encoded or is too large.
    pub fn flood_message_at(&self, now: u64) -> (r: Result<(Vec<u8>, Vec<String>), String>)
        requires
            self.closest_link.jumps < u32::MAX,
        ensures
            flood_message_outcome(*self, now, r),
            r matches Ok(m) ==> floods_from(self.closest_link, m.0@),
    {
        let packet = FloodPacket::from_link_at(&self.closest_link, now);
        let bytes = match packet.to_bytes() {
            Ok(b) => b,
            Err(e) => {
                return Err(e);
            },
        };
        let targets = self.flood_targets();
        assert(flood_bytes_of(packet, bytes@));
        assert(floods_from(self.closest_link, bytes@));
        Ok((bytes, targets))
    }

    /// What a node sends when its closest link changed, now by the system
    /// clock: as `flood_message_at` with the current time in milliseconds
    /// since the Unix epoch; an error when the clock is before the epoch.
    pub fn flood_message(&self) -> (r: Result<(Vec<u8>, Vec<String>), String>)
        requires
            self.closest_link.jumps < u32::MAX,
        ensures
            r matches Ok(m) ==> views(m.1@) == addrs_except(self.links@, self.closest_link.addr@),
            r matches Ok(m) ==> floods_from(self.closest_link, m.0@),
            (r matches Err(e) && e@ == "System clock is before the Unix epoch"@) || exists|now: u64|
                flood_message_outcome(*self, now, r),
    {
        match now_millis() {
            Some(now) => self.flood_message_at(now),
            None => Err(String::from_str("System clock is before the Unix epoch")),
        }
    }

    /// The addresses a node relays a piece of the stream to when it came
    /// from `peer_addr`: the links with clients but the peer, then every
    /// client.
    pub fn stream_targets(&self, peer_addr: &String) -> (r: Vec<String>)
        ensures
            views(r@) == stream_targets(*self, peer_addr@),
    {
        let mut r: Vec<String> = Vec::new();
        let mut i: usize = 0;
        while i < self.links.len()
            invariant
                i <= self.links.len(),
                views(r@) == client_links_except(self.links@.take(i as int), peer_addr@),
            decreases self.links.len() - i,
        {
            let ghost before = views(r@);
            assert(self.links@.take(i + 1).drop_last() =~= self.links@.take(i as int));
            if self.links[i].has_clients && !(self.links[i].addr == *peer_addr) {
                r.push(self.links[i].addr.clone());
                assert(views(r@) =~= before + seq![self.links@[i as int].addr@]);
            } else {
                assert(before + seq![] =~= before);
            }
            i = i + 1;
        }
        assert(self.links@.take(self.links@.len() as int) =~= self.links@);
        let ghost front = views(r@);
        let mut j: usize = 0;
        while j < self.clients.len()
            invariant
                j <= self.clients.len(),
                views(r@) == front + views(self.clients@.take(j as int)),
            decreases self.clients.len() - j,
        {
            let ghost before = views(r@);
            r.push(self.clients[j].clone());
            assert(views(r@) =~= before + seq![self.clients@[j as int]@]);
            assert(views(self.clients@.take(j + 1)) =~= views(self.clients@.take(j as int)) + seq![
                self.clients@[j as int]@,
            ]);
            assert(views(r@) =~= front + views(self.clients@.take(j + 1)));
            j = j + 1;
        }
        assert(self.clients@.take(self.clients@.len() as int) =~= self.clients@);
        r
    }
}

} // verus!
