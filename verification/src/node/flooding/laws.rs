use vstd::prelude::*;

use crate::node::flooding::link::{is_default_link, Link};
use crate::node::flooding::routing_table::{
    addrs_except, client_index, client_links_except, closest_index, flood_at_outcome,
    flood_outcome, has_client, has_link, is_closest_index, is_first_client, is_first_link,
    is_fresh_table, link_index, refuse_outcome, request_outcome, request_refused,
    stream_targets, RoutingTable,
};
use crate::text::views;
use crate::node::packets::flood_packet::FloodPacket;

verus! {

/// The closest link has no more jumps than any link of the table.
pub open spec fn closest_bounds(t: RoutingTable) -> bool {
    forall|i: int| 0 <= i < t.links@.len() ==> t.closest_link.jumps <= #[trigger] t.links@[i].jumps
}

/// When some link has the address, `link_index` is the first such link.
pub proof fn lemma_link_index(links: Seq<Link>, addr: Seq<char>)
    requires
        has_link(links, addr),
    ensures
        is_first_link(links, addr, link_index(links, addr)),
    decreases links.len(),
{
    if links[0].addr@ == addr {
        assert(is_first_link(links, addr, 0));
    } else {
        let w = choose|i: int| 0 <= i < links.len() && links[i].addr@ == addr;
        let rest = links.drop_first();
        assert(rest[w - 1] == links[w]);
        lemma_link_index(rest, addr);
        let j = link_index(rest, addr);
        assert forall|m: int| 0 <= m < j + 1 implies links[m].addr@ != addr by {
            if m > 0 {
                assert(links[m] == rest[m - 1]);
            }
        }
        assert(is_first_link(links, addr, j + 1));
    }
}

/// When some client has the address, `client_index` is the first such
/// client.
pub proof fn lemma_client_index(clients: Seq<String>, addr: Seq<char>)
    requires
        has_client(clients, addr),
    ensures
        is_first_client(clients, addr, client_index(clients, addr)),
    decreases clients.len(),
{
    if clients[0]@ == addr {
        assert(is_first_client(clients, addr, 0));
    } else {
        let w = choose|i: int| 0 <= i < clients.len() && clients[i]@ == addr;
        let rest = clients.drop_first();
        assert(rest[w - 1] == clients[w]);
        lemma_client_index(rest, addr);
        let j = client_index(rest, addr);
        assert forall|m: int| 0 <= m < j + 1 implies clients[m]@ != addr by {
            if m > 0 {
                assert(clients[m] == rest[m - 1]);
            }
        }
        assert(is_first_client(clients, addr, j + 1));
    }
}

/// When some link has fewer than `bound` jumps, there is a first link
/// with the fewest jumps.
pub proof fn lemma_closest_exists(links: Seq<Link>, bound: u32, i: int)
    requires
        0 <= i < links.len(),
        links[i].jumps < bound,
    ensures
        exists|k: int| is_closest_index(links, bound, k),
    decreases links.len(),
{
    let n = links.len() - 1;
    let front = links.drop_last();
    if exists|j: int| 0 <= j < n && links[j].jumps < bound {
        let j = choose|j: int| 0 <= j < n && links[j].jumps < bound;
        assert(front[j] == links[j]);
        lemma_closest_exists(front, bound, j);
        let k = choose|k: int| is_closest_index(front, bound, k);
        assert forall|m: int| 0 <= m < n implies #[trigger] links[m] == front[m] by {}
        if links[n].jumps < links[k].jumps {
            assert(is_closest_index(links, bound, n));
        } else {
            assert(is_closest_index(links, bound, k));
        }
    } else {
        assert(is_closest_index(links, bound, n));
    }
}

/// The closest link chosen against `bound` has no more jumps than any
/// link, nor than `bound`.
pub proof fn lemma_closest_choice(links: Seq<Link>, bound: u32, chosen: Link)
    requires
        match closest_index(links, bound) {
            Some(k) => chosen == links[k],
            None => chosen.jumps == bound,
        },
    ensures
        chosen.jumps <= bound,
        forall|i: int| 0 <= i < links.len() ==> chosen.jumps <= #[trigger] links[i].jumps,
{
    if closest_index(links, bound) is None {
        assert forall|i: int| 0 <= i < links.len() implies chosen.jumps <= #[trigger] links[
            i
        ].jumps by {
            if links[i].jumps < bound {
                lemma_closest_exists(links, bound, i);
            }
        }
    }
}

/// A table just built on its links has a closest link with no more jumps
/// than any of them.
pub proof fn law_fresh_table_closest(t: RoutingTable, links: Seq<Link>)
    requires
        is_fresh_table(t, links),
    ensures
        closest_bounds(t),
{
    if closest_index(links, u32::MAX) is None {
        assert(is_default_link(t.closest_link, "dummy"@));
    }
    lemma_closest_choice(links, u32::MAX, t.closest_link);
}

/// After a flood packet from a link, the closest link has no more jumps
/// than any link, and no more than the closest link had before.
pub proof fn law_flood_keeps_closest(
    old: RoutingTable,
    peer: Seq<char>,
    packet: FloodPacket,
    now: u64,
    new: RoutingTable,
    r: Result<bool, String>,
)
    requires
        has_link(old.links@, peer),
        flood_outcome(old, peer, packet, now, new, r),
    ensures
        closest_bounds(new),
        new.closest_link.jumps <= old.closest_link.jumps,
{
    lemma_closest_choice(new.links@, old.closest_link.jumps, new.closest_link);
}

/// A request for the stream keeps the closest link within the jumps of
/// every link.
pub proof fn law_request_keeps_closest(
    old: RoutingTable,
    peer: Seq<char>,
    new: RoutingTable,
    r: Result<bool, String>,
)
    requires
        closest_bounds(old),
        request_outcome(old, peer, new, r),
    ensures
        closest_bounds(new),
{
    if has_link(old.links@, peer) && !request_refused(old, peer) {
        lemma_link_index(old.links@, peer);
        let i = link_index(old.links@, peer);
        assert forall|j: int| 0 <= j < new.links@.len() implies new.closest_link.jumps
            <= #[trigger] new.links@[j].jumps by {
            assert(new.links@[j].jumps == old.links@[j].jumps);
        }
    }
}

/// A refusal of the stream keeps the closest link within the jumps of
/// every link.
pub proof fn law_refuse_keeps_closest(
    old: RoutingTable,
    peer: Seq<char>,
    new: RoutingTable,
    r: Result<(), String>,
)
    requires
        closest_bounds(old),
        refuse_outcome(old, peer, new, r),
    ensures
        closest_bounds(new),
{
    if has_link(old.links@, peer) {
        lemma_link_index(old.links@, peer);
        assert forall|j: int| 0 <= j < new.links@.len() implies new.closest_link.jumps
            <= #[trigger] new.links@[j].jumps by {
            assert(new.links@[j].jumps == old.links@[j].jumps);
        }
    }
}

/// A link that asks for the stream and then refuses it leaves the node
/// as it found it, but for the link now marked as having clients: the
/// same number of stream connections, the link inactive again, the same
/// clients and closest link.
pub proof fn law_link_request_then_refuse(
    t0: RoutingTable,
    peer: Seq<char>,
    t1: RoutingTable,
    r1: Result<bool, String>,
    t2: RoutingTable,
    r2: Result<(), String>,
)
    requires
        has_link(t0.links@, peer),
        !request_refused(t0, peer),
        request_outcome(t0, peer, t1, r1),
        refuse_outcome(t1, peer, t2, r2),
    ensures
        r1 == Ok::<bool, String>(true),
        r2 == Ok::<(), String>(()),
        t2.num_stream_connections == t0.num_stream_connections,
        t2.links@ == t0.links@.update(
            link_index(t0.links@, peer),
            Link { has_clients: true, ..t0.links@[link_index(t0.links@, peer)] },
        ),
        t2.clients == t0.clients,
        t2.closest_link == t0.closest_link,
{
    lemma_link_index(t0.links@, peer);
    let i = link_index(t0.links@, peer);
    assert(t1.links@[i].addr@ == peer);
    assert(has_link(t1.links@, peer));
    lemma_link_index(t1.links@, peer);
    let i1 = link_index(t1.links@, peer);
    assert forall|j: int| 0 <= j < i implies t1.links@[j].addr@ != peer by {
        assert(t1.links@[j] == t0.links@[j]);
    }
    assert(is_first_link(t1.links@, peer, i));
    if i1 < i {
        assert(t1.links@[i1] == t0.links@[i1]);
    } else if i < i1 {
        assert(t1.links@[i].addr@ != peer);
    }
    assert(t2.links@ =~= t0.links@.update(i, Link { has_clients: true, ..t0.links@[i] }));
}

/// A peer that is neither a link nor a client, and that asks for the
/// stream and then refuses it, leaves the links and clients as they were;
/// the count of stream connections keeps the one the request added.
pub proof fn law_client_request_then_refuse(
    t0: RoutingTable,
    peer: Seq<char>,
    t1: RoutingTable,
    r1: Result<bool, String>,
    t2: RoutingTable,
    r2: Result<(), String>,
)
    requires
        !has_link(t0.links@, peer),
        !has_client(t0.clients@, peer),
        request_outcome(t0, peer, t1, r1),
        refuse_outcome(t1, peer, t2, r2),
    ensures
        r1 == Ok::<bool, String>(true),
        r2 == Ok::<(), String>(()),
        t2.links == t0.links,
        t2.clients@ == t0.clients@,
        t2.num_stream_connections == t0.num_stream_connections + 1,
        t2.closest_link == t0.closest_link,
{
    let n = t0.clients@.len();
    assert(t1.clients@[n as int] == t1.clients@.last());
    assert(has_client(t1.clients@, peer));
    lemma_client_index(t1.clients@, peer);
    let k = client_index(t1.clients@, peer);
    if k < n {
        assert(t1.clients@[k] == t1.clients@.drop_last()[k]);
        assert(t0.clients@[k]@ == peer);
    }
    assert(k == n);
    assert(t2.clients@ =~= t0.clients@);
}

/// The addresses `addrs_except` lists are exactly those of the links
/// other than `skip`.
pub proof fn lemma_addrs_except_members(links: Seq<Link>, skip: Seq<char>)
    ensures
        forall|x: Seq<char>|
            #[trigger] addrs_except(links, skip).contains(x) <==> x != skip && exists|i: int|
                0 <= i < links.len() && links[i].addr@ == x,
    decreases links.len(),
{
    if links.len() > 0 {
        let front = links.drop_last();
        let l = links.last();
        lemma_addrs_except_members(front, skip);
        let tail = if l.addr@ == skip {
            Seq::<Seq<char>>::empty()
        } else {
            seq![l.addr@]
        };
        let af = addrs_except(front, skip);
        let all = addrs_except(links, skip);
        assert(all == af + tail);
        assert forall|x: Seq<char>| #[trigger] all.contains(x) <==> x != skip && exists|i: int|
            0 <= i < links.len() && links[i].addr@ == x by {
            if all.contains(x) {
                let k = choose|k: int| 0 <= k < all.len() && all[k] == x;
                if k < af.len() {
                    assert(af[k] == x);
                    assert(af.contains(x));
                    let i = choose|i: int| 0 <= i < front.len() && front[i].addr@ == x;
                    assert(links[i] == front[i]);
                } else {
                    assert(tail[k - af.len()] == x);
                    assert(x == l.addr@ && l.addr@ != skip);
                    assert(links[links.len() - 1] == l);
                }
            }
            if x != skip && exists|i: int| 0 <= i < links.len() && links[i].addr@ == x {
                let i = choose|i: int| 0 <= i < links.len() && links[i].addr@ == x;
                if i < links.len() - 1 {
                    assert(front[i] == links[i]);
                    assert(front[i].addr@ == x);
                    assert(af.contains(x));
                    let k = choose|k: int| 0 <= k < af.len() && af[k] == x;
                    assert(all[k] == af[k]);
                } else {
                    assert(l == links[i]);
                    assert(all[af.len() as int] == tail[0]);
                }
            }
        }
    }
}

/// The addresses `client_links_except` lists are exactly those of the
/// links that have clients, other than `peer`.
pub proof fn lemma_client_links_members(links: Seq<Link>, peer: Seq<char>)
    ensures
        forall|x: Seq<char>|
            #[trigger] client_links_except(links, peer).contains(x) <==> x != peer && exists|
                i: int,
            |
                0 <= i < links.len() && links[i].has_clients && links[i].addr@ == x,
    decreases links.len(),
{
    if links.len() > 0 {
        let front = links.drop_last();
        let l = links.last();
        lemma_client_links_members(front, peer);
        let tail = if l.has_clients && l.addr@ != peer {
            seq![l.addr@]
        } else {
            Seq::<Seq<char>>::empty()
        };
        let af = client_links_except(front, peer);
        let all = client_links_except(links, peer);
        assert(all == af + tail);
        assert forall|x: Seq<char>| #[trigger] all.contains(x) <==> x != peer && exists|i: int|
            0 <= i < links.len() && links[i].has_clients && links[i].addr@ == x by {
            if all.contains(x) {
                let k = choose|k: int| 0 <= k < all.len() && all[k] == x;
                if k < af.len() {
                    assert(af[k] == x);
                    assert(af.contains(x));
                    let i = choose|i: int|
                        0 <= i < front.len() && front[i].has_clients && front[i].addr@ == x;
                    assert(links[i] == front[i]);
                } else {
                    assert(tail[k - af.len()] == x);
                    assert(x == l.addr@ && l.has_clients && l.addr@ != peer);
                    assert(links[links.len() - 1] == l);
                }
            }
            if x != peer && exists|i: int|
                0 <= i < links.len() && links[i].has_clients && links[i].addr@ == x {
                let i = choose|i: int|
                    0 <= i < links.len() && links[i].has_clients && links[i].addr@ == x;
                if i < links.len() - 1 {
                    assert(front[i] == links[i]);
                    assert(front[i].has_clients && front[i].addr@ == x);
                    assert(af.contains(x));
                    let k = choose|k: int| 0 <= k < af.len() && af[k] == x;
                    assert(all[k] == af[k]);
                } else {
                    assert(l == links[i]);
                    assert(all[af.len() as int] == tail[0]);
                }
            }
        }
    }
}

/// When the closest link changed, a node floods every link whose address
/// is not the closest link's, whatever else that link holds, and no other
/// address.
pub proof fn law_flood_targets(t: RoutingTable)
    ensures
        forall|i: int|
            0 <= i < t.links@.len() && t.links@[i].addr@ != t.closest_link.addr@
                ==> #[trigger] addrs_except(t.links@, t.closest_link.addr@).contains(
                t.links@[i].addr@,
            ),
        forall|x: Seq<char>|
            #[trigger] addrs_except(t.links@, t.closest_link.addr@).contains(x) ==> x
                != t.closest_link.addr@ && exists|i: int|
                0 <= i < t.links@.len() && t.links@[i].addr@ == x,
{
    lemma_addrs_except_members(t.links@, t.closest_link.addr@);
}

/// A piece of the stream from `peer` goes to every link that asked for
/// the stream (has clients) but the peer, and to every client; and to no
/// other address: a link that never asked for it is not sent it.
pub proof fn law_stream_targets(t: RoutingTable, peer: Seq<char>)
    ensures
        forall|i: int|
            0 <= i < t.links@.len() && t.links@[i].has_clients && t.links@[i].addr@ != peer
                ==> #[trigger] stream_targets(t, peer).contains(t.links@[i].addr@),
        forall|k: int|
            0 <= k < t.clients@.len() ==> #[trigger] stream_targets(t, peer).contains(
                t.clients@[k]@,
            ),
        forall|x: Seq<char>|
            #[trigger] stream_targets(t, peer).contains(x) ==> (x != peer && exists|i: int|
                0 <= i < t.links@.len() && t.links@[i].has_clients && t.links@[i].addr@ == x)
                || exists|k: int| 0 <= k < t.clients@.len() && t.clients@[k]@ == x,
{
    let front = client_links_except(t.links@, peer);
    let cl = views(t.clients@);
    lemma_client_links_members(t.links@, peer);
    assert(stream_targets(t, peer) == front + cl);
    assert forall|i: int|
        0 <= i < t.links@.len() && t.links@[i].has_clients && t.links@[i].addr@ != peer
            implies #[trigger] stream_targets(t, peer).contains(t.links@[i].addr@) by {
        assert(front.contains(t.links@[i].addr@));
        let k = choose|k: int| 0 <= k < front.len() && front[k] == t.links@[i].addr@;
        assert((front + cl)[k] == front[k]);
    }
    assert forall|k: int| 0 <= k < t.clients@.len() implies #[trigger] stream_targets(
        t,
        peer,
    ).contains(t.clients@[k]@) by {
        assert((front + cl)[front.len() + k] == cl[k]);
    }
    assert forall|x: Seq<char>| #[trigger] stream_targets(t, peer).contains(x) implies (x != peer
        && exists|i: int|
        0 <= i < t.links@.len() && t.links@[i].has_clients && t.links@[i].addr@ == x) || exists|
        k: int,
    | 0 <= k < t.clients@.len() && t.clients@[k]@ == x by {
        let k = choose|k: int| 0 <= k < (front + cl).len() && (front + cl)[k] == x;
        if k < front.len() {
            assert(front.contains(x));
        } else {
            assert(cl[k - front.len()] == t.clients@[k - front.len()]@);
        }
    }
}

/// A request for the stream from a link that is not receiving it is
/// accepted, whether or not the link asked before: the link becomes
/// active with clients, and the node counts one more stream connection.
pub proof fn law_inactive_link_request_accepted(
    old: RoutingTable,
    peer: Seq<char>,
    new: RoutingTable,
    r: Result<bool, String>,
)
    requires
        has_link(old.links@, peer),
        !old.links@[link_index(old.links@, peer)].active,
        request_outcome(old, peer, new, r),
    ensures
        r == Ok::<bool, String>(true),
        new.num_stream_connections == old.num_stream_connections + 1,
        new.links@[link_index(old.links@, peer)].active,
        new.links@[link_index(old.links@, peer)].has_clients,
{
    lemma_link_index(old.links@, peer);
}

/// A link that asks for the stream, refuses it, and asks again is served
/// again: the third request is accepted, the link is active, and the node
/// counts the connections it counted before the first request, plus one.
pub proof fn law_request_refuse_request(
    t0: RoutingTable,
    peer: Seq<char>,
    t1: RoutingTable,
    r1: Result<bool, String>,
    t2: RoutingTable,
    r2: Result<(), String>,
    t3: RoutingTable,
    r3: Result<bool, String>,
)
    requires
        has_link(t0.links@, peer),
        !t0.links@[link_index(t0.links@, peer)].active,
        request_outcome(t0, peer, t1, r1),
        refuse_outcome(t1, peer, t2, r2),
        request_outcome(t2, peer, t3, r3),
    ensures
        r3 == Ok::<bool, String>(true),
        t3.num_stream_connections == t0.num_stream_connections + 1,
        t3.links@[link_index(t0.links@, peer)].active,
{
    lemma_link_index(t0.links@, peer);
    law_link_request_then_refuse(t0, peer, t1, r1, t2, r2);
    let i = link_index(t0.links@, peer);
    assert(t2.links@[i].addr@ == peer);
    assert(has_link(t2.links@, peer));
    lemma_link_index(t2.links@, peer);
    let i2 = link_index(t2.links@, peer);
    assert forall|j: int| 0 <= j < i implies t2.links@[j].addr@ != peer by {
        assert(t2.links@[j] == t0.links@[j]);
    }
    if i2 < i {
        assert(t2.links@[i2] == t0.links@[i2]);
    } else if i < i2 {
        assert(t2.links@[i].addr@ != peer);
    }
    assert(i2 == i);
    law_inactive_link_request_accepted(t2, peer, t3, r3);
}

/// A flood packet from a link, received no earlier than it was stamped,
/// is taken: the first link to the peer now has the packet's source and
/// jumps, is active, and has the time since the stamp as its delay; the
/// other links are unchanged, and the closest link has no more jumps than
/// any link. A packet stamped after it was received changes nothing.
pub proof fn law_flood_taken(
    old: RoutingTable,
    peer: Seq<char>,
    packet: FloodPacket,
    now: u64,
    new: RoutingTable,
    r: Result<bool, String>,
)
    requires
        has_link(old.links@, peer),
        flood_at_outcome(old, peer, packet, now, new, r),
    ensures
        packet.timestamp <= now ==> {
            let i = link_index(old.links@, peer);
            &&& r is Ok
            &&& new.links@.len() == old.links@.len()
            &&& new.links@[i].addr == old.links@[i].addr
            &&& new.links@[i].source == packet.source
            &&& new.links@[i].jumps == packet.jumps
            &&& new.links@[i].active
            &&& new.links@[i].delay == now - packet.timestamp
            &&& forall|j: int| 0 <= j < old.links@.len() && j != i ==> new.links@[j] == old.links@[j]
            &&& forall|j: int|
                0 <= j < new.links@.len() ==> new.closest_link.jumps <= #[trigger] new.links@[j].jumps
        },
        packet.timestamp > now ==> new == old && r is Err,
{
    lemma_link_index(old.links@, peer);
    if packet.timestamp <= now {
        law_flood_keeps_closest(old, peer, packet, now, new, r);
    }
}

} // verus!
