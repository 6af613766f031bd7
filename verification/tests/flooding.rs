use onode::node::flooding::link::Link;
use onode::node::flooding::routing_table::RoutingTable;
use onode::node::packets::flood_packet::FloodPacket;
use onode::node::packets::packet::PacketType;
use onode::node::threads::listener::read_packet;

fn link(addr: &str, jumps: u32) -> Link {
    Link::new(
        addr.to_string(),
        "empty".to_string(),
        jumps,
        u64::MAX,
        false,
        0,
        0,
        false,
    )
}

fn addrs(t: &RoutingTable) -> Vec<String> {
    t.links.iter().map(|l| l.addr.clone()).collect()
}

#[test]
fn default_link_knows_nothing() {
    let l = Link::new_default("10.0.0.2");
    assert_eq!(l.addr, "10.0.0.2");
    assert_eq!(l.source, "empty");
    assert_eq!(l.jumps, u32::MAX);
    assert_eq!(l.delay, u64::MAX);
    assert!(!l.active);
    assert_eq!(l.times_down, 0);
    assert_eq!(l.last_down, 0);
    assert!(!l.has_clients);
}

#[test]
fn link_new_keeps_fields() {
    let l = Link::new("a".to_string(), "s".to_string(), 3, 40, true, 2, 99, true);
    assert_eq!(l.addr, "a");
    assert_eq!(l.source, "s");
    assert_eq!(l.jumps, 3);
    assert_eq!(l.delay, 40);
    assert!(l.active);
    assert_eq!(l.times_down, 2);
    assert_eq!(l.last_down, 99);
    assert!(l.has_clients);
    let c = l.copy();
    assert_eq!(c.addr, "a");
    assert_eq!(c.jumps, 3);
}

#[test]
fn new_table_picks_first_fewest_jumps() {
    let t = RoutingTable::new(vec![link("a", 5), link("b", 2), link("c", 2)]);
    assert_eq!(t.closest_link.addr, "b");
    assert_eq!(t.closest_link.jumps, 2);
    assert_eq!(t.num_stream_connections, 0);
    assert!(t.clients.is_empty());
    assert!(!t.has_active_connections());
}

#[test]
fn new_table_of_unmeasured_links_keeps_placeholder() {
    let t = RoutingTable::new(vec![Link::new_default("a"), Link::new_default("b")]);
    assert_eq!(t.closest_link.addr, "dummy");
    assert_eq!(t.closest_link.jumps, u32::MAX);
    let empty = RoutingTable::new(vec![]);
    assert_eq!(empty.closest_link.addr, "dummy");
}

#[test]
fn from_file_reads_own_line() {
    let file = "10.0.0.1-10.0.0.2,10.0.0.3\n10.0.0.2-10.0.0.1\n";
    let t = RoutingTable::from_file(file, "10.0.0.1").unwrap();
    assert_eq!(addrs(&t), vec!["10.0.0.2", "10.0.0.3"]);
    assert!(t.links.iter().all(|l| l.jumps == u32::MAX && !l.active));
    let t2 = RoutingTable::from_file(file, "10.0.0.2").unwrap();
    assert_eq!(addrs(&t2), vec!["10.0.0.1"]);
}

#[test]
fn from_file_without_own_line_has_no_links() {
    let t = RoutingTable::from_file("10.0.0.1-10.0.0.2", "10.0.0.9").unwrap();
    assert!(t.links.is_empty());
}

#[test]
fn from_file_rejects_line_without_dash() {
    let r = RoutingTable::from_file("garbage\n10.0.0.1-10.0.0.2", "10.0.0.1");
    assert_eq!(r.unwrap_err(), "File has an invalid format");
    // a bad line after the own line is never read
    let ok = RoutingTable::from_file("10.0.0.1-10.0.0.2\ngarbage", "10.0.0.1");
    assert!(ok.is_ok());
}

#[test]
fn flood_updates_link_and_closest() {
    let mut t = RoutingTable::new(vec![Link::new_default("a"), Link::new_default("b")]);
    let p = FloodPacket::new("server".to_string(), 3, 1000);
    let changed = t.handle_flood_packet_at("b".to_string(), &p, 1250).unwrap();
    assert!(changed);
    assert_eq!(t.closest_link.addr, "b");
    assert_eq!(t.closest_link.jumps, 3);
    let b = &t.links[1];
    assert_eq!(b.source, "server");
    assert_eq!(b.jumps, 3);
    assert!(b.active);
    assert_eq!(b.delay, 250);
    // a worse flood on the other link does not change the closest link
    let q = FloodPacket::new("server".to_string(), 7, 1000);
    let changed = t.handle_flood_packet_at("a".to_string(), &q, 1000).unwrap();
    assert!(!changed);
    assert_eq!(t.closest_link.addr, "b");
    assert_eq!(t.links[0].delay, 0);
}

#[test]
fn flood_with_more_jumps_keeps_stale_closest() {
    let mut t = RoutingTable::new(vec![link("a", 2), link("b", 4)]);
    let p = FloodPacket::new("s".to_string(), 9, 0);
    let changed = t.handle_flood_packet_at("a".to_string(), &p, 0).unwrap();
    assert!(!changed);
    assert_eq!(t.closest_link.addr, "a");
    assert_eq!(t.closest_link.jumps, 2);
    assert_eq!(t.links[0].jumps, 9);
}

#[test]
fn flood_by_system_clock() {
    let mut t = RoutingTable::new(vec![Link::new_default("a")]);
    let p = FloodPacket::new("s".to_string(), 1, 0);
    let changed = t.handle_flood_packet("a".to_string(), &p).unwrap();
    assert!(changed);
    assert!(t.links[0].delay > 0);
    let future = FloodPacket::new("s".to_string(), 0, u64::MAX);
    let before = t.links[0].jumps;
    let r = t.handle_flood_packet("a".to_string(), &future);
    assert_eq!(r.unwrap_err(), "Flood packet is timestamped in the future");
    assert_eq!(t.links[0].jumps, before);
}

#[test]
fn request_from_link_activates_it() {
    let mut t = RoutingTable::new(vec![link("a", 1), link("b", 2)]);
    assert!(!t.refuses_request(&"b".to_string()));
    assert_eq!(t.handle_request_packet("b".to_string()), Ok(true));
    assert!(t.links[1].active);
    assert!(t.links[1].has_clients);
    assert_eq!(t.num_stream_connections, 1);
    assert!(t.clients.is_empty());
    assert!(t.has_active_connections());
}

#[test]
fn request_from_active_link_is_refused() {
    let mut t = RoutingTable::new(vec![link("a", 1)]);
    t.handle_request_packet("a".to_string()).unwrap();
    assert!(t.refuses_request(&"a".to_string()));
    let r = t.handle_request_packet("a".to_string());
    assert_eq!(r.unwrap_err(), "Link is already receiving the stream...");
    assert_eq!(t.num_stream_connections, 1);
}

#[test]
fn request_from_stranger_adds_client() {
    let mut t = RoutingTable::new(vec![link("a", 1)]);
    assert_eq!(t.handle_request_packet("c1".to_string()), Ok(true));
    assert_eq!(t.clients, vec!["c1".to_string()]);
    assert_eq!(t.num_stream_connections, 1);
    assert!(!t.links[0].active);
}

#[test]
fn refuse_from_link_and_client() {
    let mut t = RoutingTable::new(vec![link("a", 1)]);
    t.handle_request_packet("a".to_string()).unwrap();
    t.handle_request_packet("c1".to_string()).unwrap();
    t.handle_request_packet("c1".to_string()).unwrap();
    assert_eq!(t.num_stream_connections, 3);
    assert_eq!(t.handle_refuse_packet("a".to_string()), Ok(()));
    assert!(!t.links[0].active);
    assert_eq!(t.num_stream_connections, 2);
    assert_eq!(t.handle_refuse_packet("c1".to_string()), Ok(()));
    assert_eq!(t.clients, vec!["c1".to_string()]);
    assert_eq!(t.num_stream_connections, 2);
}

#[test]
fn refuse_from_unknown_peer_is_error() {
    let mut t = RoutingTable::new(vec![link("a", 1)]);
    let r = t.handle_refuse_packet("zz".to_string());
    assert_eq!(r.unwrap_err(), "Node wasn't receiving the stream...");
    assert_eq!(t.num_stream_connections, 0);
}

#[test]
fn link_request_then_refuse_restores_count() {
    let mut t = RoutingTable::new(vec![link("a", 1), link("b", 2)]);
    t.handle_request_packet("b".to_string()).unwrap();
    t.handle_refuse_packet("b".to_string()).unwrap();
    assert_eq!(t.num_stream_connections, 0);
    assert!(!t.links[1].active);
    assert!(t.links[1].has_clients);
    assert!(t.clients.is_empty());
    assert_eq!(t.closest_link.addr, "a");
}

#[test]
fn client_request_then_refuse_restores_clients() {
    let mut t = RoutingTable::new(vec![link("a", 1)]);
    t.clients.push("old".to_string());
    t.handle_request_packet("new".to_string()).unwrap();
    t.handle_refuse_packet("new".to_string()).unwrap();
    assert_eq!(t.clients, vec!["old".to_string()]);
    assert_eq!(t.num_stream_connections, 1);
}

#[test]
fn closest_link_stays_within_every_link() {
    let mut t = RoutingTable::new(vec![link("a", 6), link("b", 4)]);
    let p = FloodPacket::new("s".to_string(), 1, 5);
    t.handle_flood_packet_at("a".to_string(), &p, 5).unwrap();
    t.handle_request_packet("b".to_string()).unwrap();
    t.handle_refuse_packet("b".to_string()).unwrap();
    assert!(t.links.iter().all(|l| t.closest_link.jumps <= l.jumps));
    assert_eq!(t.closest_link.addr, "a");
}

#[test]
fn knows_link_by_address() {
    let t = RoutingTable::new(vec![link("a", 1)]);
    assert!(t.knows_link(&"a".to_string()));
    assert!(!t.knows_link(&"b".to_string()));
}

#[test]
fn flood_targets_skip_closest() {
    let t = RoutingTable::new(vec![link("a", 3), link("b", 1), link("c", 2)]);
    assert_eq!(t.flood_targets(), vec!["a".to_string(), "c".to_string()]);
}

#[test]
fn stream_targets_are_client_links_then_clients() {
    let mut t = RoutingTable::new(vec![link("a", 3), link("b", 1), link("c", 2)]);
    t.handle_request_packet("a".to_string()).unwrap();
    t.handle_request_packet("c".to_string()).unwrap();
    t.handle_request_packet("x".to_string()).unwrap();
    assert_eq!(
        t.stream_targets(&"c".to_string()),
        vec!["a".to_string(), "x".to_string()]
    );
    assert_eq!(
        t.stream_targets(&"b".to_string()),
        vec!["a".to_string(), "c".to_string(), "x".to_string()]
    );
}

#[test]
fn flood_message_on_closest_link() {
    let t = RoutingTable::new(vec![link("a", 3), link("b", 1), link("c", 2)]);
    let (bytes, to) = t.flood_message().unwrap();
    assert_eq!(to, vec!["a".to_string(), "c".to_string()]);
    match read_packet(&bytes) {
        Ok(PacketType::Flood(p)) => {
            assert_eq!(p.source, "b");
            assert_eq!(p.jumps, 2);
            assert!(p.timestamp > 0);
        }
        other => panic!("unexpected {:?}", other),
    }
}

#[test]
fn flood_message_at_given_time() {
    let t = RoutingTable::new(vec![link("a", 3), link("b", 1)]);
    let (bytes, to) = t.flood_message_at(42).unwrap();
    assert_eq!(to, vec!["a".to_string()]);
    assert_eq!(bytes, vec![0, 0, 8, 0x93, 0xa1, b'b', 2, 42]);
}

#[test]
fn flood_from_the_future_is_refused() {
    let mut t = RoutingTable::new(vec![link("a", 5)]);
    let p = FloodPacket::new("s".to_string(), 1, 100);
    let r = t.handle_flood_packet_at("a".to_string(), &p, 99);
    assert_eq!(r.unwrap_err(), "Flood packet is timestamped in the future");
    assert_eq!(t.links[0].jumps, 5);
    assert_eq!(t.closest_link.addr, "a");
    // the closest link keeps its address, so nothing changed
    assert_eq!(t.handle_flood_packet_at("a".to_string(), &p, 100), Ok(false));
    assert_eq!(t.links[0].delay, 0);
    assert_eq!(t.links[0].jumps, 1);
    assert_eq!(t.closest_link.jumps, 1);
}
