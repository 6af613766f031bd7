use std::collections::HashMap;

use onode::node::routing::algorithms::dijkstra::DijkstraTable;
use onode::node::routing::ip::{ip_string, ipv4, octet_string, parse_u8};
use onode::node::routing::link::Link;
use onode::node::routing::node::Node;
use onode::node::routing::overlay_graph::OverlayGraph;
use onode::node::routing::routing_table::RoutingTable;

fn ip(s: &str) -> u32 {
    let p: Vec<u8> = s.split('.').map(|x| x.parse().unwrap()).collect();
    ipv4(p[0], p[1], p[2], p[3])
}

#[test]
fn ipv4_packs_bytes() {
    assert_eq!(ipv4(10, 0, 0, 1), 0x0a00_0001);
    assert_eq!(ipv4(255, 255, 255, 255), u32::MAX);
    assert_eq!(ipv4(0, 0, 0, 0), 0);
}

#[test]
fn ip_text_of_address() {
    assert_eq!(ip_string(0x0a00_0001), "10.0.0.1");
    assert_eq!(ip_string(ipv4(192, 168, 100, 7)), "192.168.100.7");
    assert_eq!(octet_string(0), "0");
    assert_eq!(octet_string(42), "42");
    assert_eq!(octet_string(255), "255");
}

#[test]
fn octet_text_parses_back() {
    for n in 0..=255u8 {
        assert_eq!(parse_u8(&octet_string(n)), Some(n));
    }
}

#[test]
fn parse_u8_like_std() {
    for s in ["0", "7", "255", "+12", "007", "256", "", "+", "1a", "-1", "999", " 1"] {
        assert_eq!(parse_u8(s), s.parse::<u8>().ok(), "input {s:?}");
    }
}

#[test]
fn node_getters() {
    let n = Node::new(true, ip("10.0.0.2"), vec!["10.0.0.1".to_string()]);
    assert_eq!(n.get_ip(), ip("10.0.0.2"));
    assert_eq!(n.get_links(), vec!["10.0.0.1".to_string()]);
    assert!(n.get_active());
}

#[test]
fn routing_link_builds() {
    let _l = Link::new("10.0.0.1".to_string(), "s".to_string(), 1, 2, true, 0, 5);
}

#[test]
fn parse_graph_file_reads_nodes() {
    let file = "10.0.0.1-10.0.0.2,10.0.0.3\n10.0.0.2-10.0.0.1\n10.0.0.3-10.0.0.1\0\0\0";
    let g = OverlayGraph::parse_graph_file(file.to_string(), "10.0.0.1".to_string()).unwrap();
    let nodes = g.get_nodes();
    assert_eq!(nodes.len(), 3);
    let n1 = &nodes[&ip("10.0.0.1")];
    assert_eq!(n1.get_links(), vec!["10.0.0.2".to_string(), "10.0.0.3".to_string()]);
    assert!(!n1.get_active());
    // the own address is left out of the links
    assert!(nodes[&ip("10.0.0.2")].get_links().is_empty());
}

#[test]
fn parse_graph_file_later_line_wins() {
    let file = "10.0.0.1-a\n10.0.0.1-b";
    let g = OverlayGraph::parse_graph_file(file.to_string(), "x".to_string()).unwrap();
    let nodes = g.get_nodes();
    assert_eq!(nodes.len(), 1);
    assert_eq!(nodes[&ip("10.0.0.1")].get_links(), vec!["b".to_string()]);
}

#[test]
fn parse_graph_file_errors() {
    let r = OverlayGraph::parse_graph_file("nodash".to_string(), "x".to_string());
    assert_eq!(r.unwrap_err(), "File is an invalid format");
    let r = OverlayGraph::parse_graph_file("10.0.0-1.2".to_string(), "x".to_string());
    assert_eq!(r.unwrap_err(), "Ip address '10.0.0' is in an invalid format");
    let r = OverlayGraph::parse_graph_file("1234.0.0.1-x".to_string(), "x".to_string());
    assert_eq!(r.unwrap_err(), "Ip address '1234.0.0.1' is in an invalid format");
}

#[test]
fn parse_graph_pattern_dot_is_any_character() {
    let g = OverlayGraph::parse_graph_file("10x0y0z9-q".to_string(), "x".to_string()).unwrap();
    assert!(g.get_nodes().contains_key(&ip("10.0.0.9")));
}

#[test]
fn try_parse_graph_file_stops_on_large_byte() {
    let r = OverlayGraph::try_parse_graph_file("300.0.0.1-x".to_string(), "x".to_string());
    assert!(r.is_none());
    let ok = OverlayGraph::try_parse_graph_file("10.0.0.1-x".to_string(), "x".to_string());
    assert!(matches!(ok, Some(Ok(_))));
    let err = OverlayGraph::try_parse_graph_file("bad".to_string(), "x".to_string());
    assert!(matches!(err, Some(Err(_))));
}

#[test]
fn add_node_replaces_same_address() {
    let mut g = OverlayGraph::default();
    assert!(g.get_nodes().is_empty());
    g.add_node(Node::new(false, 5, vec![]));
    g.add_node(Node::new(true, 5, vec!["a".to_string()]));
    let nodes = g.get_nodes();
    assert_eq!(nodes.len(), 1);
    assert!(nodes[&5].get_active());
}

/// The line 10.0.0.1 - 10.0.0.2 - 10.0.0.3, as the node `own` reads it:
/// links to itself left out.
fn line_graph(own: &str) -> HashMap<u32, Node> {
    let links = |ls: &[&str]| -> Vec<String> {
        ls.iter().filter(|l| **l != own).map(|l| l.to_string()).collect()
    };
    let mut m = HashMap::new();
    m.insert(ip("10.0.0.1"), Node::new(false, ip("10.0.0.1"), links(&["10.0.0.2"])));
    m.insert(ip("10.0.0.2"), Node::new(false, ip("10.0.0.2"), links(&["10.0.0.1", "10.0.0.3"])));
    m.insert(ip("10.0.0.3"), Node::new(false, ip("10.0.0.3"), links(&["10.0.0.2"])));
    m
}

#[test]
fn calc_routes_on_line() {
    let t = DijkstraTable::calc_routes(&line_graph("10.0.0.1"), "10.0.0.1".to_string()).unwrap();
    assert_eq!(t.len(), 2);
    assert_eq!(t[&ip("10.0.0.2")], (ip("10.0.0.2"), 1));
    assert_eq!(t[&ip("10.0.0.3")], (ip("10.0.0.2"), 2));
    let m = DijkstraTable::calc_routes(&line_graph("10.0.0.2"), "10.0.0.2".to_string()).unwrap();
    assert_eq!(m[&ip("10.0.0.1")], (ip("10.0.0.1"), 1));
    assert_eq!(m[&ip("10.0.0.3")], (ip("10.0.0.3"), 1));
}

#[test]
fn calc_routes_errors() {
    let r = DijkstraTable::calc_routes(&line_graph("10.0.0.9"), "10.0.0.9".to_string());
    assert_eq!(r.unwrap_err(), "Dijkstra table has no remaining nodes");
    let back = DijkstraTable::calc_routes(&line_graph("10.0.0.9"), "10.0.0.1".to_string());
    assert_eq!(
        back.unwrap_err(),
        "Node '10.0.0.2' references '10.0.0.1' as a link but the latter is not a node"
    );
    let mut g = line_graph("10.0.0.1");
    g.insert(ip("10.0.0.4"), Node::new(false, ip("10.0.0.4"), vec![]));
    let r = DijkstraTable::calc_routes(&g, "10.0.0.1".to_string());
    assert_eq!(r.unwrap_err(), "Dijkstra table has no remaining nodes");
    let mut h = line_graph("10.0.0.1");
    h.insert(ip("10.0.0.3"), Node::new(false, ip("10.0.0.3"), vec!["ghost".to_string()]));
    let r = DijkstraTable::calc_routes(&h, "10.0.0.1".to_string());
    assert_eq!(
        r.unwrap_err(),
        "Node '10.0.0.3' references 'ghost' as a link but the latter is not a node"
    );
}

#[test]
fn calc_paths_through_graph() {
    let file = "10.0.0.1-10.0.0.2\n10.0.0.2-10.0.0.1,10.0.0.3\n10.0.0.3-10.0.0.2";
    let g = OverlayGraph::parse_graph_file(file.to_string(), "10.0.0.3".to_string()).unwrap();
    assert!(RoutingTable::calc_paths(g, "10.0.0.3".to_string()).is_ok());
    let g2 = OverlayGraph::parse_graph_file(file.to_string(), "10.0.0.3".to_string()).unwrap();
    assert!(RoutingTable::calc_paths(g2, "10.0.0.8".to_string()).is_err());
}

#[test]
fn calc_routes_first_hop_follows_parents() {
    // 1 - 2 - 3 - 4 and 1 - 5: the route to 4 goes out through 2
    let own = "10.0.0.1";
    let mk = |ls: &[&str]| -> Vec<String> {
        ls.iter().filter(|l| **l != own).map(|l| l.to_string()).collect()
    };
    let mut m = HashMap::new();
    m.insert(ip("10.0.0.1"), Node::new(false, ip("10.0.0.1"), mk(&["10.0.0.2", "10.0.0.5"])));
    m.insert(ip("10.0.0.2"), Node::new(false, ip("10.0.0.2"), mk(&["10.0.0.1", "10.0.0.3"])));
    m.insert(ip("10.0.0.3"), Node::new(false, ip("10.0.0.3"), mk(&["10.0.0.2", "10.0.0.4"])));
    m.insert(ip("10.0.0.4"), Node::new(false, ip("10.0.0.4"), mk(&["10.0.0.3"])));
    m.insert(ip("10.0.0.5"), Node::new(false, ip("10.0.0.5"), mk(&["10.0.0.1"])));
    let t = DijkstraTable::calc_routes(&m, own.to_string()).unwrap();
    assert_eq!(t[&ip("10.0.0.4")], (ip("10.0.0.2"), 3));
    assert_eq!(t[&ip("10.0.0.3")], (ip("10.0.0.2"), 2));
    assert_eq!(t[&ip("10.0.0.5")], (ip("10.0.0.5"), 1));
}

#[test]
fn calc_paths_passes_errors_on() {
    let file = "10.0.0.1-10.0.0.2\n10.0.0.2-10.0.0.9";
    let g = OverlayGraph::parse_graph_file(file.to_string(), "10.0.0.1".to_string()).unwrap();
    match RoutingTable::calc_paths(g, "10.0.0.1".to_string()) {
        Err(e) => assert_eq!(
            e,
            "Node '10.0.0.2' references '10.0.0.9' as a link but the latter is not a node"
        ),
        Ok(_) => panic!("expected an error"),
    }
    let g2 = OverlayGraph::parse_graph_file(file.to_string(), "x".to_string()).unwrap();
    match RoutingTable::calc_paths(g2, "10.0.0.7".to_string()) {
        Err(e) => assert_eq!(e, "Dijkstra table has no remaining nodes"),
        Ok(_) => panic!("expected an error"),
    }
}

#[test]
fn graph_file_nul_padding_ignored() {
    let file = "10.0.0.1-10.0.0.2\n10.0.0.2-10.0.0.1";
    let plain = OverlayGraph::parse_graph_file(file.to_string(), "x".to_string()).unwrap();
    let padded =
        OverlayGraph::parse_graph_file(format!("\0\0{file}\0\0\0"), "x".to_string()).unwrap();
    let a = plain.get_nodes();
    let b = padded.get_nodes();
    assert_eq!(a.len(), b.len());
    for (k, n) in a.iter() {
        assert_eq!(b[k].get_links(), n.get_links());
    }
}

#[test]
fn calc_routes_ignores_bad_link_of_unreachable_node() {
    // node 4 cannot be reached and names a missing node: the error is
    // about the unreachable node, not its link
    let mut g = line_graph("10.0.0.1");
    g.insert(ip("10.0.0.4"), Node::new(false, ip("10.0.0.4"), vec!["ghost".to_string()]));
    let r = DijkstraTable::calc_routes(&g, "10.0.0.1".to_string());
    assert_eq!(r.unwrap_err(), "Dijkstra table has no remaining nodes");
}

#[test]
fn node_of_line_from_groups() {
    let own = "10.0.0.1".to_string();
    let groups = Some(vec![
        Some("10.0.0.2".to_string()),
        Some("10".to_string()),
        Some("0".to_string()),
        Some("0".to_string()),
        Some("2".to_string()),
    ]);
    let n = OverlayGraph::node_of_line(
        &"10.0.0.2".to_string(),
        &"10.0.0.1,10.0.0.3".to_string(),
        groups,
        &own,
    )
    .unwrap()
    .unwrap();
    assert_eq!(n.get_ip(), ip("10.0.0.2"));
    assert_eq!(n.get_links(), vec!["10.0.0.3".to_string()]);
    assert!(!n.get_active());
    let big = Some(vec![
        Some("300.0.0.2".to_string()),
        Some("300".to_string()),
        Some("0".to_string()),
        Some("0".to_string()),
        Some("2".to_string()),
    ]);
    assert!(OverlayGraph::node_of_line(&"300.0.0.2".to_string(), &"x".to_string(), big, &own)
        .unwrap()
        .is_none());
    match OverlayGraph::node_of_line(&"a.b".to_string(), &"x".to_string(), None, &own) {
        Err(e) => assert_eq!(e, "Ip address 'a.b' is in an invalid format"),
        Ok(_) => panic!("expected an error"),
    }
}
