use std::collections::HashMap;

use vstd::prelude::*;

use crate::node::routing::algorithms::dijkstra::{
    is_route_table, routes_error, routes_ok, DijkstraTable,
};
use crate::node::routing::ip::ip_text;
use crate::node::routing::node::{Node, NodeView};
use crate::node::routing::overlay_graph::{node_views, OverlayGraph};

verus! {

/// The routes of one node of the overlay: its own address, the nodes of
/// the overlay, and for every other node the neighbour to send through
/// and the number of links to it.
#[derive(Debug, Clone)]
pub struct RoutingTable {
    own_ip: String,
    nodes: HashMap<u32, Node>,
    table: HashMap<u32, (u32, u32)>,
}

/// The contents of a routing table.
pub ghost struct RoutingTableView {
    pub own_ip: Seq<char>,
    pub nodes: Map<u32, NodeView>,
    pub table: Map<u32, (u32, u32)>,
}

impl View for RoutingTable {
    type V = RoutingTableView;

    closed spec fn view(&self) -> RoutingTableView {
        RoutingTableView {
            own_ip: self.own_ip@,
            nodes: node_views(self.nodes@),
            table: self.table@,
        }
    }
}

impl RoutingTable {
    /// The routes of the node `ip` through the overlay `o_graph`, as
    /// `DijkstraTable::calc_routes` computes them: the table it returns,
    /// or the error it gives when no route table can be computed (see
    /// `routes_ok` and `routes_error`).
    pub fn calc_paths(o_graph: OverlayGraph, ip: String) -> (r: Result<Self, String>)
        requires
            o_graph@.dom().len() < u32::MAX,
        ensures
            r is Ok <==> routes_ok(o_graph@, ip@),
            r matches Ok(t) ==> {
                &&& t@.own_ip == ip@
                &&& t@.nodes == o_graph@
                &&& forall|o: u32|
                    o_graph@.contains_key(o) && ip_text(o) == ip@ ==> is_route_table(
                        o_graph@,
                        o,
                        t@.table,
                    )
            },
            r matches Err(e) ==> routes_error(o_graph@, ip@, e@),
            (forall|o: u32| o_graph@.contains_key(o) ==> ip_text(o) != ip@) ==> (r matches Err(e)
                && e@ == "Dijkstra table has no remaining nodes"@),
    {
        let nodes = o_graph.get_nodes();
        assert(nodes@.dom() =~= o_graph@.dom());
        let table = match DijkstraTable::calc_routes(&nodes, ip.clone()) {
            Ok(table) => table,
            Err(e) => {
                return Err(e);
            },
        };
        Ok(RoutingTable { own_ip: ip, nodes, table })
    }
}

} // verus!
