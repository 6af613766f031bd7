use vstd::prelude::*;

use crate::text::views;

verus! {

/// A node of the overlay: whether it is active, its IPv4 address (as a
/// `u32`, most significant byte first) and the addresses of its links.
#[derive(Debug, Clone)]
pub struct Node {
    active: bool,
    ip: u32,
    links: Vec<String>,
}

/// The fields of a node.
pub ghost struct NodeView {
    pub active: bool,
    pub ip: u32,
    pub links: Seq<Seq<char>>,
}

impl View for Node {
    type V = NodeView;

    closed spec fn view(&self) -> NodeView {
        NodeView { active: self.active, ip: self.ip, links: views(self.links@) }
    }
}

impl Node {
    /// A node with these fields.
    pub fn new(active: bool, ip: u32, links: Vec<String>) -> (n: Node)
        ensures
            n@ == (NodeView { active, ip, links: views(links@) }),
    {
        Node { active, ip, links }
    }

    /// The node's address.
    pub fn get_ip(&self) -> (ip: u32)
        ensures
            ip == self@.ip,
    {
        self.ip
    }

    /// A copy of the addresses of the node's links.
    pub fn get_links(&self) -> (links: Vec<String>)
        ensures
            views(links@) == self@.links,
    {
        let mut links: Vec<String> = Vec::new();
        let mut i: usize = 0;
        while i < self.links.len()
            invariant
                i <= self.links.len(),
                views(links@) == views(self.links@).take(i as int),
            decreases self.links.len() - i,
        {
            let ghost before = links@;
            links.push(self.links[i].clone());
            assert(links@ =~= before.push(self.links@[i as int]));
            assert(views(links@) =~= views(before).push(self.links@[i as int]@));
            assert(views(self.links@).take(i + 1) =~= views(self.links@).take(i as int).push(
                self.links@[i as int]@,
            ));
            i = i + 1;
        }
        assert(views(self.links@).take(i as int) =~= views(self.links@));
        links
    }

    /// Whether the node is active.
    pub fn get_active(&self) -> (active: bool)
        ensures
            active == self@.active,
    {
        self.active
    }
}

} // verus!
