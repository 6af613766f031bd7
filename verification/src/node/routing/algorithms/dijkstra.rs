use std::collections::HashMap;

use vstd::prelude::*;
use vstd::set_lib::{lemma_int_range, lemma_len_subset, set_int_range};
use vstd::std_specs::hash::spec_hash_map_iter;
use vstd::std_specs::iter::IteratorSpec;

use crate::node::routing::ip::{ip_string, ip_text, lemma_ip_text_injective};
use crate::node::routing::node::{Node, NodeView};
use crate::node::routing::overlay_graph::node_views;
use crate::text::views;

verus! {

broadcast use {vstd::string::group_string_axioms, vstd::std_specs::hash::group_hash_axioms};

/// The overlay has a link from node `a` to node `b`: one of `a`'s links
/// is the address text of `b`, and `b` is not the node `own` that routes.
pub open spec fn edge(g: Map<u32, NodeView>, own: u32, a: u32, b: u32) -> bool {
    &&& g.contains_key(a)
    &&& g.contains_key(b)
    &&& b != own
    &&& exists|j: int| 0 <= j < g[a].links.len() && g[a].links[j] == ip_text(b)
}

/// Node `t` can be reached from `s` over at most `k` links.
pub open spec fn reach(g: Map<u32, NodeView>, own: u32, s: u32, k: nat, t: u32) -> bool
    decreases k,
{
    t == s || (k > 0 && exists|u: u32|
        #![trigger edge(g, own, u, t)]
        reach(g, own, s, (k - 1) as nat, u) && edge(g, own, u, t))
}

/// The fewest links from `s` to `t` are `c`.
pub open spec fn dist_exact(g: Map<u32, NodeView>, own: u32, s: u32, t: u32, c: nat) -> bool {
    reach(g, own, s, c, t) && (c == 0 || !reach(g, own, s, (c - 1) as nat, t))
}

/// The link text `l` is the address text of a node other than `own`.
pub open spec fn names_node(g: Map<u32, NodeView>, own: u32, l: Seq<char>) -> bool {
    exists|b: u32| g.contains_key(b) && b != own && ip_text(b) == l
}

/// Every link of every node is the address text of a node other than
/// `own`.
pub open spec fn links_resolve(g: Map<u32, NodeView>, own: u32) -> bool {
    forall|a: u32, j: int|
        g.contains_key(a) && 0 <= j < g[a].links.len() ==> names_node(g, own, #[trigger] g[a].links[j])
}

/// Every node can be reached from `own`.
pub open spec fn connected(g: Map<u32, NodeView>, own: u32) -> bool {
    forall|t: u32| g.contains_key(t) ==> exists|k: nat| #[trigger] reach(g, own, own, k, t)
}

/// Routes can be computed from the node whose address text is `own`: it
/// is a node, every link names another node, and every node can be
/// reached from it.
pub open spec fn routes_ok(g: Map<u32, NodeView>, own: Seq<char>) -> bool {
    exists|o: u32|
        g.contains_key(o) && ip_text(o) == own && links_resolve(g, o) && #[trigger] connected(g, o)
}

/// `t` routes every node but `o`: to node `a` it gives the fewest links
/// `c` from `o` to `a`, and a neighbour `n` of `o` that is the first step
/// of a path of `c` links from `o` to `a`.
pub open spec fn is_route_table(g: Map<u32, NodeView>, o: u32, t: Map<u32, (u32, u32)>) -> bool {
    &&& t.dom() == g.dom().remove(o)
    &&& forall|a: u32|
        #[trigger] t.contains_key(a) ==> {
            let (n, c) = t[a];
            &&& c >= 1
            &&& dist_exact(g, o, o, a, c as nat)
            &&& edge(g, o, o, n)
            &&& reach(g, o, n, (c - 1) as nat, a)
        }
}

pub proof fn lemma_reach_step(g: Map<u32, NodeView>, own: u32, s: u32, k: nat, u: u32, t: u32)
    requires
        reach(g, own, s, k, u),
        edge(g, own, u, t),
    ensures
        reach(g, own, s, k + 1, t),
{
    assert(reach(g, own, s, ((k + 1) - 1) as nat, u));
}

pub proof fn lemma_reach_mono(g: Map<u32, NodeView>, own: u32, s: u32, k: nat, k2: nat, t: u32)
    requires
        reach(g, own, s, k, t),
        k <= k2,
    ensures
        reach(g, own, s, k2, t),
    decreases k2,
{
    if k < k2 && t != s {
        let u = choose|u: u32| reach(g, own, s, (k - 1) as nat, u) && edge(g, own, u, t);
        lemma_reach_mono(g, own, s, (k - 1) as nat, (k2 - 1) as nat, u);
        lemma_reach_step(g, own, s, (k2 - 1) as nat, u, t);
    }
}

pub proof fn lemma_exact_le(g: Map<u32, NodeView>, own: u32, s: u32, t: u32, c: nat, e: nat)
    requires
        dist_exact(g, own, s, t, c),
        reach(g, own, s, e, t),
    ensures
        c <= e,
{
    if e < c {
        lemma_reach_mono(g, own, s, e, (c - 1) as nat, t);
    }
}

pub proof fn lemma_reach_prepend(g: Map<u32, NodeView>, own: u32, a: u32, b: u32, k: nat, t: u32)
    requires
        edge(g, own, a, b),
        reach(g, own, b, k, t),
    ensures
        reach(g, own, a, k + 1, t),
    decreases k,
{
    if t == b {
        assert(reach(g, own, a, 0, a));
        lemma_reach_step(g, own, a, 0, a, t);
        lemma_reach_mono(g, own, a, 1, k + 1, t);
    } else {
        let u = choose|u: u32| reach(g, own, b, (k - 1) as nat, u) && edge(g, own, u, t);
        lemma_reach_prepend(g, own, a, b, (k - 1) as nat, u);
        lemma_reach_step(g, own, a, k, u, t);
    }
}

/// The node `k` parent links back from `x`.
pub open spec fn ancestor(parent: Seq<usize>, x: int, k: nat) -> int
    decreases k,
{
    if k == 0 {
        x
    } else {
        parent[ancestor(parent, x, (k - 1) as nat)] as int
    }
}

/// The error a route computation gives for the link `l` of node `a`.
pub open spec fn bad_link_error(a: u32, l: Seq<char>) -> Seq<char> {
    "Node '"@ + ip_text(a) + "' references '"@ + l + "' as a link but the latter is not a node"@
}

/// Node `a` can be reached from `o`.
pub open spec fn reaches(g: Map<u32, NodeView>, o: u32, a: u32) -> bool {
    exists|k: nat| #[trigger] reach(g, o, o, k, a)
}

/// The link `j` of node `a` names no node other than `o`.
pub open spec fn bad_link(g: Map<u32, NodeView>, o: u32, a: u32, j: int) -> bool {
    &&& g.contains_key(a)
    &&& 0 <= j < g[a].links.len()
    &&& !names_node(g, o, g[a].links[j])
}

/// `e` is the error that a route computation from the node with text
/// `ip` gives: when a node that can be reached from it has a link that
/// names no other node, the text of such a link; otherwise (no node has
/// the text `ip`, or some node cannot be reached) that no nodes remain.
pub open spec fn routes_error(g: Map<u32, NodeView>, ip: Seq<char>, e: Seq<char>) -> bool {
    if exists|o: u32| g.contains_key(o) && ip_text(o) == ip {
        let o = choose|o: u32| g.contains_key(o) && ip_text(o) == ip;
        if exists|a: u32, j: int| reaches(g, o, a) && #[trigger] bad_link(g, o, a, j) {
            exists|a: u32, j: int|
                reaches(g, o, a) && #[trigger] bad_link(g, o, a, j) && e == bad_link_error(
                    a,
                    g[a].links[j],
                )
        } else {
            e == "Dijkstra table has no remaining nodes"@
        }
    } else {
        e == "Dijkstra table has no remaining nodes"@
    }
}

/// The state of the shortest-path search, over the nodes by position:
/// their addresses, the positions their links lead to, the best cost
/// found so far (`u32::MAX` for none), the node it was found through, and
/// whether the node is settled.
pub struct DijkstraTable {
    own: usize,
    keys: Vec<u32>,
    adj: Vec<Vec<usize>>,
    cost: Vec<u32>,
    parent: Vec<usize>,
    done: Vec<bool>,
    bad: Vec<Option<String>>,
}

impl DijkstraTable {
    spec fn n(&self) -> int {
        self.keys@.len() as int
    }

    spec fn own_key(&self) -> u32 {
        self.keys@[self.own as int]
    }

    spec fn iedge(&self, g: Map<u32, NodeView>, i: int, m: int) -> bool {
        edge(g, self.own_key(), self.keys@[i], self.keys@[m])
    }

    spec fn exact(&self, g: Map<u32, NodeView>, x: int) -> bool {
        dist_exact(g, self.own_key(), self.own_key(), self.keys@[x], self.cost@[x] as nat)
    }

    spec fn done_set(&self) -> Set<int> {
        Set::new(|i: int| 0 <= i < self.n() && self.done@[i])
    }

    /// The positions and links describe the graph `g`.
    spec fn wf(&self, g: Map<u32, NodeView>) -> bool {
        let n = self.n();
        &&& n < u32::MAX
        &&& self.keys@.no_duplicates()
        &&& forall|i: int| 0 <= i < n ==> g.contains_key(#[trigger] self.keys@[i])
        &&& forall|k: u32| g.contains_key(k) ==> #[trigger] self.keys@.contains(k)
        &&& self.own < n
        &&& self.adj@.len() == n
        &&& self.cost@.len() == n
        &&& self.parent@.len() == n
        &&& self.done@.len() == n
        &&& forall|i: int, j: int|
            0 <= i < n && 0 <= j < self.adj@[i]@.len() ==> #[trigger] self.adj@[i]@[j] < n
        &&& forall|i: int, m: int|
            #![trigger self.iedge(g, i, m)]
            #![trigger self.adj@[i]@.contains(m as usize)]
            0 <= i < n && 0 <= m < n ==> (self.iedge(g, i, m) <==> self.adj@[i]@.contains(
                m as usize,
            ))
    }

    /// For each node, the error for its first link that names no node
    /// other than the routing one, or `None` when every link names one.
    spec fn bad_wf(&self, g: Map<u32, NodeView>) -> bool {
        &&& self.bad@.len() == self.n()
        &&& forall|i: int|
            0 <= i < self.n() ==> match #[trigger] self.bad@[i] {
                None => forall|j: int|
                    0 <= j < g[self.keys@[i]].links.len() ==> names_node(
                        g,
                        self.own_key(),
                        #[trigger] g[self.keys@[i]].links[j],
                    ),
                Some(m) => exists|j: int|
                    #[trigger] bad_link(g, self.own_key(), self.keys@[i], j) && m@
                        == bad_link_error(self.keys@[i], g[self.keys@[i]].links[j]),
            }
    }

    /// What holds between two settling steps: settled nodes have their
    /// exact distance, every unsettled node's cost is no more than one
    /// past each settled neighbour's, and every finite cost comes from a
    /// settled node one link before.
    spec fn settled(&self, g: Map<u32, NodeView>) -> bool {
        let n = self.n();
        let d = self.done_set().len();
        &&& self.cost@[self.own as int] == 0
        &&& forall|x: int|
            0 <= x < n && #[trigger] self.done@[x] ==> self.exact(g, x) && self.cost@[x] < d
        &&& forall|p: int, x: int|
            0 <= p < n && 0 <= x < n && self.done@[p] && !self.done@[x] && #[trigger] self.iedge(
                g,
                p,
                x,
            ) ==> self.cost@[x] <= self.cost@[p] + 1
        &&& forall|x: int|
            0 <= x < n && x != self.own && #[trigger] self.cost@[x] < u32::MAX ==> {
                let p = self.parent@[x] as int;
                &&& 0 <= p < n
                &&& self.done@[p]
                &&& self.iedge(g, p, x)
                &&& self.cost@[x] == self.cost@[p] + 1
            }
    }

    /// `cur` is the next node to settle: it is not settled, its cost is
    /// its exact distance, and the node `own` is settled first.
    spec fn ready(&self, g: Map<u32, NodeView>, cur: int) -> bool {
        &&& 0 <= cur < self.n()
        &&& !self.done@[cur]
        &&& self.exact(g, cur)
        &&& self.cost@[cur] <= self.done_set().len()
        &&& (self.done_set().len() == 0 && cur == self.own) || self.done@[self.own as int]
    }

    proof fn lemma_done_set_bounds(&self, g: Map<u32, NodeView>)
        requires
            self.wf(g),
        ensures
            self.done_set().finite(),
            self.done_set().len() <= self.n(),
            (exists|i: int| 0 <= i < self.n() && !self.done@[i]) ==> self.done_set().len()
                < self.n(),
    {
        lemma_int_range(0, self.n());
        assert(self.done_set().subset_of(set_int_range(0, self.n())));
        lemma_len_subset(self.done_set(), set_int_range(0, self.n()));
        if exists|i: int| 0 <= i < self.n() && !self.done@[i] {
            let i = choose|i: int| 0 <= i < self.n() && !self.done@[i];
            assert(self.done_set().insert(i).subset_of(set_int_range(0, self.n())));
            lemma_len_subset(self.done_set().insert(i), set_int_range(0, self.n()));
        }
    }

    /// An unsettled node reachable within `e` links means an unsettled
    /// node with a finite cost of at most `e`.
    proof fn lemma_frontier(&self, g: Map<u32, NodeView>, e: nat, z: int)
        requires
            self.wf(g),
            self.settled(g),
            self.done@[self.own as int],
            0 <= z < self.n(),
            !self.done@[z],
            reach(g, self.own_key(), self.own_key(), e, self.keys@[z]),
        ensures
            exists|u: int|
                0 <= u < self.n() && !self.done@[u] && self.cost@[u] <= e && self.cost@[u]
                    < u32::MAX,
        decreases e,
    {
        let o = self.own_key();
        self.lemma_done_set_bounds(g);
        if self.keys@[z] == o {
            assert(z == self.own as int);
        } else {
            let w = choose|w: u32| reach(g, o, o, (e - 1) as nat, w) && edge(g, o, w, self.keys@[z]);
            assert(self.keys@.contains(w));
            let wi = choose|wi: int| 0 <= wi < self.n() && self.keys@[wi] == w;
            assert(self.iedge(g, wi, z));
            if self.done@[wi] {
                assert(self.exact(g, wi));
                lemma_exact_le(g, o, o, w, self.cost@[wi] as nat, (e - 1) as nat);
                assert(self.cost@[z] <= self.cost@[wi] + 1);
            } else {
                self.lemma_frontier(g, (e - 1) as nat, wi);
            }
        }
    }
}

/// The addresses of the nodes, each once, with their links.
fn collect_nodes(nodes: &HashMap<u32, Node>) -> (r: (Vec<u32>, Vec<Vec<String>>))
    ensures
        r.0@.len() == r.1@.len(),
        r.0@.len() == nodes@.dom().len(),
        r.0@.no_duplicates(),
        forall|i: int|
            0 <= i < r.0@.len() ==> nodes@.contains_key(#[trigger] r.0@[i]) && views(r.1@[i]@)
                == nodes@[r.0@[i]]@.links,
        forall|k: u32| nodes@.contains_key(k) ==> #[trigger] r.0@.contains(k),
{
    let ghost pairs = spec_hash_map_iter(nodes).remaining();
    let mut keys: Vec<u32> = Vec::new();
    let mut links: Vec<Vec<String>> = Vec::new();
    for (k, n) in it: nodes.iter()
        invariant
            it.seq() == pairs,
            keys@.len() == it.index(),
            links@.len() == it.index(),
            forall|i: int| 0 <= i < it.index() ==> keys@[i] == *(#[trigger] pairs[i]).0,
            forall|i: int|
                0 <= i < it.index() ==> views(links@[i]@) == (*(#[trigger] pairs[i]).1)@.links,
    {
        keys.push(*k);
        links.push(n.get_links());
    }
    proof {
        assert(pairs.len() == nodes@.dom().len());
        assert forall|i: int| 0 <= i < keys@.len() implies nodes@.contains_key(
            #[trigger] keys@[i],
        ) && views(links@[i]@) == nodes@[keys@[i]]@.links by {
            assert(nodes@.contains_key(*pairs[i].0));
        }
        assert forall|i: int, j: int|
            0 <= i < keys@.len() && 0 <= j < keys@.len() && i != j implies keys@[i]
            != keys@[j] by {
            assert(nodes@.contains_key(*pairs[i].0));
            assert(nodes@.contains_key(*pairs[j].0));
            if keys@[i] == keys@[j] {
                assert(pairs[i] == pairs[j]);
            }
        }
        assert forall|k: u32| nodes@.contains_key(k) implies #[trigger] keys@.contains(k) by {
            assert(pairs.contains((&k, &nodes@[k])));
            let i = choose|i: int| 0 <= i < pairs.len() && pairs[i] == (&k, &nodes@[k]);
            assert(keys@[i] == k);
        }
    }
    (keys, links)
}

/// The position of the first text equal to `s`.
fn find_text(texts: &Vec<String>, s: &String) -> (r: Option<usize>)
    ensures
        match r {
            Some(m) => m < texts@.len() && texts@[m as int]@ == s@,
            None => forall|m: int| 0 <= m < texts@.len() ==> texts@[m]@ != s@,
        },
{
    let mut m: usize = 0;
    while m < texts.len()
        invariant
            m <= texts@.len(),
            forall|k: int| 0 <= k < m ==> texts@[k]@ != s@,
        decreases texts@.len() - m,
    {
        if texts[m] == *s {
            return Some(m);
        }
        m = m + 1;
    }
    None
}


/// The positions `row` collected for the links `la` (each from the link
/// at `src`, each link that names a node found at `pos`) are exactly the
/// nodes that a node with those links has an edge to.
proof fn lemma_row_edges(
    g: Map<u32, NodeView>,
    keys: Seq<u32>,
    own: int,
    la: Seq<Seq<char>>,
    row: Seq<usize>,
    src: Seq<int>,
    pos: Seq<int>,
    a: u32,
    m: int,
)
    requires
        g.contains_key(a),
        la == g[a].links,
        0 <= m < keys.len(),
        keys.len() <= usize::MAX,
        0 <= own < keys.len(),
        keys.no_duplicates(),
        forall|k: int| 0 <= k < keys.len() ==> g.contains_key(#[trigger] keys[k]),
        src.len() == row.len(),
        pos.len() == la.len(),
        forall|k: int|
            0 <= k < row.len() ==> #[trigger] row[k] < keys.len() && row[k] != own && 0 <= src[k]
                < la.len() && la[src[k]] == ip_text(keys[row[k] as int]),
        forall|jj: int|
            0 <= jj < la.len() && names_node(g, keys[own], la[jj]) ==> 0 <= #[trigger] pos[jj]
                < row.len() && ip_text(keys[row[pos[jj]] as int]) == la[jj],
    ensures
        edge(g, keys[own], a, keys[m]) <==> row.contains(m as usize),
{
    let o = keys[own];
    if edge(g, o, a, keys[m]) {
        let jj = choose|jj: int| 0 <= jj < la.len() && la[jj] == ip_text(keys[m]);
        assert(names_node(g, o, la[jj]));
        let k = pos[jj];
        lemma_ip_text_injective(keys[row[k] as int], keys[m]);
        assert(keys[row[k] as int] == keys[m]);
        assert(row[k] as int == m);
        assert(row.contains(m as usize));
    }
    if row.contains(m as usize) {
        let k = choose|k: int| 0 <= k < row.len() && row[k] == m as usize;
        assert(row[k] as int == m);
        assert(m != own);
        assert(keys[m] != o);
        assert(la[src[k]] == ip_text(keys[m]));
        assert(edge(g, o, a, keys[m]));
    }
}

/// The positions that the links `ls` of a node lead to (the links that
/// name a node other than the one at `own`), and the first link that names
/// none.
fn resolve_links(
    Ghost(g): Ghost<Map<u32, NodeView>>,
    keys: &Vec<u32>,
    texts: &Vec<String>,
    own: usize,
    ls: &Vec<String>,
) -> (r: (Vec<usize>, Option<String>))
    requires
        keys@.len() == texts@.len(),
        own < keys@.len(),
        keys@.no_duplicates(),
        forall|k: int| 0 <= k < keys@.len() ==> g.contains_key(#[trigger] keys@[k]),
        forall|k: u32| g.contains_key(k) ==> #[trigger] keys@.contains(k),
        forall|k: int| 0 <= k < keys@.len() ==> (#[trigger] texts@[k])@ == ip_text(keys@[k]),
    ensures
        forall|k: int| 0 <= k < r.0@.len() ==> #[trigger] r.0@[k] < keys@.len(),
        forall|a: u32, m: int|
            #![trigger edge(g, keys@[own as int], a, keys@[m])]
            g.contains_key(a) && views(ls@) == g[a].links && 0 <= m < keys@.len() ==> (edge(
                g,
                keys@[own as int],
                a,
                keys@[m],
            ) <==> r.0@.contains(m as usize)),
        match r.1 {
            None => forall|j: int|
                0 <= j < ls@.len() ==> names_node(g, keys@[own as int], #[trigger] ls@[j]@),
            Some(l) => exists|j: int|
                0 <= j < ls@.len() && !names_node(g, keys@[own as int], #[trigger] ls@[j]@)
                    && l@ == ls@[j]@,
        },
{
    let nk = keys.len();
    let ghost o = keys@[own as int];
    let ghost la = views(ls@);
    let ghost n = keys@.len();
    assert(n == nk as int);
    let mut row: Vec<usize> = Vec::new();
    let mut first_bad: Option<String> = None;
    let ghost mut src: Seq<int> = Seq::empty();
    let ghost mut pos: Seq<int> = Seq::empty();
    let ghost mut bad_at: int = 0;
    let mut j: usize = 0;
    while j < ls.len()
        invariant
            n == keys@.len(),
            n == texts@.len(),
            own < n,
            o == keys@[own as int],
            keys@.no_duplicates(),
            la == views(ls@),
            forall|k: int| 0 <= k < n ==> g.contains_key(#[trigger] keys@[k]),
            forall|k: u32| g.contains_key(k) ==> #[trigger] keys@.contains(k),
            forall|k: int| 0 <= k < n ==> (#[trigger] texts@[k])@ == ip_text(keys@[k]),
            j <= ls@.len(),
            src.len() == row@.len(),
            pos.len() == j,
            forall|k: int|
                0 <= k < row@.len() ==> #[trigger] row@[k] < n && row@[k] != own && 0 <= src[k]
                    < j && la[src[k]] == ip_text(keys@[row@[k] as int]),
            forall|jj: int|
                0 <= jj < j && names_node(g, o, la[jj]) ==> 0 <= #[trigger] pos[jj] < row@.len()
                    && ip_text(keys@[row@[pos[jj]] as int]) == la[jj],
            match first_bad {
                None => forall|jj: int| 0 <= jj < j ==> names_node(g, o, #[trigger] la[jj]),
                Some(l) => 0 <= bad_at < j && !names_node(g, o, la[bad_at]) && l@ == la[bad_at],
            },
        decreases ls@.len() - j,
    {
        assert(la[j as int] == ls@[j as int]@);
        let found = find_text(texts, &ls[j]);
        let mut pushed = false;
        if let Some(m) = found {
            if m != own {
                let ghost old_row = row@;
                let ghost old_src = src;
                proof {
                    assert(texts@[m as int]@ == la[j as int]);
                    assert(g.contains_key(keys@[m as int]));
                    assert(keys@[m as int] != o);
                    assert(names_node(g, o, la[j as int]));
                    pos = pos.push(row@.len() as int);
                    src = src.push(j as int);
                }
                row.push(m);
                assert forall|k: int| 0 <= k < row@.len() implies #[trigger] row@[k] < n
                    && row@[k] != own && 0 <= src[k] < j + 1 && la[src[k]] == ip_text(
                    keys@[row@[k] as int],
                ) by {
                    if k < old_row.len() {
                        assert(row@[k] == old_row[k]);
                        assert(src[k] == old_src[k]);
                    }
                }
                pushed = true;
            }
        }
        if !pushed {
            proof {
                assert(!names_node(g, o, la[j as int])) by {
                    if names_node(g, o, la[j as int]) {
                        let b = choose|b: u32|
                            g.contains_key(b) && b != o && ip_text(b) == la[j as int];
                        assert(keys@.contains(b));
                        let y = choose|y: int| 0 <= y < n && keys@[y] == b;
                        assert(texts@[y]@ == ip_text(b));
                        if let Some(m) = found {
                            assert(m == own);
                            lemma_ip_text_injective(b, o);
                        }
                    }
                }
                pos = pos.push(0);
            }
            if first_bad.is_none() {
                proof {
                    bad_at = j as int;
                }
                first_bad = Some(ls[j].clone());
            }
        }
        j = j + 1;
    }
    proof {
        assert forall|jj: int| 0 <= jj < ls@.len() implies la[jj] == #[trigger] ls@[jj]@ by {}
        if first_bad is Some {
            assert(la[bad_at] == ls@[bad_at]@);
        }
        assert forall|a: u32, m: int|
            g.contains_key(a) && views(ls@) == g[a].links && 0 <= m < n implies #[trigger] edge(
            g,
            o,
            a,
            keys@[m],
        ) == row@.contains(m as usize) by {
            lemma_row_edges(g, keys@, own as int, la, row@, src, pos, a, m);
        }
    }
    (row, first_bad)
}

impl DijkstraTable {
    /// Nothing is settled yet; `own` has cost `0` and every other node
    /// has no cost yet.
    spec fn initial(&self) -> bool {
        forall|i: int|
            0 <= i < self.n() ==> !#[trigger] self.done@[i] && self.cost@[i] == (if i
                == self.own as int {
                0
            } else {
                u32::MAX
            })
    }

    /// The table for the nodes of `nodes`, routing from the node whose
    /// address text is `ip`: the positions each node's links lead to, and
    /// for each node the error for its first link that names no node other
    /// than the routing one. An error when no node has the text `ip`.
    fn new(nodes: &HashMap<u32, Node>, ip: &String) -> (r: Result<Self, String>)
        requires
            nodes@.dom().len() < u32::MAX,
        ensures
            match r {
                Ok(t) => {
                    &&& t.wf(node_views(nodes@))
                    &&& t.bad_wf(node_views(nodes@))
                    &&& ip_text(t.own_key()) == ip@
                    &&& t.initial()
                },
                Err(e) => {
                    &&& forall|o: u32| node_views(nodes@).contains_key(o) ==> ip_text(o) != ip@
                    &&& e@ == "Dijkstra table has no remaining nodes"@
                },
            },
    {
        let ghost g = node_views(nodes@);
        let (keys, links) = collect_nodes(nodes);
        let n = keys.len();
        let mut texts: Vec<String> = Vec::new();
        let mut i: usize = 0;
        while i < n
            invariant
                n == keys@.len(),
                i <= n,
                texts@.len() == i,
                forall|k: int| 0 <= k < i ==> (#[trigger] texts@[k])@ == ip_text(keys@[k]),
            decreases n - i,
        {
            texts.push(ip_string(keys[i]));
            i = i + 1;
        }
        let own = match find_text(&texts, ip) {
            Some(own) => own,
            None => {
                proof {
                    assert forall|o: u32| g.contains_key(o) implies ip_text(o) != ip@ by {
                        assert(keys@.contains(o));
                        let y = choose|y: int| 0 <= y < keys@.len() && keys@[y] == o;
                        assert(texts@[y]@ == ip_text(keys@[y]));
                    }
                }
                return Err(String::from_str("Dijkstra table has no remaining nodes"));
            },
        };
        let ghost o = keys@[own as int];
        assert(ip_text(o) == ip@);
        let mut adj: Vec<Vec<usize>> = Vec::new();
        let mut bad: Vec<Option<String>> = Vec::new();
        let mut i: usize = 0;
        while i < n
            invariant
                g == node_views(nodes@),
                g.contains_key(o),
                n == keys@.len(),
                n == links@.len(),
                n == texts@.len(),
                own < n,
                o == keys@[own as int],
                ip_text(o) == ip@,
                keys@.no_duplicates(),
                forall|k: int| 0 <= k < n ==> g.contains_key(#[trigger] keys@[k]),
                forall|k: int| 0 <= k < n ==> views(#[trigger] links@[k]@) == g[keys@[k]].links,
                forall|k: u32| g.contains_key(k) ==> #[trigger] keys@.contains(k),
                forall|k: int| 0 <= k < n ==> (#[trigger] texts@[k])@ == ip_text(keys@[k]),
                i <= n,
                adj@.len() == i,
                bad@.len() == i,
                forall|a: int, j: int|
                    0 <= a < i && 0 <= j < adj@[a]@.len() ==> #[trigger] adj@[a]@[j] < n,
                forall|a: int, m: int|
                    #![trigger edge(g, o, keys@[a], keys@[m])]
                    #![trigger adj@[a]@.contains(m as usize)]
                    0 <= a < i && 0 <= m < n ==> (edge(g, o, keys@[a], keys@[m])
                        <==> adj@[a]@.contains(m as usize)),
                forall|a: int|
                    0 <= a < i ==> match #[trigger] bad@[a] {
                        None => forall|j: int|
                            0 <= j < g[keys@[a]].links.len() ==> names_node(
                                g,
                                o,
                                #[trigger] g[keys@[a]].links[j],
                            ),
                        Some(m) => exists|j: int|
                            #[trigger] bad_link(g, o, keys@[a], j) && m@ == bad_link_error(
                                keys@[a],
                                g[keys@[a]].links[j],
                            ),
                    },
            decreases n - i,
        {
            let ghost a = keys@[i as int];
            let (row, first_link) = resolve_links(Ghost(g), &keys, &texts, own, &links[i]);
            let first_bad = match first_link {
                Some(l) => {
                    let msg = String::from_str("Node '").concat(ip_string(keys[i]).as_str()).concat(
                        "' references '",
                    ).concat(l.as_str()).concat("' as a link but the latter is not a node");
                    proof {
                        let j = choose|j: int|
                            0 <= j < links@[i as int]@.len() && !names_node(
                                g,
                                o,
                                #[trigger] links@[i as int]@[j]@,
                            ) && l@ == links@[i as int]@[j]@;
                        assert(views(links@[i as int]@)[j] == links@[i as int]@[j]@);
                        assert(bad_link(g, o, a, j));
                        assert(msg@ == bad_link_error(a, g[a].links[j]));
                    }
                    Some(msg)
                },
                None => {
                    proof {
                        assert forall|j: int| 0 <= j < g[a].links.len() implies names_node(
                            g,
                            o,
                            #[trigger] g[a].links[j],
                        ) by {
                            assert(views(links@[i as int]@)[j] == links@[i as int]@[j]@);
                        }
                    }
                    None
                },
            };
            adj.push(row);
            bad.push(first_bad);
            i = i + 1;
        }
        let mut cost: Vec<u32> = Vec::new();
        let mut parent: Vec<usize> = Vec::new();
        let mut done: Vec<bool> = Vec::new();
        let mut i: usize = 0;
        while i < n
            invariant
                i <= n,
                own < n,
                cost@.len() == i,
                parent@.len() == i,
                done@.len() == i,
                forall|k: int| 0 <= k < i ==> !#[trigger] done@[k],
                forall|k: int|
                    0 <= k < i ==> #[trigger] cost@[k] == (if k == own as int {
                        0
                    } else {
                        u32::MAX
                    }),
            decreases n - i,
        {
            cost.push(if i == own { 0 } else { u32::MAX });
            parent.push(own);
            done.push(false);
            i = i + 1;
        }
        let ghost bad_v = bad@;
        let ghost keys_v = keys@;
        let t = DijkstraTable { own, keys, adj, cost, parent, done, bad };
        assert(t.bad@ == bad_v && t.keys@ == keys_v && t.own_key() == o);
        assert(t.wf(g));
        assert forall|x: int| 0 <= x < t.n() implies match #[trigger] t.bad@[x] {
            None => forall|j: int|
                0 <= j < g[t.keys@[x]].links.len() ==> names_node(
                    g,
                    t.own_key(),
                    #[trigger] g[t.keys@[x]].links[j],
                ),
            Some(m) => exists|j: int|
                #[trigger] bad_link(g, t.own_key(), t.keys@[x], j) && m@ == bad_link_error(
                    t.keys@[x],
                    g[t.keys@[x]].links[j],
                ),
        } by {
            assert(t.bad@[x] == bad_v[x]);
        }
        assert(t.bad_wf(g));
        Ok(t)
    }
}


impl DijkstraTable {
    /// Settles `cur`: marks it settled and offers each of its neighbours a
    /// cost one past its own, kept where it is lower than the neighbour's.
    fn settle(&mut self, Ghost(g): Ghost<Map<u32, NodeView>>, cur: usize)
        requires
            old(self).wf(g),
            old(self).settled(g),
            old(self).ready(g, cur as int),
        ensures
            final(self).wf(g),
            final(self).settled(g),
            final(self).keys == old(self).keys,
            final(self).own == old(self).own,
            final(self).bad == old(self).bad,
            final(self).done@ == old(self).done@.update(cur as int, true),
            final(self).done@[final(self).own as int],
            final(self).done_set() == old(self).done_set().insert(cur as int),
            final(self).done_set().len() == old(self).done_set().len() + 1,
    {
        let ghost old_t = *self;
        proof {
            old_t.lemma_done_set_bounds(g);
        }
        let ghost o = old_t.own_key();
        let ghost n = old_t.n();
        self.done.set(cur, true);
        assert(self.done_set() =~= old_t.done_set().insert(cur as int));
        let next = self.cost[cur] + 1;
        let mut j: usize = 0;
        while j < self.adj[cur].len()
            invariant
                old_t.wf(g),
                old_t.settled(g),
                old_t.ready(g, cur as int),
                o == old_t.own_key(),
                n == old_t.n(),
                next == old_t.cost@[cur as int] + 1,
                self.own == old_t.own,
                self.keys == old_t.keys,
                self.adj == old_t.adj,
                self.bad == old_t.bad,
                self.done@ == old_t.done@.update(cur as int, true),
                self.cost@.len() == n,
                self.parent@.len() == n,
                j <= self.adj@[cur as int]@.len(),
                forall|x: int|
                    0 <= x < n ==> #[trigger] self.cost@[x] <= old_t.cost@[x] && (self.cost@[x]
                        != old_t.cost@[x] ==> self.cost@[x] == next && self.parent@[x] == cur
                        && !old_t.done@[x] && x != cur as int && old_t.iedge(g, cur as int, x)),
                forall|x: int|
                    0 <= x < n && #[trigger] self.cost@[x] == old_t.cost@[x] ==> self.parent@[x]
                        == old_t.parent@[x],
                forall|k: int|
                    0 <= k < j ==> #[trigger] self.cost@[self.adj@[cur as int]@[k] as int] <= next,
            decreases self.adj@[cur as int]@.len() - j,
        {
            let b = self.adj[cur][j];
            assert(self.adj@[cur as int]@.contains(b));
            assert(old_t.iedge(g, cur as int, b as int));
            if next < self.cost[b] {
                proof {
                    if old_t.done@[b as int] || b == cur {
                        assert(old_t.exact(g, b as int));
                        assert(old_t.exact(g, cur as int));
                        lemma_reach_step(
                            g,
                            o,
                            o,
                            old_t.cost@[cur as int] as nat,
                            old_t.keys@[cur as int],
                            old_t.keys@[b as int],
                        );
                        lemma_exact_le(
                            g,
                            o,
                            o,
                            old_t.keys@[b as int],
                            old_t.cost@[b as int] as nat,
                            next as nat,
                        );
                    }
                }
                self.cost.set(b, next);
                self.parent.set(b, cur);
            }
            j = j + 1;
        }
        proof {
            let t = *self;
            assert(t.wf(g));
            assert(t.done_set() =~= old_t.done_set().insert(cur as int));
            assert(t.done_set().len() == old_t.done_set().len() + 1);
            let d = t.done_set().len();
            assert forall|x: int| 0 <= x < n && #[trigger] t.done@[x] implies t.exact(g, x)
                && t.cost@[x] < d by {
                if x != cur as int {
                    assert(old_t.done@[x]);
                    assert(old_t.exact(g, x));
                }
            }
            assert forall|p: int, x: int|
                0 <= p < n && 0 <= x < n && t.done@[p] && !t.done@[x] && #[trigger] t.iedge(
                    g,
                    p,
                    x,
                ) implies t.cost@[x] <= t.cost@[p] + 1 by {
                assert(t.iedge(g, p, x) == old_t.iedge(g, p, x));
                if p == cur as int {
                    assert(t.adj@[p]@.contains(x as usize));
                    let k = choose|k: int|
                        0 <= k < t.adj@[p]@.len() && t.adj@[p]@[k] == x as usize;
                    assert(t.cost@[t.adj@[cur as int]@[k] as int] <= next);
                } else {
                    assert(old_t.done@[p]);
                    assert(t.cost@[p] == old_t.cost@[p]);
                }
            }
            assert forall|x: int|
                0 <= x < n && x != t.own && #[trigger] t.cost@[x] < u32::MAX implies {
                let p = t.parent@[x] as int;
                &&& 0 <= p < n
                &&& t.done@[p]
                &&& t.iedge(g, p, x)
                &&& t.cost@[x] == t.cost@[p] + 1
            } by {
                if t.cost@[x] != old_t.cost@[x] {
                    assert(t.parent@[x] == cur);
                    assert(old_t.iedge(g, cur as int, x));
                    assert(t.cost@[cur as int] == old_t.cost@[cur as int]);
                } else {
                    let p = old_t.parent@[x] as int;
                    assert(old_t.done@[p]);
                    assert(t.cost@[p] == old_t.cost@[p]);
                }
            }
            assert(t.cost@[t.own as int] == 0) by {
                if t.cost@[t.own as int] != old_t.cost@[t.own as int] {
                    assert(old_t.keys@[t.own as int] == o);
                }
            }
            assert(t.settled(g));
        }
    }

    /// The unsettled node with the lowest cost (the first such); `None`
    /// when every node is settled.
    fn get_closest_node(&self) -> (r: Option<usize>)
        requires
            self.cost@.len() == self.done@.len(),
        ensures
            match r {
                Some(x) => {
                    &&& x < self.done@.len()
                    &&& !self.done@[x as int]
                    &&& forall|y: int|
                        0 <= y < self.done@.len() && !self.done@[y] ==> self.cost@[x as int]
                            <= #[trigger] self.cost@[y]
                },
                None => forall|y: int| 0 <= y < self.done@.len() ==> #[trigger] self.done@[y],
            },
    {
        let mut best: Option<usize> = None;
        let mut i: usize = 0;
        while i < self.done.len()
            invariant
                self.cost@.len() == self.done@.len(),
                i <= self.done@.len(),
                match best {
                    Some(x) => {
                        &&& x < i
                        &&& !self.done@[x as int]
                        &&& forall|y: int|
                            0 <= y < i && !self.done@[y] ==> self.cost@[x as int]
                                <= #[trigger] self.cost@[y]
                    },
                    None => forall|y: int| 0 <= y < i ==> #[trigger] self.done@[y],
                },
            decreases self.done@.len() - i,
        {
            if !self.done[i] {
                match best {
                    Some(x) => {
                        if self.cost[i] < self.cost[x] {
                            best = Some(i);
                        }
                    },
                    None => {
                        best = Some(i);
                    },
                }
            }
            i = i + 1;
        }
        best
    }

    /// The neighbour of the routing node through which the settled node
    /// `x` was reached: the first step of a shortest path to `x`.
    fn calc_next_jump(&self, Ghost(g): Ghost<Map<u32, NodeView>>, x: usize) -> (r: usize)
        requires
            self.wf(g),
            self.settled(g),
            forall|y: int| 0 <= y < self.n() ==> #[trigger] self.done@[y],
            x < self.n(),
            x != self.own,
        ensures
            r < self.n(),
            r != self.own,
            self.cost@[r as int] == 1,
            self.iedge(g, self.own as int, r as int),
            self.cost@[x as int] >= 1,
            reach(
                g,
                self.own_key(),
                self.keys@[r as int],
                (self.cost@[x as int] - 1) as nat,
                self.keys@[x as int],
            ),
            self.parent@[r as int] == self.own,
            exists|k: nat|
                ancestor(self.parent@, x as int, k) == r && forall|i: nat|
                    i < k ==> self.parent@[#[trigger] ancestor(self.parent@, x as int, i)]
                        != self.own,
    {
        let ghost o = self.own_key();
        proof {
            self.lemma_done_set_bounds(g);
            self.lemma_positive_cost(g, x as int);
        }
        let mut c = x;
        let ghost mut k: nat = 0;
        assert(reach(g, o, self.keys@[x as int], 0, self.keys@[x as int]));
        loop
            invariant
                ancestor(self.parent@, x as int, k) == c,
                forall|i: nat|
                    i < k ==> self.parent@[#[trigger] ancestor(self.parent@, x as int, i)]
                        != self.own,
                self.wf(g),
                self.settled(g),
                forall|y: int| 0 <= y < self.n() ==> #[trigger] self.done@[y],
                o == self.own_key(),
                x < self.n(),
                c < self.n(),
                c != self.own,
                1 <= self.cost@[c as int] <= self.cost@[x as int] < u32::MAX,
                reach(
                    g,
                    o,
                    self.keys@[c as int],
                    (self.cost@[x as int] - self.cost@[c as int]) as nat,
                    self.keys@[x as int],
                ),
            decreases self.cost@[c as int],
        {
            let p = self.parent[c];
            if p == self.own {
                return c;
            }
            proof {
                assert(ancestor(self.parent@, x as int, k + 1) == p);
                assert forall|i: nat| i < k + 1 implies self.parent@[#[trigger] ancestor(
                    self.parent@,
                    x as int,
                    i,
                )] != self.own by {
                    if i == k {
                        assert(ancestor(self.parent@, x as int, i) == c);
                    }
                }
                k = k + 1;
            }
            proof {
                self.lemma_positive_cost(g, p as int);
                lemma_reach_prepend(
                    g,
                    o,
                    self.keys@[p as int],
                    self.keys@[c as int],
                    (self.cost@[x as int] - self.cost@[c as int]) as nat,
                    self.keys@[x as int],
                );
            }
            c = p;
        }
    }

    /// The error recorded for a node that can be reached is an error of
    /// the route computation, and no routes can be computed.
    proof fn lemma_bad_link_error(&self, g: Map<u32, NodeView>, ip: Seq<char>, x: int, e: Seq<char>)
        requires
            self.wf(g),
            self.bad_wf(g),
            0 <= x < self.n(),
            self.exact(g, x),
            ip_text(self.own_key()) == ip,
            self.bad@[x] matches Some(m) && m@ == e,
        ensures
            routes_error(g, ip, e),
            !routes_ok(g, ip),
    {
        let o = self.own_key();
        let a = self.keys@[x];
        assert(g.contains_key(o));
        assert(reach(g, o, o, self.cost@[x] as nat, a));
        assert(reaches(g, o, a));
        let j = choose|j: int|
            #[trigger] bad_link(g, o, a, j) && e == bad_link_error(a, g[a].links[j]);
        assert(bad_link(g, o, a, j));
        let o2 = choose|o2: u32| g.contains_key(o2) && ip_text(o2) == ip;
        lemma_ip_text_injective(o2, o);
        assert(exists|a2: u32, j2: int| reaches(g, o, a2) && #[trigger] bad_link(g, o, a2, j2));
        assert(!links_resolve(g, o));
        assert forall|o3: u32| g.contains_key(o3) && ip_text(o3) == ip implies !(links_resolve(
            g,
            o3,
        ) && #[trigger] connected(g, o3)) by {
            lemma_ip_text_injective(o3, o);
        }
    }

    /// A settled node other than the routing node has a positive, finite
    /// cost.
    proof fn lemma_positive_cost(&self, g: Map<u32, NodeView>, x: int)
        requires
            self.wf(g),
            self.settled(g),
            0 <= x < self.n(),
            self.done@[x],
            x != self.own,
        ensures
            1 <= self.cost@[x] < u32::MAX,
    {
        self.lemma_done_set_bounds(g);
        assert(self.exact(g, x));
        if self.cost@[x] == 0 {
            assert(self.keys@[x] == self.own_key());
            assert(self.keys@[self.own as int] == self.keys@[x]);
        }
    }
}


impl DijkstraTable {
    /// The routes from the node whose address text is `ip` to every other
    /// node of `nodes`: for each node, the neighbour to send through and
    /// the number of links of a shortest path (Dijkstra's algorithm, with
    /// every link costing one). An error when no node has the text `ip`,
    /// when a node that can be reached has a link that is not the address
    /// text of another node, or when a node cannot be reached (see
    /// `routes_error`).
    pub fn calc_routes(nodes: &HashMap<u32, Node>, ip: String) -> (r: Result<
        HashMap<u32, (u32, u32)>,
        String,
    >)
        requires
            nodes@.dom().len() < u32::MAX,
        ensures
            r is Ok <==> routes_ok(node_views(nodes@), ip@),
            r matches Ok(t) ==> forall|o: u32|
                node_views(nodes@).contains_key(o) && ip_text(o) == ip@ ==> is_route_table(
                    node_views(nodes@),
                    o,
                    t@,
                ),
            (forall|o: u32| node_views(nodes@).contains_key(o) ==> ip_text(o) != ip@) ==> (r matches Err(
                e,
            ) && e@ == "Dijkstra table has no remaining nodes"@),
            r matches Err(e) ==> routes_error(node_views(nodes@), ip@, e@),
    {
        let ghost g = node_views(nodes@);
        let mut t = match DijkstraTable::new(nodes, &ip) {
            Ok(t) => t,
            Err(e) => {
                assert(!(exists|o: u32| g.contains_key(o) && ip_text(o) == ip@));
                return Err(e);
            },
        };
        let ghost o = t.own_key();
        let mut cur = t.own;
        proof {
            assert(t.initial());
            assert(t.done_set() =~= Set::<int>::empty());
            assert forall|y: int| 0 <= y < t.n() implies !#[trigger] t.done@[y] by {
                assert(t.initial());
            }
            assert forall|y: int| 0 <= y < t.n() && y != t.own as int implies #[trigger] t.cost@[y] == u32::MAX by {
                assert(!t.done@[y]);
            }
            assert(!t.done@[t.own as int]);
            assert(t.cost@[t.own as int] == 0);
            assert(t.settled(g));
            assert(reach(g, o, o, 0, o));
            assert(t.ready(g, cur as int));
        }
        loop
            invariant_except_break
                t.ready(g, cur as int),
            invariant
                g == node_views(nodes@),
                t.wf(g),
                t.settled(g),
                o == t.own_key(),
                ip_text(o) == ip@,
                g.contains_key(o),
                t.bad_wf(g),
                forall|y: int| 0 <= y < t.n() && #[trigger] t.done@[y] ==> t.bad@[y] is None,
            ensures
                forall|y: int| 0 <= y < t.n() ==> #[trigger] t.done@[y],
            decreases t.n() - t.done_set().len(),
        {
            proof {
                t.lemma_done_set_bounds(g);
            }
            if t.bad[cur].is_some() {
                let msg = match &t.bad[cur] {
                    Some(m) => m.clone(),
                    None => String::new(),
                };
                proof {
                    t.lemma_bad_link_error(g, ip@, cur as int, msg@);
                }
                return Err(msg);
            }
            t.settle(Ghost(g), cur);
            proof {
                t.lemma_done_set_bounds(g);
            }
            match t.get_closest_node() {
                None => {
                    break;
                },
                Some(x) => {
                    if t.cost[x] == u32::MAX {
                        proof {
                            if connected(g, o) {
                                assert(g.contains_key(t.keys@[x as int]));
                                let k = choose|k: nat| #[trigger] reach(g, o, o, k, t.keys@[x as int]);
                                t.lemma_frontier(g, k, x as int);
                            }
                            assert forall|o2: u32| g.contains_key(o2) && ip_text(o2) == ip@ implies !#[trigger] connected(g, o2) by {
                                lemma_ip_text_injective(o2, o);
                            }
                            assert forall|a: u32, j: int|
                                reaches(g, o, a) && #[trigger] bad_link(g, o, a, j) implies false by {
                                assert(t.keys@.contains(a));
                                let z = choose|z: int| 0 <= z < t.n() && t.keys@[z] == a;
                                if t.done@[z] {
                                    assert(t.bad@[z] is None);
                                    assert(names_node(g, o, g[t.keys@[z]].links[j]));
                                } else {
                                    let k = choose|k: nat| #[trigger] reach(g, o, o, k, a);
                                    t.lemma_frontier(g, k, z);
                                }
                            }
                            let o3 = choose|o3: u32| g.contains_key(o3) && ip_text(o3) == ip@;
                            lemma_ip_text_injective(o3, o);
                        }
                        return Err(String::from_str("Dijkstra table has no remaining nodes"));
                    }
                    proof {
                        let p = t.parent@[x as int] as int;
                        assert(x != t.own);
                        assert(t.exact(g, p));
                        lemma_reach_step(g, o, o, t.cost@[p] as nat, t.keys@[p], t.keys@[x as int]);
                        if reach(g, o, o, (t.cost@[x as int] - 1) as nat, t.keys@[x as int]) {
                            t.lemma_frontier(g, (t.cost@[x as int] - 1) as nat, x as int);
                        }
                        assert(t.exact(g, x as int));
                    }
                    cur = x;
                },
            }
        }
        let n = t.keys.len();
        let mut table: HashMap<u32, (u32, u32)> = HashMap::new();
        let mut x: usize = 0;
        while x < n
            invariant
                g == node_views(nodes@),
                t.wf(g),
                t.settled(g),
                forall|y: int| 0 <= y < t.n() ==> #[trigger] t.done@[y],
                o == t.own_key(),
                n == t.n(),
                x <= n,
                forall|k: u32|
                    #[trigger] table@.contains_key(k) <==> exists|y: int|
                        0 <= y < x && y != t.own && t.keys@[y] == k,
                forall|a: u32|
                    #[trigger] table@.contains_key(a) ==> {
                        let (nj, c) = table@[a];
                        &&& c >= 1
                        &&& dist_exact(g, o, o, a, c as nat)
                        &&& edge(g, o, o, nj)
                        &&& reach(g, o, nj, (c - 1) as nat, a)
                    },
            decreases n - x,
        {
            if x != t.own {
                let nj = t.calc_next_jump(Ghost(g), x);
                proof {
                    assert(t.done@[x as int]);
                    assert(t.exact(g, x as int));
                }
                table.insert(t.keys[x], (t.keys[nj], t.cost[x]));
            }
            x = x + 1;
        }
        proof {
            assert(table@.dom() =~= g.dom().remove(o)) by {
                assert forall|k: u32| #[trigger] table@.contains_key(k) implies g.dom().remove(o).contains(k) by {
                    let y = choose|y: int| 0 <= y < x && y != t.own && t.keys@[y] == k;
                    assert(g.contains_key(t.keys@[y]));
                    assert(t.keys@[y] != t.keys@[t.own as int]);
                }
                assert forall|k: u32| g.dom().remove(o).contains(k) implies #[trigger] table@.contains_key(k) by {
                    assert(t.keys@.contains(k));
                    let y = choose|y: int| 0 <= y < n && t.keys@[y] == k;
                    assert(y != t.own);
                }
            }
            assert forall|o2: u32| g.contains_key(o2) && ip_text(o2) == ip@ implies is_route_table(g, o2, table@) by {
                lemma_ip_text_injective(o2, o);
            }
            assert(connected(g, o)) by {
                assert forall|k: u32| g.contains_key(k) implies exists|e: nat| #[trigger] reach(g, o, o, e, k) by {
                    assert(t.keys@.contains(k));
                    let y = choose|y: int| 0 <= y < n && t.keys@[y] == k;
                    assert(t.done@[y]);
                    assert(t.exact(g, y));
                    assert(reach(g, o, o, t.cost@[y] as nat, k));
                }
            }
            assert(g.contains_key(o));
            assert(links_resolve(g, o)) by {
                assert forall|a: u32, j: int|
                    g.contains_key(a) && 0 <= j < g[a].links.len() implies names_node(
                    g,
                    o,
                    #[trigger] g[a].links[j],
                ) by {
                    assert(t.keys@.contains(a));
                    let z = choose|z: int| 0 <= z < n && t.keys@[z] == a;
                    assert(t.done@[z]);
                    assert(t.bad@[z] is None);
                    assert(names_node(g, o, g[t.keys@[z]].links[j]));
                }
            }
            assert(routes_ok(g, ip@));
        }
        Ok(table)
    }
}

} // verus!
