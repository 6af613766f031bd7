use std::collections::HashMap;

use regex::Regex;
use vstd::prelude::*;

use crate::node::routing::ip::{ip_of, ipv4, parse_u8, parse_u8_text};
use crate::node::routing::node::{Node, NodeView};
use crate::text::{
    all_nul, lemma_trim_nul_padding, lines, lines_of, split_char, split_once, split_once_char, split_pieces, trim_nul,
    trim_nul_of, views,
};

verus! {

broadcast use {vstd::string::group_string_axioms, vstd::std_specs::hash::group_hash_axioms};

/// The pattern that the address left of the `-` of a topology line must
/// match: four groups of one to three digits, separated by any character.
pub const IP_PATTERN: &'static str = r"^(\d{1,3}).(\d{1,3}).(\d{1,3}).(\d{1,3})$";

/// The capture groups (the whole match first, then each group; `None`
/// for a group that took no part) that the `regex` crate finds when `text`
/// matches `pattern`; `None` when it does not match or `pattern` does not
/// compile.
pub uninterp spec fn regex_captures(pattern: Seq<char>, text: Seq<char>) -> Option<
    Seq<Option<Seq<char>>>,
>;

/// The texts of optional strings.
pub open spec fn opt_views(v: Seq<Option<String>>) -> Seq<Option<Seq<char>>> {
    v.map_values(
        |o: Option<String>|
            match o {
                Some(s) => Some(s@),
                None => None,
            },
    )
}

/// Compiles `pattern` with `Regex::new` and calls `Regex::captures` on
/// `text`: the result holds the texts of the capture groups, as named by
/// `regex_captures`.
#[verifier::external_body]
fn capture_groups(pattern: &str, text: &str) -> (r: Option<Vec<Option<String>>>)
    ensures
        match regex_captures(pattern@, text@) {
            Some(groups) => r matches Some(v) && opt_views(v@) == groups,
            None => r is None,
        },
{
    match Regex::new(pattern) {
        Ok(re) => re.captures(text).map(
            |caps| caps.iter().map(|g| g.map(|m| m.as_str().to_string())).collect(),
        ),
        Err(_) => None,
    }
}

/// The byte written by the `i`th captured group: `None` when the group
/// took no part or is no decimal byte.
pub open spec fn group_u8(groups: Seq<Option<Seq<char>>>, i: int) -> Option<u8> {
    match groups[i] {
        Some(t) => parse_u8_text(t),
        None => None,
    }
}

/// The byte written by the `i`th group of `groups`.
fn group_byte(groups: &Vec<Option<String>>, i: usize) -> (r: Option<u8>)
    requires
        i < groups.len(),
    ensures
        r == group_u8(opt_views(groups@), i as int),
{
    match &groups[i] {
        Some(t) => parse_u8(t.as_str()),
        None => None,
    }
}

/// The groups of `IP_PATTERN` that `text` matches with.
pub open spec fn ip_pattern_captures(text: Seq<char>) -> Option<Seq<Option<Seq<char>>>> {
    regex_captures(IP_PATTERN@, text)
}

/// The overlay as the controller knows it: its nodes by IPv4 address.
#[derive(Debug)]
pub struct OverlayGraph {
    nodes: HashMap<u32, Node>,
}

/// The nodes of a graph by address.
pub open spec fn node_views(nodes: Map<u32, Node>) -> Map<u32, NodeView> {
    nodes.map_values(|n: Node| n@)
}

impl View for OverlayGraph {
    type V = Map<u32, NodeView>;

    closed spec fn view(&self) -> Map<u32, NodeView> {
        node_views(self.nodes@)
    }
}

impl Default for OverlayGraph {
    fn default() -> (g: Self)
        ensures
            g@ == Map::<u32, NodeView>::empty(),
    {
        let g = Self { nodes: HashMap::new() };
        assert(g@ =~= Map::<u32, NodeView>::empty());
        g
    }
}

/// What reading a topology file gives: the nodes, an error message, or a
/// line whose address does not fit in bytes (on which the reading stops
/// without an answer).
pub enum GraphParse {
    Parsed(Map<u32, NodeView>),
    Invalid(Seq<char>),
    Unparsable,
}

/// The address whose four bytes are written by the four groups after the
/// whole match.
pub open spec fn groups_ip(groups: Seq<Option<Seq<char>>>) -> Option<u32> {
    if groups.len() == 5 && group_u8(groups, 1) is Some && group_u8(groups, 2) is Some
        && group_u8(groups, 3) is Some && group_u8(groups, 4) is Some {
        Some(
            ip_of(
                group_u8(groups, 1)->0,
                group_u8(groups, 2)->0,
                group_u8(groups, 3)->0,
                group_u8(groups, 4)->0,
            ),
        )
    } else {
        None
    }
}

/// The links a topology line gives to a node: its comma separated
/// addresses, without `own`.
pub open spec fn line_links(right: Seq<char>, own: Seq<char>) -> Seq<Seq<char>> {
    split_pieces(right, ',').filter(|p: Seq<char>| p != own)
}

/// What the topology line `left-right` gives, with the capture groups
/// that the address pattern found in `left`: an error when it found none,
/// `None` when a group is not a byte, else an inactive node at that address
/// with the links of `right` other than `own`.
pub open spec fn line_outcome(
    left: Seq<char>,
    right: Seq<char>,
    groups: Option<Seq<Option<Seq<char>>>>,
    own: Seq<char>,
) -> Result<Option<NodeView>, Seq<char>> {
    match groups {
        None => Err("Ip address '"@ + left + "' is in an invalid format"@),
        Some(gs) => match groups_ip(gs) {
            None => Ok(None),
            Some(ip) => Ok(Some(NodeView { active: false, ip, links: line_links(right, own) })),
        },
    }
}

/// Reads the topology lines `ls` into the nodes `acc`: each line
/// `address-link,link,...` gives an inactive node at that address, which
/// replaces any earlier node at the same address.
pub open spec fn parse_graph_lines(
    ls: Seq<Seq<char>>,
    own: Seq<char>,
    acc: Map<u32, NodeView>,
) -> GraphParse
    decreases ls.len(),
{
    if ls.len() == 0 {
        GraphParse::Parsed(acc)
    } else {
        match split_once(ls[0], '-') {
            None => GraphParse::Invalid("File is an invalid format"@),
            Some((left, right)) => match line_outcome(left, right, ip_pattern_captures(left), own) {
                Err(msg) => GraphParse::Invalid(msg),
                Ok(None) => GraphParse::Unparsable,
                Ok(Some(node)) => parse_graph_lines(
                    ls.drop_first(),
                    own,
                    acc.insert(node.ip, node),
                ),
            },
        }
    }
}

/// What the topology file `file` gives for the node `own`.
pub open spec fn parse_graph(file: Seq<char>, own: Seq<char>) -> GraphParse {
    parse_graph_lines(lines(trim_nul(file)), own, Map::empty())
}

/// NUL characters at either end of a topology file, such as a fixed-size
/// receive buffer leaves, change nothing of what the file gives.
pub proof fn law_graph_file_nul_padding(
    pre: Seq<char>,
    file: Seq<char>,
    post: Seq<char>,
    own: Seq<char>,
)
    requires
        all_nul(pre),
        all_nul(post),
    ensures
        parse_graph(pre + file + post, own) == parse_graph(file, own),
{
    lemma_trim_nul_padding(pre, file, post);
}

/// The outcome of reading a topology file.
enum GraphLines {
    Parsed(OverlayGraph),
    Invalid(String),
    Unparsable,
}

impl OverlayGraph {
    /// The node that the topology line `left-right` gives, with the
    /// capture groups that the address pattern found in `left` (see
    /// `line_outcome`).
    pub fn node_of_line(
        left: &String,
        right: &String,
        groups: Option<Vec<Option<String>>>,
        own_ip: &String,
    ) -> (r: Result<Option<Node>, String>)
        ensures
            match line_outcome(
                left@,
                right@,
                match groups {
                    Some(v) => Some(opt_views(v@)),
                    None => None,
                },
                own_ip@,
            ) {
                Err(msg) => r matches Err(e) && e@ == msg,
                Ok(None) => r matches Ok(None),
                Ok(Some(nv)) => r matches Ok(Some(n)) && n@ == nv,
            },
    {
        proof {
            reveal_strlit("Ip address '");
            reveal_strlit("' is in an invalid format");
        }
        let groups = match groups {
            Some(groups) => groups,
            None => {
                let msg = String::from_str("Ip address '").concat(left.as_str()).concat(
                    "' is in an invalid format",
                );
                return Err(msg);
            },
        };
        let pieces = split_char(right.as_str(), ',');
        let mut links: Vec<String> = Vec::new();
        let ghost pred = |p: Seq<char>| p != own_ip@;
        let mut j: usize = 0;
        assert(views(pieces@).take(0).filter(pred) =~= Seq::<Seq<char>>::empty());
        while j < pieces.len()
            invariant
                j <= pieces.len(),
                pred == (|p: Seq<char>| p != own_ip@),
                views(links@) == views(pieces@).take(j as int).filter(pred),
            decreases pieces.len() - j,
        {
            reveal_with_fuel(Seq::<_>::filter, 1);
            assert(views(pieces@).take(j + 1).drop_last() =~= views(pieces@).take(j as int));
            assert(views(pieces@)[j as int] == pieces@[j as int]@);
            if *own_ip != pieces[j] {
                let ghost before = links@;
                links.push(pieces[j].clone());
                assert(views(links@) =~= views(before).push(pieces@[j as int]@));
            }
            j = j + 1;
        }
        assert(views(pieces@).take(j as int) =~= views(pieces@));
        if groups.len() != 5 {
            return Ok(None);
        }
        let a = match group_byte(&groups, 1) {
            Some(a) => a,
            None => {
                return Ok(None);
            },
        };
        let b = match group_byte(&groups, 2) {
            Some(b) => b,
            None => {
                return Ok(None);
            },
        };
        let c = match group_byte(&groups, 3) {
            Some(c) => c,
            None => {
                return Ok(None);
            },
        };
        let d = match group_byte(&groups, 4) {
            Some(d) => d,
            None => {
                return Ok(None);
            },
        };
        Ok(Some(Node::new(false, ipv4(a, b, c, d), links)))
    }

    /// Reads the topology lines of `file` (NUL characters at either end
    /// ignored) for the node `own_ip`.
    fn parse_graph_lines(file: &str, own_ip: &String) -> (r: GraphLines)
        ensures
            match parse_graph(file@, own_ip@) {
                GraphParse::Parsed(m) => r matches GraphLines::Parsed(g) && g@ == m,
                GraphParse::Invalid(msg) => r matches GraphLines::Invalid(e) && e@ == msg,
                GraphParse::Unparsable => r is Unparsable,
            },
    {
        proof {
            reveal_strlit("Ip address '");
            reveal_strlit("' is in an invalid format");
        }
        let trimmed = trim_nul_of(file);
        let ls = lines_of(trimmed.as_str());
        let mut o_graph = OverlayGraph::default();
        let mut idx: usize = 0;
        assert(views(ls@).skip(0) =~= views(ls@));
        while idx < ls.len()
            invariant
                idx <= ls.len(),
                views(ls@) == lines(trim_nul(file@)),
                parse_graph_lines(views(ls@).skip(idx as int), own_ip@, o_graph@) == parse_graph(
                    file@,
                    own_ip@,
                ),
            decreases ls.len() - idx,
        {
            let ghost rest = views(ls@).skip(idx as int);
            assert(rest[0] == ls@[idx as int]@);
            assert(rest.drop_first() =~= views(ls@).skip(idx + 1));
            let (left, right) = match split_once_char(ls[idx].as_str(), '-') {
                Some(val) => val,
                None => {
                    return GraphLines::Invalid(String::from_str("File is an invalid format"));
                },
            };
            let groups = capture_groups(IP_PATTERN, left.as_str());
            let node = match Self::node_of_line(&left, &right, groups, own_ip) {
                Ok(Some(node)) => node,
                Ok(None) => {
                    return GraphLines::Unparsable;
                },
                Err(msg) => {
                    return GraphLines::Invalid(msg);
                },
            };
            o_graph.add_node(node);
            idx = idx + 1;
        }
        assert(views(ls@).skip(idx as int).len() == 0);
        GraphLines::Parsed(o_graph)
    }

    /// Reads the overlay from the topology file `file`, for the node
    /// `own_ip`: each line `address-link,link,...` gives an inactive node at
    /// that address, with the links other than `own_ip`; a later line for
    /// the same address replaces an earlier one. An error when a line has
    /// no `-` or its address does not match `IP_PATTERN`.
    pub fn parse_graph_file(file: String, own_ip: String) -> (r: Result<Self, String>)
        requires
            !(parse_graph(file@, own_ip@) is Unparsable),
        ensures
            match parse_graph(file@, own_ip@) {
                GraphParse::Parsed(m) => r matches Ok(g) && g@ == m,
                GraphParse::Invalid(msg) => r matches Err(e) && e@ == msg,
                GraphParse::Unparsable => false,
            },
    {
        match Self::parse_graph_lines(file.as_str(), &own_ip) {
            GraphLines::Parsed(g) => Ok(g),
            GraphLines::Invalid(e) => Err(e),
            GraphLines::Unparsable => {
                assert(false);
                Err(String::new())
            },
        }
    }

    /// As `parse_graph_file`, for any file: `None` when a line's address
    /// matches `IP_PATTERN` but one of its groups is not a byte.
    pub fn try_parse_graph_file(file: String, own_ip: String) -> (r: Option<Result<Self, String>>)
        ensures
            match parse_graph(file@, own_ip@) {
                GraphParse::Parsed(m) => r matches Some(Ok(g)) && g@ == m,
                GraphParse::Invalid(msg) => r matches Some(Err(e)) && e@ == msg,
                GraphParse::Unparsable => r is None,
            },
    {
        match Self::parse_graph_lines(file.as_str(), &own_ip) {
            GraphLines::Parsed(g) => Some(Ok(g)),
            GraphLines::Invalid(e) => Some(Err(e)),
            GraphLines::Unparsable => None,
        }
    }

    /// Puts `node` into the graph at its address, replacing any node there.
    pub fn add_node(&mut self, node: Node)
        ensures
            final(self)@ == old(self)@.insert(node@.ip, node@),
    {
        let ip = node.get_ip();
        self.nodes.insert(ip, node);
        assert(self@ =~= old(self)@.insert(ip, node@));
    }

    /// The nodes of the graph by address.
    pub fn get_nodes(&self) -> (nodes: HashMap<u32, Node>)
        ensures
            node_views(nodes@) == self@,
    {
        self.nodes.clone()
    }
}

} // verus!
