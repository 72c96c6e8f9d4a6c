//! The network model: owners, node and link kinds, nodes and the links that
//! join them. A link names its two end nodes by their index in the list of
//! nodes it is read together with.

use vstd::prelude::*;
use crate::hex::HexCoord;

verus! {

/// Simulation ticks during which no subnet can be bought out
/// (five minutes at sixty ticks per second).
pub const BUYOUT_LOCK_TICKS: u64 = 18000;

/// The owner of a node or hex tile.
#[derive(Debug, Clone, Copy, PartialEq, Eq, Hash, Structural)]
pub enum Owner {
    Player,
    AI1,
    AI2,
    AI3,
    Neutral,
}

/// The kind of cable between two nodes.
#[derive(Debug, Clone, Copy, PartialEq, Eq, Structural)]
pub enum LinkType {
    Copper,
    Fiber,
    Wireless,
}

/// Node category.
#[derive(Debug, Clone, Copy, PartialEq, Eq, Structural)]
pub enum NodeType {
    Router,
    DataCenter,
    City,
}

/// Packet category.
#[derive(Debug, Clone, Copy, PartialEq, Eq, Structural)]
pub enum PacketType {
    Data,
}

/// The size categories of neutral cities.
#[derive(Debug, Clone, Copy, PartialEq, Eq, Structural)]
pub enum CitySize {
    Small,
    Medium,
    Large,
}

/// A router, data center or city on the board.
#[derive(Debug, Clone, Copy, PartialEq, Eq, Structural)]
pub struct NetworkNode {
    pub ip: u32,
    pub coord: HexCoord,
    pub node_type: NodeType,
    pub owner: Owner,
}

/// A cable between the nodes at indices `node_a` and `node_b`.
#[derive(Debug, Clone, Copy, PartialEq, Eq, Structural)]
pub struct NetworkLink {
    pub node_a: usize,
    pub node_b: usize,
    pub link_type: LinkType,
    pub is_active: bool,
}

pub open spec fn spec_bandwidth_limit(t: LinkType) -> nat {
    match t {
        LinkType::Copper => 5,
        LinkType::Fiber => 25,
        LinkType::Wireless => 10,
    }
}

/// Routing cost of one hop over a cable: faster cables are cheaper.
pub open spec fn spec_route_weight(t: LinkType) -> nat {
    match t {
        LinkType::Fiber => 1,
        LinkType::Wireless => 2,
        LinkType::Copper => 3,
    }
}

/// The IP address of each team's starting main data center.
pub open spec fn spec_main_dc_ip(team: Owner) -> Option<u32> {
    match team {
        Owner::Player => Some(10u32),
        Owner::AI1 => Some(100u32),
        Owner::AI2 => Some(200u32),
        Owner::AI3 => Some(300u32),
        Owner::Neutral => None,
    }
}

impl LinkType {
    /// The maximum number of boxes that can travel on this link simultaneously.
    pub fn bandwidth_limit(&self) -> (n: usize)
        ensures
            n == spec_bandwidth_limit(*self),
    {
        match self {
            LinkType::Copper => 5,
            LinkType::Fiber => 25,
            LinkType::Wireless => 10,
        }
    }

    /// The cost of one routing hop over this kind of cable.
    pub fn route_weight(&self) -> (w: u32)
        ensures
            w == spec_route_weight(*self),
            1 <= w <= 3,
    {
        match self {
            LinkType::Fiber => 1,
            LinkType::Wireless => 2,
            LinkType::Copper => 3,
        }
    }
}

/// The IP address of a team's starting main data center; `None` for
/// neutral.
pub fn main_dc_ip(team: Owner) -> (ip: Option<u32>)
    ensures
        ip == spec_main_dc_ip(team),
{
    match team {
        Owner::Player => Some(10),
        Owner::AI1 => Some(100),
        Owner::AI2 => Some(200),
        Owner::AI3 => Some(300),
        Owner::Neutral => None,
    }
}

/// Whether some link, active or not, joins the two nodes in either
/// direction.
pub open spec fn spec_links_connect(links: Seq<NetworkLink>, a: usize, b: usize) -> bool {
    exists|i: int|
        0 <= i < links.len() && ((#[trigger] links[i]).node_a == a && links[i].node_b == b
            || links[i].node_a == b && links[i].node_b == a)
}

/// Whether some link, active or not, already joins nodes `a` and `b`.
pub fn links_connect(links: &Vec<NetworkLink>, a: usize, b: usize) -> (found: bool)
    ensures
        found == spec_links_connect(links@, a, b),
{
    let mut i: usize = 0;
    while i < links.len()
        invariant
            i <= links.len(),
            forall|j: int|
                0 <= j < i ==> !((#[trigger] links@[j]).node_a == a && links@[j].node_b == b
                    || links@[j].node_a == b && links@[j].node_b == a),
        decreases links.len() - i,
    {
        let l = links[i];
        if (l.node_a == a && l.node_b == b) || (l.node_a == b && l.node_b == a) {
            return true;
        }
        i = i + 1;
    }
    false
}

/// The team a link is drawn for: the owner of its first end unless that is
/// neutral or missing, else the owner of its second end, else neutral.
pub open spec fn spec_link_owner(l: NetworkLink, nodes: Seq<NetworkNode>) -> Owner {
    if l.node_a < nodes.len() && nodes[l.node_a as int].owner != Owner::Neutral {
        nodes[l.node_a as int].owner
    } else if l.node_b < nodes.len() {
        nodes[l.node_b as int].owner
    } else {
        Owner::Neutral
    }
}

/// The team a link is drawn for (see `spec_link_owner`).
pub fn link_owner(l: &NetworkLink, nodes: &Vec<NetworkNode>) -> (o: Owner)
    ensures
        o == spec_link_owner(*l, nodes@),
{
    let mut owner = Owner::Neutral;
    if l.node_a < nodes.len() {
        if nodes[l.node_a].owner != Owner::Neutral {
            owner = nodes[l.node_a].owner;
        }
    }
    if owner == Owner::Neutral {
        if l.node_b < nodes.len() {
            owner = nodes[l.node_b].owner;
        }
    }
    owner
}

} // verus!
