//! Traffic towards the cities: which data boxes are sent each tick, how
//! many a link can carry, and the latency and capacity that decide a
//! city's dominance.

use vstd::prelude::*;
use crate::network::{
    LinkType, NetworkLink, NetworkNode, NodeType, Owner, main_dc_ip, spec_bandwidth_limit,
    spec_main_dc_ip,
};
use crate::table::{RoutingTable, opt_get};

verus! {

/// One value per playing team.
#[derive(Debug, Clone, Copy, PartialEq, Eq, Structural)]
pub struct PerTeam<T> {
    pub player: T,
    pub ai1: T,
    pub ai2: T,
    pub ai3: T,
}

/// The node at the other end of `l` from node `c`, if `l` touches `c`
/// (the `node_b` end is taken when both ends are `c`).
pub open spec fn other_end(l: NetworkLink, c: int) -> Option<int> {
    if l.node_a == c {
        Some(l.node_b as int)
    } else if l.node_b == c {
        Some(l.node_a as int)
    } else {
        None
    }
}

fn other_end_exec(l: &NetworkLink, c: usize) -> (o: Option<usize>)
    ensures
        o matches Some(x) ==> other_end(*l, c as int) == Some(x as int),
        o is None ==> other_end(*l, c as int) is None,
{
    if l.node_a == c {
        Some(l.node_b)
    } else if l.node_b == c {
        Some(l.node_a)
    } else {
        None
    }
}

// ---------------------------------------------------------------------
// Data boxes
// ---------------------------------------------------------------------

/// A data box to send along `link` from `from_node` to `to_node`.
#[derive(Debug, Clone, Copy, PartialEq, Eq, Structural)]
pub struct PacketSpawn {
    pub link: usize,
    pub from_node: usize,
    pub to_node: usize,
    pub src_ip: u32,
    pub dst_ip: u32,
}

/// The path cost from node `o` back to its team's main data center: the
/// cost in its table, zero if it is that data center, otherwise none.
pub open spec fn sender_latency(nodes: Seq<NetworkNode>, tables: Seq<RoutingTable>, o: int) -> Option<u32> {
    match spec_main_dc_ip(nodes[o].owner) {
        None => None,
        Some(dc) => if tables[o].costs().dom().contains(dc) {
            Some(tables[o].costs()[dc])
        } else if nodes[o].ip == dc {
            Some(0u32)
        } else {
            None
        },
    }
}

/// Ticks between boxes on an uncongested cable of each kind.
pub open spec fn base_rate(t: LinkType) -> int {
    match t {
        LinkType::Copper => 24,
        LinkType::Wireless => 12,
        LinkType::Fiber => 4,
    }
}

/// Ticks between boxes: the base rate scaled by the latency (at least one).
pub open spec fn spawn_rate(t: LinkType, latency: u32) -> int {
    base_rate(t) * (if latency == 0 { 1 } else { latency as int })
}

/// The sender on link `l` into node `c`, with its latency, if a box could
/// be sent there at all.
pub open spec fn sender(
    nodes: Seq<NetworkNode>,
    tables: Seq<RoutingTable>,
    links: Seq<NetworkLink>,
    c: int,
    l: int,
) -> Option<(int, u32)> {
    if !links[l].is_active {
        None
    } else {
        match other_end(links[l], c) {
            None => None,
            Some(o) => if !(0 <= o < nodes.len()) || nodes[o].owner == Owner::Neutral {
                None
            } else {
                match sender_latency(nodes, tables, o) {
                    None => None,
                    Some(lat) => Some((o, lat)),
                }
            },
        }
    }
}

/// The box sent on link `l` into node `c` at `tick`, if any: boxes only
/// travel towards cities.
pub open spec fn spawn_at(
    tick: u64,
    nodes: Seq<NetworkNode>,
    tables: Seq<RoutingTable>,
    links: Seq<NetworkLink>,
    c: int,
    l: int,
) -> Option<PacketSpawn> {
    if nodes[c].node_type != NodeType::City {
        None
    } else {
        match sender(nodes, tables, links, c, l) {
            None => None,
            Some((o, lat)) => if (tick as int) % spawn_rate(links[l].link_type, lat) == 0 {
                Some(
                    PacketSpawn {
                        link: l as usize,
                        from_node: o as usize,
                        to_node: c as usize,
                        src_ip: nodes[o].ip,
                        dst_ip: nodes[c].ip,
                    },
                )
            } else {
                None
            },
        }
    }
}

pub open spec fn opt_seq<T>(o: Option<T>) -> Seq<T> {
    match o {
        Some(x) => seq![x],
        None => Seq::empty(),
    }
}

/// The boxes into node `c` over the first `j` links.
pub open spec fn spawns_into(
    tick: u64,
    nodes: Seq<NetworkNode>,
    tables: Seq<RoutingTable>,
    links: Seq<NetworkLink>,
    c: int,
    j: int,
) -> Seq<PacketSpawn>
    decreases j,
{
    if j <= 0 {
        Seq::empty()
    } else {
        spawns_into(tick, nodes, tables, links, c, j - 1) + opt_seq(
            spawn_at(tick, nodes, tables, links, c, j - 1),
        )
    }
}

/// The boxes into the first `k` nodes, node by node, link by link.
pub open spec fn spawns_upto(
    tick: u64,
    nodes: Seq<NetworkNode>,
    tables: Seq<RoutingTable>,
    links: Seq<NetworkLink>,
    k: int,
) -> Seq<PacketSpawn>
    decreases k,
{
    if k <= 0 {
        Seq::empty()
    } else {
        spawns_upto(tick, nodes, tables, links, k - 1) + spawns_into(
            tick,
            nodes,
            tables,
            links,
            k - 1,
            links.len() as int,
        )
    }
}

/// Every sending rate into a city fits in 32 bits.
pub open spec fn rates_fit(nodes: Seq<NetworkNode>, tables: Seq<RoutingTable>, links: Seq<NetworkLink>) -> bool {
    forall|c: int, l: int|
        0 <= c < nodes.len() && nodes[c].node_type == NodeType::City && 0 <= l < links.len() && (
        #[trigger] sender(nodes, tables, links, c, l)) is Some ==> spawn_rate(links[l].link_type, (sender(nodes, tables, links, c, l)->0).1) <= u32::MAX
}

fn sender_latency_exec(nodes: &Vec<NetworkNode>, tables: &Vec<RoutingTable>, o: usize) -> (lat: Option<u32>)
    requires
        o < nodes.len(),
        tables.len() == nodes.len(),
    ensures
        lat == sender_latency(nodes@, tables@, o as int),
{
    match main_dc_ip(nodes[o].owner) {
        None => None,
        Some(dc) => {
            match tables[o].cost_to(dc) {
                Some(cost) => Some(cost),
                None => if nodes[o].ip == dc {
                    Some(0)
                } else {
                    None
                },
            }
        },
    }
}

/// The data boxes sent at `tick` towards the cities: into every city, over
/// every active link from a team's node that is wired back to its team's
/// main data center, one box whenever the tick is a multiple of the link's
/// rate scaled by that latency. Other nodes receive none.
pub fn throughput_spawns(
    tick: u64,
    nodes: &Vec<NetworkNode>,
    tables: &Vec<RoutingTable>,
    links: &Vec<NetworkLink>,
) -> (spawns: Vec<PacketSpawn>)
    requires
        tables.len() == nodes.len(),
        rates_fit(nodes@, tables@, links@),
    ensures
        spawns@ == spawns_upto(tick, nodes@, tables@, links@, nodes.len() as int),
{
    let mut spawns: Vec<PacketSpawn> = Vec::new();
    let mut c: usize = 0;
    while c < nodes.len()
        invariant
            c <= nodes.len(),
            tables.len() == nodes.len(),
            rates_fit(nodes@, tables@, links@),
            spawns@ == spawns_upto(tick, nodes@, tables@, links@, c as int),
        decreases nodes.len() - c,
    {
        let ghost before = spawns@;
        let mut l: usize = 0;
        while l < links.len()
            invariant
                c < nodes.len(),
                l <= links.len(),
                tables.len() == nodes.len(),
                rates_fit(nodes@, tables@, links@),
                spawns@ == before + spawns_into(tick, nodes@, tables@, links@, c as int, l as int),
            decreases links.len() - l,
        {
            let link = links[l];
            let ghost here = spawns@;
            let mut sent: Option<PacketSpawn> = None;
            if nodes[c].node_type == NodeType::City && link.is_active {
                if let Some(o) = other_end_exec(&link, c) {
                    if o < nodes.len() && nodes[o].owner != Owner::Neutral {
                        if let Some(lat) = sender_latency_exec(nodes, tables, o) {
                            assert(sender(nodes@, tables@, links@, c as int, l as int) == Some((o as int, lat)));
                            let base: u32 = match link.link_type {
                                LinkType::Copper => 24,
                                LinkType::Wireless => 12,
                                LinkType::Fiber => 4,
                            };
                            let mult: u32 = if lat == 0 {
                                1
                            } else {
                                lat
                            };
                            assert(base * mult == spawn_rate(link.link_type, lat)) by (nonlinear_arith)
                                requires
                                    base == base_rate(link.link_type),
                                    mult == (if lat == 0 { 1 } else { lat as int });
                            let rate: u32 = base * mult;
                            if tick % (rate as u64) == 0 {
                                sent = Some(
                                    PacketSpawn {
                                        link: l,
                                        from_node: o,
                                        to_node: c,
                                        src_ip: nodes[o].ip,
                                        dst_ip: nodes[c].ip,
                                    },
                                );
                            }
                        }
                    }
                }
            }
            assert(opt_seq(sent) == opt_seq(spawn_at(tick, nodes@, tables@, links@, c as int, l as int)));
            if let Some(p) = sent {
                spawns.push(p);
            }
            assert(spawns@ == here + opt_seq(sent));
            assert(spawns_into(tick, nodes@, tables@, links@, c as int, l + 1) == spawns_into(tick, nodes@, tables@, links@, c as int, l as int) + opt_seq(spawn_at(tick, nodes@, tables@, links@, c as int, l as int)));
            assert(spawns@ =~= before + spawns_into(tick, nodes@, tables@, links@, c as int, l + 1));
            l = l + 1;
        }
        assert(spawns@ =~= spawns_upto(tick, nodes@, tables@, links@, c + 1));
        c = c + 1;
    }
    spawns
}

/// A data box travels into a city over an active link from the node at its
/// far end, a team's node wired back to its main data center, at a tick that is a
/// multiple of that link's sending rate; it carries the two nodes'
/// addresses.
pub open spec fn valid_spawn(
    tick: u64,
    nodes: Seq<NetworkNode>,
    tables: Seq<RoutingTable>,
    links: Seq<NetworkLink>,
    p: PacketSpawn,
) -> bool {
    &&& p.link < links.len()
    &&& p.from_node < nodes.len()
    &&& p.to_node < nodes.len()
    &&& nodes[p.to_node as int].node_type == NodeType::City
    &&& links[p.link as int].is_active
    &&& other_end(links[p.link as int], p.to_node as int) == Some(p.from_node as int)
    &&& nodes[p.from_node as int].owner != Owner::Neutral
    &&& sender_latency(nodes, tables, p.from_node as int) matches Some(lat) && (tick as int) % spawn_rate(
        links[p.link as int].link_type,
        lat,
    ) == 0
    &&& p.src_ip == nodes[p.from_node as int].ip
    &&& p.dst_ip == nodes[p.to_node as int].ip
}

proof fn lemma_spawns_into_valid(
    tick: u64,
    nodes: Seq<NetworkNode>,
    tables: Seq<RoutingTable>,
    links: Seq<NetworkLink>,
    c: int,
    j: int,
)
    requires
        0 <= c < nodes.len(),
        j <= links.len(),
        nodes.len() <= usize::MAX,
        links.len() <= usize::MAX,
    ensures
        forall|k: int|
            0 <= k < spawns_into(tick, nodes, tables, links, c, j).len() ==> valid_spawn(
                tick,
                nodes,
                tables,
                links,
                #[trigger] spawns_into(tick, nodes, tables, links, c, j)[k],
            ),
    decreases j,
{
    if j > 0 {
        lemma_spawns_into_valid(tick, nodes, tables, links, c, j - 1);
        let prev = spawns_into(tick, nodes, tables, links, c, j - 1);
        let cur = spawns_into(tick, nodes, tables, links, c, j);
        let last = spawn_at(tick, nodes, tables, links, c, j - 1);
        assert forall|k: int| 0 <= k < cur.len() implies valid_spawn(tick, nodes, tables, links, #[trigger] cur[k]) by {
            if k < prev.len() {
                assert(cur[k] == prev[k]);
            } else {
                assert(last is Some);
                assert(cur[k] == last->0);
            }
        }
    }
}

proof fn lemma_spawns_upto_valid(
    tick: u64,
    nodes: Seq<NetworkNode>,
    tables: Seq<RoutingTable>,
    links: Seq<NetworkLink>,
    k: int,
)
    requires
        k <= nodes.len(),
        nodes.len() <= usize::MAX,
        links.len() <= usize::MAX,
    ensures
        forall|i: int|
            0 <= i < spawns_upto(tick, nodes, tables, links, k).len() ==> valid_spawn(
                tick,
                nodes,
                tables,
                links,
                #[trigger] spawns_upto(tick, nodes, tables, links, k)[i],
            ),
    decreases k,
{
    if k > 0 {
        lemma_spawns_upto_valid(tick, nodes, tables, links, k - 1);
        lemma_spawns_into_valid(tick, nodes, tables, links, k - 1, links.len() as int);
        let prev = spawns_upto(tick, nodes, tables, links, k - 1);
        let more = spawns_into(tick, nodes, tables, links, k - 1, links.len() as int);
        let cur = spawns_upto(tick, nodes, tables, links, k);
        assert forall|i: int| 0 <= i < cur.len() implies valid_spawn(tick, nodes, tables, links, #[trigger] cur[i]) by {
            if i < prev.len() {
                assert(cur[i] == prev[i]);
            } else {
                assert(cur[i] == more[i - prev.len()]);
            }
        }
    }
}

/// Every data box sent in a tick goes into a city, over an active link from a team's
/// node that is wired back to its main data center (never from a neutral
/// node), on the beat of that link's sending rate.
pub proof fn law_spawns_are_valid(
    tick: u64,
    nodes: Seq<NetworkNode>,
    tables: Seq<RoutingTable>,
    links: Seq<NetworkLink>,
)
    requires
        nodes.len() <= usize::MAX,
        links.len() <= usize::MAX,
    ensures
        forall|i: int|
            0 <= i < spawns_upto(tick, nodes, tables, links, nodes.len() as int).len() ==> valid_spawn(
                tick,
                nodes,
                tables,
                links,
                #[trigger] spawns_upto(tick, nodes, tables, links, nodes.len() as int)[i],
            ),
{
    lemma_spawns_upto_valid(tick, nodes, tables, links, nodes.len() as int);
}

proof fn lemma_into_members(
    tick: u64,
    nodes: Seq<NetworkNode>,
    tables: Seq<RoutingTable>,
    links: Seq<NetworkLink>,
    c: int,
    j: int,
)
    requires
        0 <= c < nodes.len(),
        0 <= j <= links.len(),
        nodes.len() <= usize::MAX,
        links.len() <= usize::MAX,
    ensures
        forall|i: int|
            0 <= i < spawns_into(tick, nodes, tables, links, c, j).len() ==> {
                let p = #[trigger] spawns_into(tick, nodes, tables, links, c, j)[i];
                p.to_node == c && p.link < j
            },
        forall|i: int, k: int|
            0 <= i < k < spawns_into(tick, nodes, tables, links, c, j).len() ==> (#[trigger] spawns_into(
                tick,
                nodes,
                tables,
                links,
                c,
                j,
            )[i]).link < (#[trigger] spawns_into(tick, nodes, tables, links, c, j)[k]).link,
    decreases j,
{
    if j > 0 {
        lemma_into_members(tick, nodes, tables, links, c, j - 1);
        let prev = spawns_into(tick, nodes, tables, links, c, j - 1);
        let cur = spawns_into(tick, nodes, tables, links, c, j);
        let last = spawn_at(tick, nodes, tables, links, c, j - 1);
        assert forall|i: int| 0 <= i < cur.len() implies {
            let p = #[trigger] cur[i];
            p.to_node == c && p.link < j
        } by {
            if i < prev.len() {
                assert(cur[i] == prev[i]);
            } else {
                assert(cur[i] == last->0);
            }
        }
        assert forall|i: int, k: int| 0 <= i < k < cur.len() implies (#[trigger] cur[i]).link < (#[trigger] cur[k]).link by {
            if k < prev.len() {
                assert(cur[i] == prev[i] && cur[k] == prev[k]);
            } else {
                assert(cur[i] == prev[i]);
                assert(cur[k] == last->0);
            }
        }
    }
}

proof fn lemma_into_contains(
    tick: u64,
    nodes: Seq<NetworkNode>,
    tables: Seq<RoutingTable>,
    links: Seq<NetworkLink>,
    c: int,
    l: int,
    j: int,
    p: PacketSpawn,
)
    requires
        0 <= l < j,
        spawn_at(tick, nodes, tables, links, c, l) == Some(p),
    ensures
        spawns_into(tick, nodes, tables, links, c, j).contains(p),
    decreases j,
{
    let cur = spawns_into(tick, nodes, tables, links, c, j);
    let prev = spawns_into(tick, nodes, tables, links, c, j - 1);
    if l == j - 1 {
        assert(cur[prev.len() as int] == p);
    } else {
        lemma_into_contains(tick, nodes, tables, links, c, l, j - 1, p);
        let i = choose|i: int| 0 <= i < prev.len() && prev[i] == p;
        assert(cur[i] == prev[i]);
    }
}

proof fn lemma_upto_members(
    tick: u64,
    nodes: Seq<NetworkNode>,
    tables: Seq<RoutingTable>,
    links: Seq<NetworkLink>,
    k: int,
)
    requires
        0 <= k <= nodes.len(),
        nodes.len() <= usize::MAX,
        links.len() <= usize::MAX,
    ensures
        forall|i: int|
            0 <= i < spawns_upto(tick, nodes, tables, links, k).len() ==> (#[trigger] spawns_upto(
                tick,
                nodes,
                tables,
                links,
                k,
            )[i]).to_node < k,
        forall|i: int, m: int|
            0 <= i < m < spawns_upto(tick, nodes, tables, links, k).len() ==> box_before(
                #[trigger] spawns_upto(tick, nodes, tables, links, k)[i],
                #[trigger] spawns_upto(tick, nodes, tables, links, k)[m],
            ),
    decreases k,
{
    if k > 0 {
        lemma_upto_members(tick, nodes, tables, links, k - 1);
        lemma_into_members(tick, nodes, tables, links, k - 1, links.len() as int);
        let prev = spawns_upto(tick, nodes, tables, links, k - 1);
        let more = spawns_into(tick, nodes, tables, links, k - 1, links.len() as int);
        let cur = spawns_upto(tick, nodes, tables, links, k);
        assert forall|i: int| 0 <= i < cur.len() implies (#[trigger] cur[i]).to_node < k by {
            if i < prev.len() {
                assert(cur[i] == prev[i]);
            } else {
                assert(cur[i] == more[i - prev.len()]);
            }
        }
        assert forall|i: int, m: int| 0 <= i < m < cur.len() implies box_before(#[trigger] cur[i], #[trigger] cur[m]) by {
            if m < prev.len() {
                assert(cur[i] == prev[i] && cur[m] == prev[m]);
            } else if i < prev.len() {
                assert(cur[i] == prev[i]);
                assert(cur[m] == more[m - prev.len()]);
            } else {
                assert(cur[i] == more[i - prev.len()]);
                assert(cur[m] == more[m - prev.len()]);
            }
        }
    }
}

proof fn lemma_upto_contains(
    tick: u64,
    nodes: Seq<NetworkNode>,
    tables: Seq<RoutingTable>,
    links: Seq<NetworkLink>,
    c: int,
    k: int,
    p: PacketSpawn,
)
    requires
        0 <= c < k,
        spawns_into(tick, nodes, tables, links, c, links.len() as int).contains(p),
    ensures
        spawns_upto(tick, nodes, tables, links, k).contains(p),
    decreases k,
{
    let cur = spawns_upto(tick, nodes, tables, links, k);
    let prev = spawns_upto(tick, nodes, tables, links, k - 1);
    if c == k - 1 {
        let more = spawns_into(tick, nodes, tables, links, c, links.len() as int);
        let i = choose|i: int| 0 <= i < more.len() && more[i] == p;
        assert(cur[prev.len() + i] == more[i]);
    } else {
        lemma_upto_contains(tick, nodes, tables, links, c, k - 1, p);
        let i = choose|i: int| 0 <= i < prev.len() && prev[i] == p;
        assert(cur[i] == prev[i]);
    }
}

/// Box `a` comes before box `b`: into an earlier node, or into the same
/// node over an earlier link.
pub open spec fn box_before(a: PacketSpawn, b: PacketSpawn) -> bool {
    a.to_node < b.to_node || (a.to_node == b.to_node && a.link < b.link)
}

/// No box is lost: whenever a city `c` is joined by an active link `l` to a
/// team's node `o` whose path cost back to its team's main data center is
/// `lat` (zero for that data center itself), and the tick falls on the
/// link's beat (every 24, 12 or 4 ticks for copper, wireless or fiber,
/// times the cost, at least once), the box from `o` to `c` over `l` is sent;
/// every link into a city sends independently of the others.
pub proof fn law_spawns_complete(
    tick: u64,
    nodes: Seq<NetworkNode>,
    tables: Seq<RoutingTable>,
    links: Seq<NetworkLink>,
    c: int,
    l: int,
    o: int,
    dc: u32,
    lat: u32,
)
    requires
        nodes.len() <= usize::MAX,
        links.len() <= usize::MAX,
        0 <= c < nodes.len(),
        0 <= o < nodes.len(),
        0 <= l < links.len(),
        nodes[c].node_type == NodeType::City,
        links[l].is_active,
        (links[l].node_a == c && links[l].node_b == o) || (links[l].node_a != c && links[l].node_b == c
            && links[l].node_a == o),
        nodes[o].owner != Owner::Neutral,
        spec_main_dc_ip(nodes[o].owner) == Some(dc),
        if tables[o].costs().dom().contains(dc) {
            lat == tables[o].costs()[dc]
        } else {
            nodes[o].ip == dc && lat == 0
        },
        (tick as int) % ((match links[l].link_type {
            LinkType::Copper => 24int,
            LinkType::Wireless => 12int,
            LinkType::Fiber => 4int,
        }) * (if lat == 0 { 1int } else { lat as int })) == 0,
    ensures
        spawns_upto(tick, nodes, tables, links, nodes.len() as int).contains(
            PacketSpawn {
                link: l as usize,
                from_node: o as usize,
                to_node: c as usize,
                src_ip: nodes[o].ip,
                dst_ip: nodes[c].ip,
            },
        ),
{
    let p = PacketSpawn {
        link: l as usize,
        from_node: o as usize,
        to_node: c as usize,
        src_ip: nodes[o].ip,
        dst_ip: nodes[c].ip,
    };
    assert(other_end(links[l], c) == Some(o));
    assert(sender_latency(nodes, tables, o) == Some(lat));
    assert(sender(nodes, tables, links, c, l) == Some((o, lat)));
    assert(spawn_at(tick, nodes, tables, links, c, l) == Some(p));
    lemma_into_contains(tick, nodes, tables, links, c, l, links.len() as int, p);
    lemma_upto_contains(tick, nodes, tables, links, c, nodes.len() as int, p);
}

/// The boxes of a tick come city by city and, for each city, link by link:
/// in strictly increasing (receiving node, link) order, so no (city, link)
/// pair sends twice.
pub proof fn law_spawns_ordered(
    tick: u64,
    nodes: Seq<NetworkNode>,
    tables: Seq<RoutingTable>,
    links: Seq<NetworkLink>,
)
    requires
        nodes.len() <= usize::MAX,
        links.len() <= usize::MAX,
    ensures
        forall|i: int, m: int|
            0 <= i < m < spawns_upto(tick, nodes, tables, links, nodes.len() as int).len() ==> box_before(
                #[trigger] spawns_upto(tick, nodes, tables, links, nodes.len() as int)[i],
                #[trigger] spawns_upto(tick, nodes, tables, links, nodes.len() as int)[m],
            ),
{
    lemma_upto_members(tick, nodes, tables, links, nodes.len() as int);
}


// ---------------------------------------------------------------------
// Link capacity
// ---------------------------------------------------------------------

/// The boxes of `spawns`, in order, that still find room on their link:
/// a box is sent when fewer than its link's bandwidth limit are already on
/// the link (counting `load`, the boxes in flight, and the boxes sent
/// before it), and dropped otherwise.
pub open spec fn boxes_with_room(spawns: Seq<PacketSpawn>, load: Seq<int>, links: Seq<NetworkLink>) -> Seq<PacketSpawn>
    decreases spawns.len(),
{
    if spawns.len() == 0 {
        Seq::empty()
    } else {
        let p = spawns[0];
        if p.link < load.len() && p.link < links.len() && load[p.link as int] < spec_bandwidth_limit(
            links[p.link as int].link_type,
        ) {
            seq![p] + boxes_with_room(spawns.drop_first(), load.update(p.link as int, load[p.link as int] + 1), links)
        } else {
            boxes_with_room(spawns.drop_first(), load, links)
        }
    }
}

/// Keeps the boxes that find room on their link (see `boxes_with_room`), given
/// `in_flight[l]` boxes already travelling on link `l`.
pub fn spawns_with_room(spawns: &Vec<PacketSpawn>, in_flight: &Vec<usize>, links: &Vec<NetworkLink>) -> (sent: Vec<
    PacketSpawn,
>)
    requires
        in_flight.len() == links.len(),
    ensures
        sent@ == boxes_with_room(spawns@, in_flight@.map_values(|x: usize| x as int), links@),
{
    let mut load: Vec<usize> = in_flight.clone();
    let mut sent: Vec<PacketSpawn> = Vec::new();
    let mut i: usize = 0;
    proof {
        assert(spawns@.skip(0) =~= spawns@);
    }
    while i < spawns.len()
        invariant
            i <= spawns.len(),
            load.len() == links.len(),
            boxes_with_room(spawns@, in_flight@.map_values(|x: usize| x as int), links@) == sent@ + boxes_with_room(
                spawns@.skip(i as int),
                load@.map_values(|x: usize| x as int),
                links@,
            ),
        decreases spawns.len() - i,
    {
        let p = spawns[i];
        let ghost rest = spawns@.skip(i as int);
        let ghost lv = load@.map_values(|x: usize| x as int);
        assert(rest[0] == p);
        assert(rest.drop_first() =~= spawns@.skip(i + 1));
        if p.link < load.len() && load[p.link] < links[p.link].link_type.bandwidth_limit() {
            let old_load = load[p.link];
            load.set(p.link, old_load + 1);
            assert(load@.map_values(|x: usize| x as int) =~= lv.update(p.link as int, lv[p.link as int] + 1));
            sent.push(p);
            assert(sent@ + boxes_with_room(spawns@.skip(i + 1), load@.map_values(|x: usize| x as int), links@) =~= (sent@.drop_last() + seq![p]) + boxes_with_room(spawns@.skip(i + 1), load@.map_values(|x: usize| x as int), links@));
            assert(sent@.drop_last() + boxes_with_room(rest, lv, links@) =~= sent@ + boxes_with_room(spawns@.skip(i + 1), load@.map_values(|x: usize| x as int), links@));
        } else {
            assert(boxes_with_room(rest, lv, links@) == boxes_with_room(spawns@.skip(i + 1), lv, links@));
        }
        i = i + 1;
    }
    assert(spawns@.skip(i as int) =~= Seq::<PacketSpawn>::empty());
    assert(sent@ + Seq::<PacketSpawn>::empty() =~= sent@);
    sent
}

/// The number of boxes in `s` on link `l`.
pub open spec fn count_on(s: Seq<PacketSpawn>, l: int) -> int
    decreases s.len(),
{
    if s.len() == 0 {
        0
    } else {
        (if s[0].link as int == l { 1int } else { 0int }) + count_on(s.drop_first(), l)
    }
}

proof fn lemma_room_capacity(spawns: Seq<PacketSpawn>, load: Seq<int>, links: Seq<NetworkLink>, l: int)
    requires
        load.len() == links.len(),
        0 <= l < links.len(),
        load[l] <= spec_bandwidth_limit(links[l].link_type),
    ensures
        load[l] + count_on(boxes_with_room(spawns, load, links), l) <= spec_bandwidth_limit(links[l].link_type),
    decreases spawns.len(),
{
    if spawns.len() > 0 {
        let p = spawns[0];
        if p.link < load.len() && p.link < links.len() && load[p.link as int] < spec_bandwidth_limit(
            links[p.link as int].link_type,
        ) {
            let load2 = load.update(p.link as int, load[p.link as int] + 1);
            lemma_room_capacity(spawns.drop_first(), load2, links, l);
            let rest = boxes_with_room(spawns.drop_first(), load2, links);
            assert((seq![p] + rest).drop_first() =~= rest);
            assert((seq![p] + rest)[0] == p);
        } else {
            lemma_room_capacity(spawns.drop_first(), load, links, l);
        }
    }
}

/// A link never carries more boxes than its bandwidth limit: if it was
/// within its limit before, the boxes in flight on it plus those sent onto
/// it this tick stay within the limit.
pub proof fn law_admission_respects_capacity(
    spawns: Seq<PacketSpawn>,
    load: Seq<int>,
    links: Seq<NetworkLink>,
    l: int,
)
    requires
        load.len() == links.len(),
        0 <= l < links.len(),
        load[l] <= spec_bandwidth_limit(links[l].link_type),
    ensures
        load[l] + count_on(boxes_with_room(spawns, load, links), l) <= spec_bandwidth_limit(links[l].link_type),
{
    lemma_room_capacity(spawns, load, links, l);
}

/// The team a data box is drawn for, read off its source address block.
pub fn packet_owner(src_ip: u32) -> (o: Owner)
    ensures
        o == (if src_ip < 100 {
            Owner::Player
        } else if src_ip < 200 {
            Owner::AI1
        } else if src_ip < 300 {
            Owner::AI2
        } else {
            Owner::AI3
        }),
{
    if src_ip < 100 {
        Owner::Player
    } else if src_ip < 200 {
        Owner::AI1
    } else if src_ip < 300 {
        Owner::AI2
    } else {
        Owner::AI3
    }
}

// ---------------------------------------------------------------------
// City dominance inputs
// ---------------------------------------------------------------------

/// The latency and capacity components of each team's hold on a city.
#[derive(Debug, Clone, Copy, PartialEq, Eq, Structural)]
pub struct DominanceInputs {
    /// Path cost from the team's main data center to the city;
    /// `u32::MAX` when it has none.
    pub path_cost: PerTeam<u32>,
    /// Total capacity of the team's active links into the city.
    pub throughput: PerTeam<u64>,
}

/// The cost recorded for `city_ip` by the last of the first `k` nodes that
/// is `team`'s main data center (a data center of `team` at the team's
/// main address) and has that cost; `u32::MAX` if there is none.
pub open spec fn dc_cost_upto(
    nodes: Seq<NetworkNode>,
    tables: Seq<RoutingTable>,
    city_ip: u32,
    team: Owner,
    k: int,
) -> u32
    decreases k,
{
    if k <= 0 {
        u32::MAX
    } else {
        let i = k - 1;
        if nodes[i].node_type == NodeType::DataCenter && nodes[i].owner == team && spec_main_dc_ip(team)
            == Some(nodes[i].ip) && tables[i].costs().dom().contains(city_ip) {
            tables[i].costs()[city_ip]
        } else {
            dc_cost_upto(nodes, tables, city_ip, team, k - 1)
        }
    }
}

/// Node `i` is `team`'s main data center and knows a path cost to `city_ip`.
pub open spec fn main_dc_knows(
    nodes: Seq<NetworkNode>,
    tables: Seq<RoutingTable>,
    city_ip: u32,
    team: Owner,
    i: int,
) -> bool {
    &&& nodes[i].node_type == NodeType::DataCenter
    &&& nodes[i].owner == team
    &&& spec_main_dc_ip(team) == Some(nodes[i].ip)
    &&& tables[i].costs().dom().contains(city_ip)
}

proof fn lemma_dc_cost_last(
    nodes: Seq<NetworkNode>,
    tables: Seq<RoutingTable>,
    city_ip: u32,
    team: Owner,
    i: int,
    k: int,
)
    requires
        0 <= i < k,
        main_dc_knows(nodes, tables, city_ip, team, i),
        forall|j: int| i < j < k ==> !#[trigger] main_dc_knows(nodes, tables, city_ip, team, j),
    ensures
        dc_cost_upto(nodes, tables, city_ip, team, k) == tables[i].costs()[city_ip],
    decreases k,
{
    if k - 1 != i {
        assert(!main_dc_knows(nodes, tables, city_ip, team, k - 1));
        lemma_dc_cost_last(nodes, tables, city_ip, team, i, k - 1);
    }
}

proof fn lemma_dc_cost_none(nodes: Seq<NetworkNode>, tables: Seq<RoutingTable>, city_ip: u32, team: Owner, k: int)
    requires
        forall|j: int| 0 <= j < k ==> !#[trigger] main_dc_knows(nodes, tables, city_ip, team, j),
    ensures
        dc_cost_upto(nodes, tables, city_ip, team, k) == u32::MAX,
    decreases k,
{
    if k > 0 {
        assert(!main_dc_knows(nodes, tables, city_ip, team, k - 1));
        lemma_dc_cost_none(nodes, tables, city_ip, team, k - 1);
    }
}

/// A team's path cost to a city is the cost its main data center records
/// for the city (the last such data center in the list, should there be
/// several).
pub proof fn law_path_cost_from_main_dc(
    nodes: Seq<NetworkNode>,
    tables: Seq<RoutingTable>,
    city_ip: u32,
    team: Owner,
    i: int,
)
    requires
        0 <= i < nodes.len(),
        main_dc_knows(nodes, tables, city_ip, team, i),
        forall|j: int| i < j < nodes.len() ==> !#[trigger] main_dc_knows(nodes, tables, city_ip, team, j),
    ensures
        dc_cost_upto(nodes, tables, city_ip, team, nodes.len() as int) == tables[i].costs()[city_ip],
{
    lemma_dc_cost_last(nodes, tables, city_ip, team, i, nodes.len() as int);
}

/// With no main data center of the team knowing a route to the city, the
/// team's path cost is `u32::MAX` (no path).
pub proof fn law_no_path_cost(nodes: Seq<NetworkNode>, tables: Seq<RoutingTable>, city_ip: u32, team: Owner)
    requires
        forall|j: int| 0 <= j < nodes.len() ==> !#[trigger] main_dc_knows(nodes, tables, city_ip, team, j),
    ensures
        dc_cost_upto(nodes, tables, city_ip, team, nodes.len() as int) == u32::MAX,
{
    lemma_dc_cost_none(nodes, tables, city_ip, team, nodes.len() as int);
}

/// The capacity of `team`'s active links into node `c` among the first
/// `k` links.
pub open spec fn capacity_upto(
    nodes: Seq<NetworkNode>,
    links: Seq<NetworkLink>,
    c: int,
    team: Owner,
    k: int,
) -> int
    decreases k,
{
    if k <= 0 {
        0
    } else {
        let l = links[k - 1];
        let add = if l.is_active {
            match other_end(l, c) {
                Some(o) => if 0 <= o < nodes.len() && nodes[o].owner == team {
                    spec_bandwidth_limit(l.link_type) as int
                } else {
                    0
                },
                None => 0,
            }
        } else {
            0
        };
        capacity_upto(nodes, links, c, team, k - 1) + add
    }
}

proof fn lemma_capacity_prefix(
    nodes: Seq<NetworkNode>,
    s: Seq<NetworkLink>,
    t: Seq<NetworkLink>,
    c: int,
    team: Owner,
    k: int,
)
    requires
        0 <= k <= s.len(),
        k <= t.len(),
        forall|i: int| 0 <= i < k ==> s[i] == t[i],
    ensures
        capacity_upto(nodes, s, c, team, k) == capacity_upto(nodes, t, c, team, k),
    decreases k,
{
    if k > 0 {
        lemma_capacity_prefix(nodes, s, t, c, team, k - 1);
        assert(s[k - 1] == t[k - 1]);
    }
}

/// Capacity adds up over links: the capacity of `team`'s links into node
/// `c` over two lists of links put together is the sum of the capacities
/// over each list.
pub proof fn law_capacity_additive(
    nodes: Seq<NetworkNode>,
    a: Seq<NetworkLink>,
    b: Seq<NetworkLink>,
    c: int,
    team: Owner,
)
    ensures
        capacity_upto(nodes, a + b, c, team, (a.len() + b.len()) as int) == capacity_upto(
            nodes,
            a,
            c,
            team,
            a.len() as int,
        ) + capacity_upto(nodes, b, c, team, b.len() as int),
    decreases b.len(),
{
    let ab = a + b;
    let n = (a.len() + b.len()) as int;
    if b.len() == 0 {
        assert(ab =~= a);
    } else {
        let b2 = b.drop_last();
        law_capacity_additive(nodes, a, b2, c, team);
        lemma_capacity_prefix(nodes, ab, a + b2, c, team, n - 1);
        lemma_capacity_prefix(nodes, b, b2, c, team, b.len() - 1);
        assert(ab[n - 1] == b[b.len() - 1]);
    }
}

/// One link's capacity into node `c` for `team`: its bandwidth limit (5
/// for copper, 25 for fiber, 10 for wireless) when it is active and its
/// other end is a node of `team`, nothing otherwise. With
/// `law_capacity_additive` this fixes every team's capacity as the sum over
/// its active links into the node.
pub proof fn law_capacity_of_one_link(nodes: Seq<NetworkNode>, l: NetworkLink, c: int, team: Owner)
    ensures
        capacity_upto(nodes, seq![l], c, team, 1) == (if l.is_active && ({
            let o: int = if l.node_a == c {
                l.node_b as int
            } else {
                l.node_a as int
            };
            (l.node_a == c || l.node_b == c) && 0 <= o < nodes.len() && nodes[o].owner == team
        }) {
            match l.link_type {
                LinkType::Copper => 5int,
                LinkType::Fiber => 25int,
                LinkType::Wireless => 10int,
            }
        } else {
            0int
        }),
{
    let s = seq![l];
    assert(s[0] == l);
    assert(capacity_upto(nodes, s, c, team, 0) == 0);
    assert(capacity_upto(nodes, s, c, team, 1) == capacity_upto(nodes, s, c, team, 0) + (if l.is_active {
        match other_end(l, c) {
            Some(o) => if 0 <= o < nodes.len() && nodes[o].owner == team {
                spec_bandwidth_limit(l.link_type) as int
            } else {
                0
            },
            None => 0,
        }
    } else {
        0
    }));
}


proof fn lemma_capacity_bound(nodes: Seq<NetworkNode>, links: Seq<NetworkLink>, c: int, team: Owner, k: int)
    requires
        0 <= k,
    ensures
        0 <= capacity_upto(nodes, links, c, team, k) <= 25 * k,
    decreases k,
{
    if k > 0 {
        lemma_capacity_bound(nodes, links, c, team, k - 1);
    }
}

/// The latency and capacity components of every team's dominance over the
/// city at index `city`.
pub fn dominance_inputs(
    city: usize,
    nodes: &Vec<NetworkNode>,
    tables: &Vec<RoutingTable>,
    links: &Vec<NetworkLink>,
) -> (d: DominanceInputs)
    requires
        city < nodes.len(),
        tables.len() == nodes.len(),
        25 * links.len() <= u64::MAX,
    ensures
        d.path_cost.player == dc_cost_upto(nodes@, tables@, nodes@[city as int].ip, Owner::Player, nodes.len() as int),
        d.path_cost.ai1 == dc_cost_upto(nodes@, tables@, nodes@[city as int].ip, Owner::AI1, nodes.len() as int),
        d.path_cost.ai2 == dc_cost_upto(nodes@, tables@, nodes@[city as int].ip, Owner::AI2, nodes.len() as int),
        d.path_cost.ai3 == dc_cost_upto(nodes@, tables@, nodes@[city as int].ip, Owner::AI3, nodes.len() as int),
        d.throughput.player == capacity_upto(nodes@, links@, city as int, Owner::Player, links.len() as int),
        d.throughput.ai1 == capacity_upto(nodes@, links@, city as int, Owner::AI1, links.len() as int),
        d.throughput.ai2 == capacity_upto(nodes@, links@, city as int, Owner::AI2, links.len() as int),
        d.throughput.ai3 == capacity_upto(nodes@, links@, city as int, Owner::AI3, links.len() as int),
{
    let city_ip = nodes[city].ip;
    let mut cp: u32 = u32::MAX;
    let mut c1: u32 = u32::MAX;
    let mut c2: u32 = u32::MAX;
    let mut c3: u32 = u32::MAX;
    let mut i: usize = 0;
    while i < nodes.len()
        invariant
            i <= nodes.len(),
            tables.len() == nodes.len(),
            cp == dc_cost_upto(nodes@, tables@, city_ip, Owner::Player, i as int),
            c1 == dc_cost_upto(nodes@, tables@, city_ip, Owner::AI1, i as int),
            c2 == dc_cost_upto(nodes@, tables@, city_ip, Owner::AI2, i as int),
            c3 == dc_cost_upto(nodes@, tables@, city_ip, Owner::AI3, i as int),
        decreases nodes.len() - i,
    {
        let node = nodes[i];
        if node.node_type == NodeType::DataCenter {
            let cost = tables[i].cost_to(city_ip);
            if node.owner == Owner::Player && node.ip == 10 {
                if let Some(x) = cost {
                    cp = x;
                }
            }
            if node.owner == Owner::AI1 && node.ip == 100 {
                if let Some(x) = cost {
                    c1 = x;
                }
            }
            if node.owner == Owner::AI2 && node.ip == 200 {
                if let Some(x) = cost {
                    c2 = x;
                }
            }
            if node.owner == Owner::AI3 && node.ip == 300 {
                if let Some(x) = cost {
                    c3 = x;
                }
            }
        }
        i = i + 1;
    }
    let mut tp: u64 = 0;
    let mut t1: u64 = 0;
    let mut t2: u64 = 0;
    let mut t3: u64 = 0;
    let mut l: usize = 0;
    while l < links.len()
        invariant
            l <= links.len(),
            city < nodes.len(),
            25 * links.len() <= u64::MAX,
            tp == capacity_upto(nodes@, links@, city as int, Owner::Player, l as int),
            t1 == capacity_upto(nodes@, links@, city as int, Owner::AI1, l as int),
            t2 == capacity_upto(nodes@, links@, city as int, Owner::AI2, l as int),
            t3 == capacity_upto(nodes@, links@, city as int, Owner::AI3, l as int),
        decreases links.len() - l,
    {
        proof {
            lemma_capacity_bound(nodes@, links@, city as int, Owner::Player, l + 1);
            lemma_capacity_bound(nodes@, links@, city as int, Owner::AI1, l + 1);
            lemma_capacity_bound(nodes@, links@, city as int, Owner::AI2, l + 1);
            lemma_capacity_bound(nodes@, links@, city as int, Owner::AI3, l + 1);
        }
        let link = links[l];
        if link.is_active {
            if let Some(o) = other_end_exec(&link, city) {
                if o < nodes.len() {
                    let bw = link.link_type.bandwidth_limit() as u64;
                    match nodes[o].owner {
                        Owner::Player => tp = tp + bw,
                        Owner::AI1 => t1 = t1 + bw,
                        Owner::AI2 => t2 = t2 + bw,
                        Owner::AI3 => t3 = t3 + bw,
                        Owner::Neutral => {},
                    }
                }
            }
        }
        l = l + 1;
    }
    DominanceInputs {
        path_cost: PerTeam { player: cp, ai1: c1, ai2: c2, ai3: c3 },
        throughput: PerTeam { player: tp, ai1: t1, ai2: t2, ai3: t3 },
    }
}

} // verus!
