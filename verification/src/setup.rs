//! The starting map: a hexagonal board of radius three, each team's main
//! data center with one router wired to it, and four neutral cities in the
//! middle.

use vstd::prelude::*;
use crate::hex::{HexCoord, HexTile, HexTileType, abs_int, hex_distance};
use crate::network::{CitySize, LinkType, NetworkLink, NetworkNode, NodeType, Owner, spec_main_dc_ip};
use crate::routing::distinct_ips;

verus! {

/// A neutral city on the starting map: its node index, size and the
/// bandwidth it pays out per second.
#[derive(Debug, Clone, Copy, PartialEq, Eq, Structural)]
pub struct CitySetup {
    pub node: usize,
    pub size: CitySize,
    pub payout_per_sec: u32,
}

/// Everything the starting map is made of.
pub struct InitialMap {
    pub tiles: Vec<HexTile>,
    pub nodes: Vec<NetworkNode>,
    pub links: Vec<NetworkLink>,
    pub cities: Vec<CitySetup>,
}

/// The cells of the starting board.
pub open spec fn on_start_board(c: HexCoord) -> bool {
    -3 <= c.q <= 3 && -3 <= c.r <= 3 && abs_int(c.q + c.r) <= 3
}

/// The terrain of a starting cell: the central hub, water on the outer
/// boundary ring (the cells three steps from the centre), grass elsewhere.
pub open spec fn start_tile_type(c: HexCoord) -> HexTileType {
    if c.q == 0 && c.r == 0 {
        HexTileType::DataCenterCenter
    } else if hex_distance(c, HexCoord { q: 0, r: 0 }) == 3 {
        HexTileType::Water
    } else {
        HexTileType::Grass
    }
}

/// `a` comes before `b` in column-major order.
pub open spec fn coord_before(a: HexCoord, b: HexCoord) -> bool {
    a.q < b.q || (a.q == b.q && a.r < b.r)
}

pub open spec fn node_at(ip: u32, q: int, r: int, node_type: NodeType, owner: Owner) -> NetworkNode {
    NetworkNode { ip, coord: HexCoord { q: q as i32, r: r as i32 }, node_type, owner }
}

pub open spec fn copper(a: usize, b: usize) -> NetworkLink {
    NetworkLink { node_a: a, node_b: b, link_type: LinkType::Copper, is_active: true }
}

/// The starting nodes, in spawn order.
pub open spec fn start_nodes() -> Seq<NetworkNode> {
    seq![
        node_at(10, -3, 0, NodeType::DataCenter, Owner::Player),
        node_at(20, -2, 0, NodeType::Router, Owner::Player),
        node_at(100, 3, -3, NodeType::DataCenter, Owner::AI1),
        node_at(110, 2, -2, NodeType::Router, Owner::AI1),
        node_at(200, 0, 3, NodeType::DataCenter, Owner::AI2),
        node_at(210, 0, 2, NodeType::Router, Owner::AI2),
        node_at(300, 0, -3, NodeType::DataCenter, Owner::AI3),
        node_at(310, 0, -2, NodeType::Router, Owner::AI3),
        node_at(150, 0, 0, NodeType::City, Owner::Neutral),
        node_at(151, -1, 1, NodeType::City, Owner::Neutral),
        node_at(152, 1, -1, NodeType::City, Owner::Neutral),
        node_at(153, 0, -1, NodeType::City, Owner::Neutral),
    ]
}

/// The starting links: each data center wired to its router by copper.
pub open spec fn start_links() -> Seq<NetworkLink> {
    seq![copper(0, 1), copper(2, 3), copper(4, 5), copper(6, 7)]
}

/// The starting cities.
pub open spec fn start_cities() -> Seq<CitySetup> {
    seq![
        CitySetup { node: 8, size: CitySize::Medium, payout_per_sec: 25 },
        CitySetup { node: 9, size: CitySize::Small, payout_per_sec: 10 },
        CitySetup { node: 10, size: CitySize::Small, payout_per_sec: 10 },
        CitySetup { node: 11, size: CitySize::Large, payout_per_sec: 50 },
    ]
}

fn abs_small(x: i32) -> (y: i32)
    requires
        -10 <= x <= 10,
    ensures
        y == abs_int(x as int),
{
    if x < 0 {
        -x
    } else {
        x
    }
}

/// The tiles of the starting board, one per cell in column-major order.
fn start_tiles() -> (tiles: Vec<HexTile>)
    ensures
        forall|i: int|
            0 <= i < tiles.len() ==> on_start_board((#[trigger] tiles@[i]).coord) && tiles@[i].tile_type
                == start_tile_type(tiles@[i].coord),
        forall|c: HexCoord| #[trigger] on_start_board(c) ==> exists|i: int|
            0 <= i < tiles.len() && (#[trigger] tiles@[i]).coord == c,
        forall|i: int, j: int|
            0 <= i < j < tiles.len() ==> coord_before(tiles@[i].coord, tiles@[j].coord),
{
    let mut tiles: Vec<HexTile> = Vec::new();
    let mut q: i32 = -3;
    while q <= 3
        invariant
            -3 <= q <= 4,
            forall|i: int|
                0 <= i < tiles.len() ==> on_start_board((#[trigger] tiles@[i]).coord)
                    && tiles@[i].tile_type == start_tile_type(tiles@[i].coord) && tiles@[i].coord.q < q,
            forall|c: HexCoord| #[trigger] on_start_board(c) && c.q < q ==> exists|i: int|
                0 <= i < tiles.len() && (#[trigger] tiles@[i]).coord == c,
            forall|i: int, j: int|
                0 <= i < j < tiles.len() ==> coord_before(tiles@[i].coord, tiles@[j].coord),
        decreases 4 - q,
    {
        let mut r: i32 = -3;
        while r <= 3
            invariant
                -3 <= q <= 3,
                -3 <= r <= 4,
                forall|i: int|
                    0 <= i < tiles.len() ==> on_start_board((#[trigger] tiles@[i]).coord)
                        && tiles@[i].tile_type == start_tile_type(tiles@[i].coord) && coord_before(
                        tiles@[i].coord,
                        HexCoord { q, r },
                    ),
                forall|c: HexCoord| #[trigger]
                    on_start_board(c) && coord_before(c, HexCoord { q, r }) ==> exists|i: int|
                        0 <= i < tiles.len() && (#[trigger] tiles@[i]).coord == c,
                forall|i: int, j: int|
                    0 <= i < j < tiles.len() ==> coord_before(tiles@[i].coord, tiles@[j].coord),
            decreases 4 - r,
        {
            let sum: i32 = q + r;
            if abs_small(sum) <= 3 {
                let coord = HexCoord::new(q, r);
                let tile_type = if q == 0 && r == 0 {
                    HexTileType::DataCenterCenter
                } else if abs_small(q) == 3 || abs_small(r) == 3 || abs_small(sum) == 3 {
                    HexTileType::Water
                } else {
                    HexTileType::Grass
                };
                let ghost before = tiles@;
                tiles.push(HexTile { coord, tile_type });
                assert(tiles@[before.len() as int].coord == coord);
                assert forall|c: HexCoord| #[trigger]
                    on_start_board(c) && coord_before(c, HexCoord { q, r: (r + 1) as i32 }) implies exists|i: int|
                        0 <= i < tiles.len() && (#[trigger] tiles@[i]).coord == c by {
                    if c == coord {
                        assert(tiles@[before.len() as int].coord == c);
                    } else {
                        assert(coord_before(c, HexCoord { q, r }));
                        let i = choose|i: int| 0 <= i < before.len() && (#[trigger] before[i]).coord == c;
                        assert(tiles@[i] == before[i]);
                    }
                }
            } else {
                assert forall|c: HexCoord| #[trigger]
                    on_start_board(c) && coord_before(c, HexCoord { q, r: (r + 1) as i32 }) implies exists|i: int|
                        0 <= i < tiles.len() && (#[trigger] tiles@[i]).coord == c by {
                    assert(coord_before(c, HexCoord { q, r }));
                }
            }
            r = r + 1;
        }
        assert forall|c: HexCoord| #[trigger] on_start_board(c) && c.q < q + 1 implies exists|i: int|
            0 <= i < tiles.len() && (#[trigger] tiles@[i]).coord == c by {
            assert(coord_before(c, HexCoord { q, r }));
        }
        q = q + 1;
    }
    tiles
}

/// Builds the starting map: the board's tiles, the starting nodes and
/// links, and the cities with their payouts.
pub fn setup_initial_map() -> (map: InitialMap)
    ensures
        forall|i: int|
            0 <= i < map.tiles.len() ==> on_start_board((#[trigger] map.tiles@[i]).coord)
                && map.tiles@[i].tile_type == start_tile_type(map.tiles@[i].coord),
        forall|c: HexCoord| #[trigger] on_start_board(c) ==> exists|i: int|
            0 <= i < map.tiles.len() && (#[trigger] map.tiles@[i]).coord == c,
        forall|i: int, j: int|
            0 <= i < j < map.tiles.len() ==> coord_before(map.tiles@[i].coord, map.tiles@[j].coord),
        forall|i: int|
            0 <= i < map.tiles.len() ==> ((#[trigger] map.tiles@[i]).tile_type == HexTileType::Water
                <==> hex_distance(map.tiles@[i].coord, HexCoord { q: 0, r: 0 }) == 3),
        map.nodes@ == start_nodes(),
        map.links@ == start_links(),
        map.cities@ == start_cities(),
{
    let tiles = start_tiles();
    let nodes = vec![
        NetworkNode { ip: 10, coord: HexCoord::new(-3, 0), node_type: NodeType::DataCenter, owner: Owner::Player },
        NetworkNode { ip: 20, coord: HexCoord::new(-2, 0), node_type: NodeType::Router, owner: Owner::Player },
        NetworkNode { ip: 100, coord: HexCoord::new(3, -3), node_type: NodeType::DataCenter, owner: Owner::AI1 },
        NetworkNode { ip: 110, coord: HexCoord::new(2, -2), node_type: NodeType::Router, owner: Owner::AI1 },
        NetworkNode { ip: 200, coord: HexCoord::new(0, 3), node_type: NodeType::DataCenter, owner: Owner::AI2 },
        NetworkNode { ip: 210, coord: HexCoord::new(0, 2), node_type: NodeType::Router, owner: Owner::AI2 },
        NetworkNode { ip: 300, coord: HexCoord::new(0, -3), node_type: NodeType::DataCenter, owner: Owner::AI3 },
        NetworkNode { ip: 310, coord: HexCoord::new(0, -2), node_type: NodeType::Router, owner: Owner::AI3 },
        NetworkNode { ip: 150, coord: HexCoord::new(0, 0), node_type: NodeType::City, owner: Owner::Neutral },
        NetworkNode { ip: 151, coord: HexCoord::new(-1, 1), node_type: NodeType::City, owner: Owner::Neutral },
        NetworkNode { ip: 152, coord: HexCoord::new(1, -1), node_type: NodeType::City, owner: Owner::Neutral },
        NetworkNode { ip: 153, coord: HexCoord::new(0, -1), node_type: NodeType::City, owner: Owner::Neutral },
    ];
    let links = vec![
        NetworkLink { node_a: 0, node_b: 1, link_type: LinkType::Copper, is_active: true },
        NetworkLink { node_a: 2, node_b: 3, link_type: LinkType::Copper, is_active: true },
        NetworkLink { node_a: 4, node_b: 5, link_type: LinkType::Copper, is_active: true },
        NetworkLink { node_a: 6, node_b: 7, link_type: LinkType::Copper, is_active: true },
    ];
    let cities = vec![
        CitySetup { node: 8, size: CitySize::Medium, payout_per_sec: 25 },
        CitySetup { node: 9, size: CitySize::Small, payout_per_sec: 10 },
        CitySetup { node: 10, size: CitySize::Small, payout_per_sec: 10 },
        CitySetup { node: 11, size: CitySize::Large, payout_per_sec: 50 },
    ];
    assert(nodes@ =~= start_nodes());
    assert(links@ =~= start_links());
    assert(cities@ =~= start_cities());
    InitialMap { tiles, nodes, links, cities }
}

/// The starting nodes have distinct addresses, and each team starts with a
/// data center at its main address, wired to the team's router: the
/// routing laws that need distinct addresses apply to the starting map.
pub proof fn law_start_map_well_formed()
    ensures
        distinct_ips(start_nodes()),
        forall|t: Owner|
            #![trigger spec_main_dc_ip(t)]
            t != Owner::Neutral ==> exists|i: int|
                0 <= i < start_nodes().len() && #[trigger] start_nodes()[i].owner == t
                    && start_nodes()[i].node_type == NodeType::DataCenter && spec_main_dc_ip(t) == Some(
                    start_nodes()[i].ip,
                ),
        forall|k: int|
            0 <= k < start_links().len() ==> {
                let l = #[trigger] start_links()[k];
                &&& l.node_a < start_nodes().len()
                &&& l.node_b < start_nodes().len()
                &&& start_nodes()[l.node_a as int].owner == start_nodes()[l.node_b as int].owner
            },
{
    let ns = start_nodes();
    assert forall|i: int, j: int|
        0 <= i < ns.len() && 0 <= j < ns.len() && i != j implies #[trigger] ns[i].ip != #[trigger] ns[j].ip by {
        assert(ns[0].ip == 10 && ns[1].ip == 20 && ns[2].ip == 100 && ns[3].ip == 110);
        assert(ns[4].ip == 200 && ns[5].ip == 210 && ns[6].ip == 300 && ns[7].ip == 310);
        assert(ns[8].ip == 150 && ns[9].ip == 151 && ns[10].ip == 152 && ns[11].ip == 153);
    }
    assert forall|t: Owner| #![trigger spec_main_dc_ip(t)] t != Owner::Neutral implies exists|i: int|
        0 <= i < ns.len() && #[trigger] ns[i].owner == t && ns[i].node_type == NodeType::DataCenter
            && spec_main_dc_ip(t) == Some(ns[i].ip) by {
        match t {
            Owner::Player => assert(ns[0].owner == t),
            Owner::AI1 => assert(ns[2].owner == t),
            Owner::AI2 => assert(ns[4].owner == t),
            Owner::AI3 => assert(ns[6].owner == t),
            Owner::Neutral => {},
        }
    }
}

} // verus!
