//! The player's pointer controls: the selected tool, the hovered and
//! selected cells and nodes, and what a click on the board does.

use vstd::prelude::*;
use crate::hex::{HexCoord, HexTile, HexTileType, hex_distance};
use crate::network::{LinkType, NetworkLink, NetworkNode, Owner, links_connect, spec_links_connect};

verus! {

/// The active cursor mode.
#[derive(Debug, Clone, Copy, PartialEq, Eq, Structural)]
pub enum SelectedTool {
    Inspect,
    BuildCopperLink,
    BuildFiberLink,
}

impl Default for SelectedTool {
    fn default() -> (t: Self)
        ensures
            t == SelectedTool::Inspect,
    {
        SelectedTool::Inspect
    }
}

/// Pointer state: hovered and selected cells, the selected node, the node a
/// link under construction starts from, and the active tool.
#[derive(Debug, Clone, Copy, PartialEq, Eq, Structural)]
pub struct PlayerControls {
    pub hovered_hex: Option<HexCoord>,
    pub selected_hex: Option<HexCoord>,
    pub selected_node: Option<usize>,
    pub link_start_node: Option<usize>,
    pub active_tool: SelectedTool,
}

impl Default for PlayerControls {
    fn default() -> (c: Self)
        ensures
            c.hovered_hex is None,
            c.selected_hex is None,
            c.selected_node is None,
            c.link_start_node is None,
            c.active_tool == SelectedTool::Inspect,
    {
        PlayerControls {
            hovered_hex: None,
            selected_hex: None,
            selected_node: None,
            link_start_node: None,
            active_tool: SelectedTool::Inspect,
        }
    }
}

/// A cable the player asked to lay, to be paid for before it is built.
#[derive(Debug, Clone, Copy, PartialEq, Eq, Structural)]
pub struct LinkRequest {
    pub node_a: usize,
    pub node_b: usize,
    pub link_type: LinkType,
}

/// The first node standing on cell `c`.
pub open spec fn first_node_at(nodes: Seq<NetworkNode>, c: HexCoord) -> Option<int> {
    if exists|i: int| 0 <= i < nodes.len() && (#[trigger] nodes[i]).coord == c {
        Some(
            choose|i: int|
                0 <= i < nodes.len() && (#[trigger] nodes[i]).coord == c && forall|j: int|
                    0 <= j < i ==> (#[trigger] nodes[j]).coord != c,
        )
    } else {
        None
    }
}

/// The index of the first node standing on cell `c`.
pub fn node_at(nodes: &Vec<NetworkNode>, c: HexCoord) -> (r: Option<usize>)
    ensures
        r is None ==> forall|i: int| 0 <= i < nodes.len() ==> (#[trigger] nodes@[i]).coord != c,
        r matches Some(i) ==> i < nodes.len() && nodes@[i as int].coord == c && forall|j: int|
            0 <= j < i ==> (#[trigger] nodes@[j]).coord != c,
{
    let mut i: usize = 0;
    while i < nodes.len()
        invariant
            i <= nodes.len(),
            forall|j: int| 0 <= j < i ==> (#[trigger] nodes@[j]).coord != c,
        decreases nodes.len() - i,
    {
        if nodes[i].coord == c {
            return Some(i);
        }
        i = i + 1;
    }
    None
}

pub open spec fn tool_link_type(t: SelectedTool) -> LinkType {
    if t == SelectedTool::BuildFiberLink {
        LinkType::Fiber
    } else {
        LinkType::Copper
    }
}

/// A new cable may join node `a` to node `b`: they are neighbouring cells
/// and no link joins them yet.
pub open spec fn cable_allowed(nodes: Seq<NetworkNode>, links: Seq<NetworkLink>, a: int, b: int) -> bool {
    &&& 0 <= a < nodes.len()
    &&& 0 <= b < nodes.len()
    &&& hex_distance(nodes[a].coord, nodes[b].coord) == 1
    &&& !spec_links_connect(links, a as usize, b as usize)
}

/// The controls after a click on the hovered cell, and the cable the click
/// asks for: with no cell hovered the selection is cleared; otherwise the
/// cell is selected, and a click on a node inspects it, starts a link from
/// it (player nodes only), or finishes the link started elsewhere, asking
/// for a cable only when the two nodes are adjacent and not yet joined (the
/// link in progress ends either way).
pub open spec fn click_outcome(
    c: PlayerControls,
    nodes: Seq<NetworkNode>,
    links: Seq<NetworkLink>,
    clicked: Option<int>,
) -> (PlayerControls, Option<LinkRequest>) {
    match c.hovered_hex {
        None => (PlayerControls { selected_hex: None, selected_node: None, ..c }, None),
        Some(coord) => {
            let c1 = PlayerControls { selected_hex: Some(coord), ..c };
            match clicked {
                None => (PlayerControls { selected_node: None, ..c1 }, None),
                Some(e) => if c.active_tool == SelectedTool::Inspect {
                    (PlayerControls { selected_node: Some(e as usize), ..c1 }, None)
                } else {
                    match c.link_start_node {
                        Some(start) => if start as int != e {
                            let req = if !cable_allowed(nodes, links, start as int, e) {
                                None
                            } else {
                                Some(
                                    LinkRequest {
                                        node_a: start,
                                        node_b: e as usize,
                                        link_type: tool_link_type(c.active_tool),
                                    },
                                )
                            };
                            (PlayerControls { link_start_node: None, ..c1 }, req)
                        } else {
                            (c1, None)
                        },
                        None => if nodes[e].owner == Owner::Player {
                            (PlayerControls { link_start_node: Some(e as usize), ..c1 }, None)
                        } else {
                            (c1, None)
                        },
                    }
                },
            }
        },
    }
}

/// Applies a left click on the hovered cell (see `click_outcome`).
pub fn handle_click(
    controls: &mut PlayerControls,
    nodes: &Vec<NetworkNode>,
    links: &Vec<NetworkLink>,
) -> (req: Option<LinkRequest>)
    ensures
        old(controls).hovered_hex matches Some(h) ==> ({
            let at = first_node_at(nodes@, h);
            (*final(controls), req) == click_outcome(*old(controls), nodes@, links@, at)
        }),
        old(controls).hovered_hex is None ==> (*final(controls), req) == click_outcome(
            *old(controls),
            nodes@,
            links@,
            None,
        ),
{
    match controls.hovered_hex {
        None => {
            controls.selected_hex = None;
            controls.selected_node = None;
            None
        },
        Some(coord) => {
            controls.selected_hex = Some(coord);
            let clicked = node_at(nodes, coord);
            proof {
                match clicked {
                    Some(i) => {
                        assert(0 <= i < nodes@.len() && nodes@[i as int].coord == coord);
                        let w = choose|k: int|
                            0 <= k < nodes@.len() && (#[trigger] nodes@[k]).coord == coord && forall|j: int|
                                0 <= j < k ==> (#[trigger] nodes@[j]).coord != coord;
                        assert(w == i as int) by {
                            if w < i {
                                assert(nodes@[w].coord != coord);
                            }
                            if i < w {
                                assert(nodes@[i as int].coord != coord);
                            }
                        }
                        assert(first_node_at(nodes@, coord) == Some(i as int));
                    },
                    None => {
                        assert(first_node_at(nodes@, coord) is None);
                    },
                }
            }
            match clicked {
                None => {
                    controls.selected_node = None;
                    None
                },
                Some(e) => {
                    if controls.active_tool == SelectedTool::Inspect {
                        controls.selected_node = Some(e);
                        None
                    } else {
                        let link_type = if controls.active_tool == SelectedTool::BuildFiberLink {
                            LinkType::Fiber
                        } else {
                            LinkType::Copper
                        };
                        match controls.link_start_node {
                            Some(start) => {
                                if start != e {
                                    let allowed = start < nodes.len() && nodes[start].coord.is_adjacent(&nodes[e].coord)
                                        && !links_connect(links, start, e);
                                    controls.link_start_node = None;
                                    if !allowed {
                                        None
                                    } else {
                                        Some(LinkRequest { node_a: start, node_b: e, link_type })
                                    }
                                } else {
                                    None
                                }
                            },
                            None => {
                                if nodes[e].owner == Owner::Player {
                                    controls.link_start_node = Some(e);
                                }
                                None
                            },
                        }
                    }
                },
            }
        },
    }
}

/// A click only asks for a cable between two adjacent nodes that no link
/// joins yet, starting from the node the link was started at, of the kind
/// the tool lays; and it ends the link in progress.
pub proof fn law_click_requests_valid_link(
    c: PlayerControls,
    nodes: Seq<NetworkNode>,
    links: Seq<NetworkLink>,
    clicked: Option<int>,
)
    requires
        clicked matches Some(e) ==> 0 <= e < nodes.len(),
        nodes.len() <= usize::MAX,
    ensures
        ({
            let (c2, req) = click_outcome(c, nodes, links, clicked);
            req matches Some(r) ==> {
                &&& c.link_start_node == Some(r.node_a)
                &&& clicked == Some(r.node_b as int)
                &&& r.node_a != r.node_b
                &&& r.node_a < nodes.len()
                &&& hex_distance(nodes[r.node_a as int].coord, nodes[r.node_b as int].coord) == 1
                &&& !spec_links_connect(links, r.node_a, r.node_b)
                &&& c.active_tool != SelectedTool::Inspect
                &&& r.link_type == tool_link_type(c.active_tool)
                &&& c2.link_start_node is None
            }
        }),
{
}

/// A cable is always asked for when the player finishes a link properly:
/// with a cable tool active, a link started at node `s`, and a click on a
/// different node `e` one step away with no link between the two, the click
/// asks for a cable from `s` to `e` of the tool's kind (fiber for the fiber
/// tool, copper otherwise), whoever owns `e`, and ends the link in progress.
pub proof fn law_click_completes_link(
    c: PlayerControls,
    nodes: Seq<NetworkNode>,
    links: Seq<NetworkLink>,
    s: usize,
    e: int,
)
    requires
        c.hovered_hex is Some,
        c.active_tool != SelectedTool::Inspect,
        c.link_start_node == Some(s),
        0 <= s < nodes.len(),
        0 <= e < nodes.len(),
        s as int != e,
        hex_distance(nodes[s as int].coord, nodes[e].coord) == 1,
        !spec_links_connect(links, s, e as usize),
    ensures
        click_outcome(c, nodes, links, Some(e)).1 == Some(
            LinkRequest {
                node_a: s,
                node_b: e as usize,
                link_type: if c.active_tool == SelectedTool::BuildFiberLink {
                    LinkType::Fiber
                } else {
                    LinkType::Copper
                },
            },
        ),
        click_outcome(c, nodes, links, Some(e)).0.link_start_node is None,
{
}


/// Where a click lands: with no cell under the pointer the selection is
/// cleared; otherwise the hovered cell becomes the selected one, a click on
/// empty ground selects no node, and in inspect mode a click on node `e`
/// selects it. Neither of these asks for a cable, and the tool never
/// changes.
pub proof fn law_click_selects(c: PlayerControls, nodes: Seq<NetworkNode>, links: Seq<NetworkLink>, clicked: Option<int>)
    ensures
        ({
            let (c2, req) = click_outcome(c, nodes, links, clicked);
            &&& c2.active_tool == c.active_tool
            &&& c2.hovered_hex == c.hovered_hex
            &&& c2.selected_hex == c.hovered_hex
            &&& (c.hovered_hex is None ==> c2.selected_node is None && req is None && c2.link_start_node
                == c.link_start_node)
            &&& (c.hovered_hex is Some && clicked is None ==> c2.selected_node is None && req is None
                && c2.link_start_node == c.link_start_node)
            &&& (c.hovered_hex is Some && c.active_tool == SelectedTool::Inspect ==> req is None
                && c2.link_start_node == c.link_start_node && (clicked matches Some(e) ==> c2.selected_node
                == Some(e as usize)))
        }),
{
}


/// With a cable tool and no link in progress, clicking a node of the player
/// starts a link there, and clicking anyone else's node starts nothing;
/// neither asks for a cable.
pub proof fn law_click_starts_link(c: PlayerControls, nodes: Seq<NetworkNode>, links: Seq<NetworkLink>, e: int)
    requires
        c.hovered_hex is Some,
        c.active_tool != SelectedTool::Inspect,
        c.link_start_node is None,
        0 <= e < nodes.len(),
        nodes.len() <= usize::MAX,
    ensures
        click_outcome(c, nodes, links, Some(e)).1 is None,
        click_outcome(c, nodes, links, Some(e)).0.link_start_node == (if nodes[e].owner == Owner::Player {
            Some(e as usize)
        } else {
            None
        }),
{
}


/// A link is only ever started from a node the player owns.
pub proof fn law_link_starts_at_player_node(
    c: PlayerControls,
    nodes: Seq<NetworkNode>,
    links: Seq<NetworkLink>,
    clicked: Option<int>,
)
    requires
        clicked matches Some(e) ==> 0 <= e < nodes.len(),
        nodes.len() <= usize::MAX,
        c.link_start_node matches Some(s) ==> s < nodes.len() && nodes[s as int].owner == Owner::Player,
    ensures
        ({
            let (c2, req) = click_outcome(c, nodes, links, clicked);
            c2.link_start_node matches Some(s) ==> s < nodes.len() && nodes[s as int].owner
                == Owner::Player
        }),
{
}

/// The cell is free land: no node stands on it, and the first tile found
/// there is not water.
pub open spec fn spec_can_place_router(c: HexCoord, nodes: Seq<NetworkNode>, tiles: Seq<HexTile>) -> bool {
    &&& forall|i: int| 0 <= i < nodes.len() ==> (#[trigger] nodes[i]).coord != c
    &&& exists|t: int|
        0 <= t < tiles.len() && (#[trigger] tiles[t]).coord == c && tiles[t].tile_type
            != HexTileType::Water && forall|j: int| 0 <= j < t ==> (#[trigger] tiles[j]).coord != c
}

/// A router goes only on an empty land cell: when it may be bought on `c`,
/// no node of any kind stands there and the board has a tile at `c` that is
/// not water; any node on `c`, or no tile at `c`, forbids it; and an empty
/// cell whose tiles are all land allows it.
pub proof fn law_router_placement(c: HexCoord, nodes: Seq<NetworkNode>, tiles: Seq<HexTile>)
    ensures
        spec_can_place_router(c, nodes, tiles) ==> (forall|i: int|
            0 <= i < nodes.len() ==> (#[trigger] nodes[i]).coord != c) && (exists|t: int|
            0 <= t < tiles.len() && (#[trigger] tiles[t]).coord == c && tiles[t].tile_type
                != HexTileType::Water),
        (exists|i: int| 0 <= i < nodes.len() && (#[trigger] nodes[i]).coord == c) ==> !spec_can_place_router(
            c,
            nodes,
            tiles,
        ),
        (forall|t: int| 0 <= t < tiles.len() ==> (#[trigger] tiles[t]).coord != c) ==> !spec_can_place_router(
            c,
            nodes,
            tiles,
        ),
        ((forall|i: int| 0 <= i < nodes.len() ==> (#[trigger] nodes[i]).coord != c) && (exists|t: int|
            0 <= t < tiles.len() && (#[trigger] tiles[t]).coord == c) && (forall|t: int|
            0 <= t < tiles.len() && (#[trigger] tiles[t]).coord == c ==> tiles[t].tile_type
                != HexTileType::Water)) ==> spec_can_place_router(c, nodes, tiles),
{
    if (forall|i: int| 0 <= i < nodes.len() ==> (#[trigger] nodes[i]).coord != c) && (exists|t: int|
        0 <= t < tiles.len() && (#[trigger] tiles[t]).coord == c) && (forall|t: int|
        0 <= t < tiles.len() && (#[trigger] tiles[t]).coord == c ==> tiles[t].tile_type != HexTileType::Water) {
        let t = choose|t: int| 0 <= t < tiles.len() && (#[trigger] tiles[t]).coord == c;
        lemma_first_tile_at(c, tiles, t);
    }
}

/// Tile `t` lies on `c`, so a first tile on `c` exists.
proof fn lemma_first_tile_at(c: HexCoord, tiles: Seq<HexTile>, t: int)
    requires
        0 <= t < tiles.len(),
        tiles[t].coord == c,
    ensures
        exists|f: int|
            0 <= f < tiles.len() && (#[trigger] tiles[f]).coord == c && forall|j: int|
                0 <= j < f ==> (#[trigger] tiles[j]).coord != c,
    decreases t,
{
    if exists|j: int| 0 <= j < t && (#[trigger] tiles[j]).coord == c {
        let j = choose|j: int| 0 <= j < t && (#[trigger] tiles[j]).coord == c;
        lemma_first_tile_at(c, tiles, j);
    } else {
        assert(tiles[t].coord == c);
    }
}

/// Whether a router may be bought on cell `c`.
pub fn can_place_router(c: HexCoord, nodes: &Vec<NetworkNode>, tiles: &Vec<HexTile>) -> (b: bool)
    ensures
        b == spec_can_place_router(c, nodes@, tiles@),
{
    if node_at(nodes, c).is_some() {
        return false;
    }
    let mut t: usize = 0;
    while t < tiles.len()
        invariant
            t <= tiles.len(),
            forall|i: int| 0 <= i < nodes.len() ==> (#[trigger] nodes@[i]).coord != c,
            forall|j: int| 0 <= j < t ==> (#[trigger] tiles@[j]).coord != c,
        decreases tiles.len() - t,
    {
        if tiles[t].coord == c {
            let land = tiles[t].tile_type != HexTileType::Water;
            proof {
                if !land {
                    assert forall|t2: int|
                        0 <= t2 < tiles.len() && (#[trigger] tiles@[t2]).coord == c && tiles@[t2].tile_type
                            != HexTileType::Water implies !(forall|j: int| 0 <= j < t2 ==> (#[trigger] tiles@[j]).coord != c) by {
                        assert(t2 != t);
                        if t2 > t {
                            assert(tiles@[t as int].coord == c);
                        }
                    }
                }
            }
            return land;
        }
        t = t + 1;
    }
    false
}

/// The address for the next router the player buys: addresses run from 31
/// upwards.
pub fn next_router_ip(seq: u32) -> (ip: u32)
    requires
        seq < u32::MAX,
    ensures
        ip == (if seq == 0 { 31 } else { seq + 1 }),
{
    if seq == 0 {
        31
    } else {
        seq + 1
    }
}

} // verus!
