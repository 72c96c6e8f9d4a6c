use strategy_game::ai::{
    ai_decision_due, ai_main_ip, buyout_options, buyout_targets, connected_to_main,
    expansion_candidates, upgrade_candidate, AI_DECISION_PERIOD,
};
use strategy_game::controls::{
    can_place_router, handle_click, next_router_ip, node_at, LinkRequest, PlayerControls,
    SelectedTool,
};
use strategy_game::eliminations::Eliminations;
use strategy_game::hex::HexCoord;
use strategy_game::network::{LinkType, NetworkLink, NetworkNode, NodeType, Owner};
use strategy_game::rating::{balance_rating, contested_switch, early_buyout, fun_score};
use strategy_game::routing::update_routing_tables;
use strategy_game::setup::setup_initial_map;

#[test]
fn opponents_decide_every_two_seconds() {
    assert_eq!(AI_DECISION_PERIOD, 120);
    assert!(ai_decision_due(0));
    assert!(ai_decision_due(120));
    assert!(ai_decision_due(240));
    assert!(!ai_decision_due(119));
    assert!(!ai_decision_due(121));
}

#[test]
fn opponent_main_addresses() {
    assert_eq!(ai_main_ip(Owner::AI1), 100);
    assert_eq!(ai_main_ip(Owner::AI2), 200);
    assert_eq!(ai_main_ip(Owner::AI3), 300);
    assert_eq!(ai_main_ip(Owner::Player), 0);
    assert_eq!(ai_main_ip(Owner::Neutral), 0);
}

#[test]
fn buyout_targets_skip_self_and_teams_already_out() {
    let mut e = Eliminations::none();
    assert_eq!(buyout_targets(Owner::AI1, e), vec![Owner::Player, Owner::AI2, Owner::AI3]);
    e.eliminate(Owner::AI2);
    assert_eq!(buyout_targets(Owner::AI1, e), vec![Owner::Player, Owner::AI3]);
    assert_eq!(buyout_targets(Owner::AI3, e), vec![Owner::Player, Owner::AI1]);
    e.eliminate(Owner::Player);
    e.eliminate(Owner::AI3);
    assert!(buyout_targets(Owner::AI1, e).is_empty());
}

#[test]
fn upgrade_picks_the_first_wired_router() {
    let map = setup_initial_map();
    let tables = update_routing_tables(&map.nodes, &map.links);
    assert_eq!(upgrade_candidate(Owner::AI1, 100, &map.nodes, &tables), Some(3));
    assert_eq!(upgrade_candidate(Owner::AI2, 200, &map.nodes, &tables), Some(5));
    assert_eq!(upgrade_candidate(Owner::Player, 10, &map.nodes, &tables), Some(1));
    assert_eq!(upgrade_candidate(Owner::Neutral, 0, &map.nodes, &tables), None);
    assert!(connected_to_main(&map.nodes[3], &tables[3], 100));
    assert!(connected_to_main(&map.nodes[2], &tables[2], 100));
    assert!(!connected_to_main(&map.nodes[5], &tables[5], 100));

    // A router cut off from its data center is not upgraded.
    let mut links = map.links.clone();
    links[1].is_active = false;
    let cut = update_routing_tables(&map.nodes, &links);
    assert_eq!(upgrade_candidate(Owner::AI1, 100, &map.nodes, &cut), None);
}

#[test]
fn expansion_pairs_each_node_with_unjoined_cities() {
    let map = setup_initial_map();
    let ps = expansion_candidates(Owner::AI1, &map.nodes, &map.links);
    assert_eq!(
        ps,
        vec![(2, 8), (2, 9), (2, 10), (2, 11), (3, 8), (3, 9), (3, 10), (3, 11)]
    );
    let mut links = map.links.clone();
    links.push(NetworkLink { node_a: 10, node_b: 3, link_type: LinkType::Fiber, is_active: false });
    let ps2 = expansion_candidates(Owner::AI1, &map.nodes, &links);
    assert_eq!(ps2, vec![(2, 8), (2, 9), (2, 10), (2, 11), (3, 8), (3, 9), (3, 11)]);
    assert!(expansion_candidates(Owner::Neutral, &map.nodes, &map.links).is_empty());
}

fn hovering(c: PlayerControls, q: i32, r: i32) -> PlayerControls {
    PlayerControls { hovered_hex: Some(HexCoord::new(q, r)), ..c }
}

#[test]
fn controls_start_in_inspect_mode() {
    let c = PlayerControls::default();
    assert_eq!(c.active_tool, SelectedTool::Inspect);
    assert_eq!(SelectedTool::default(), SelectedTool::Inspect);
    assert_eq!(c.hovered_hex, None);
    assert_eq!(c.selected_hex, None);
    assert_eq!(c.selected_node, None);
    assert_eq!(c.link_start_node, None);
}

#[test]
fn clicks_select_cells_and_inspect_nodes() {
    let map = setup_initial_map();
    // No cell under the pointer: the selection is cleared.
    let mut c = PlayerControls {
        selected_hex: Some(HexCoord::new(1, 1)),
        selected_node: Some(4),
        ..PlayerControls::default()
    };
    assert_eq!(handle_click(&mut c, &map.nodes, &map.links), None);
    assert_eq!(c.selected_hex, None);
    assert_eq!(c.selected_node, None);

    // An empty cell is selected, no node.
    let mut c = hovering(PlayerControls::default(), 1, 1);
    assert_eq!(handle_click(&mut c, &map.nodes, &map.links), None);
    assert_eq!(c.selected_hex, Some(HexCoord::new(1, 1)));
    assert_eq!(c.selected_node, None);

    // Inspecting the central city.
    let mut c = hovering(PlayerControls::default(), 0, 0);
    assert_eq!(handle_click(&mut c, &map.nodes, &map.links), None);
    assert_eq!(c.selected_node, Some(8));
    assert_eq!(node_at(&map.nodes, HexCoord::new(0, 0)), Some(8));
    assert_eq!(node_at(&map.nodes, HexCoord::new(1, 1)), None);
}

#[test]
fn building_a_link_takes_two_clicks() {
    let map = setup_initial_map();
    let mut nodes = map.nodes.clone();
    // A player router next to the small city at (-1, 1) and the large one at (0, -1).
    nodes.push(NetworkNode { ip: 31, coord: HexCoord::new(-1, 0), node_type: NodeType::Router, owner: Owner::Player });
    let mut c = PlayerControls { active_tool: SelectedTool::BuildFiberLink, ..PlayerControls::default() };

    // Starting from an opponent's node does nothing.
    c = hovering(c, 2, -2);
    assert_eq!(handle_click(&mut c, &nodes, &map.links), None);
    assert_eq!(c.link_start_node, None);

    // Start at the new router, then click the neighbouring city.
    c = hovering(c, -1, 0);
    assert_eq!(handle_click(&mut c, &nodes, &map.links), None);
    assert_eq!(c.link_start_node, Some(12));
    // Clicking the start node again keeps the link in progress.
    assert_eq!(handle_click(&mut c, &nodes, &map.links), None);
    assert_eq!(c.link_start_node, Some(12));
    c = hovering(c, -1, 1);
    assert_eq!(
        handle_click(&mut c, &nodes, &map.links),
        Some(LinkRequest { node_a: 12, node_b: 9, link_type: LinkType::Fiber })
    );
    assert_eq!(c.link_start_node, None);
    assert_eq!(c.selected_hex, Some(HexCoord::new(-1, 1)));

    // Finishing on a node already joined asks for nothing and ends the link.
    let mut c = PlayerControls {
        active_tool: SelectedTool::BuildCopperLink,
        link_start_node: Some(0),
        ..PlayerControls::default()
    };
    c = hovering(c, -2, 0);
    assert_eq!(handle_click(&mut c, &nodes, &map.links), None);
    assert_eq!(c.link_start_node, None);

    // Copper tool lays copper.
    let mut c = PlayerControls {
        active_tool: SelectedTool::BuildCopperLink,
        link_start_node: Some(12),
        ..PlayerControls::default()
    };
    c = hovering(c, 0, -1);
    assert_eq!(
        handle_click(&mut c, &nodes, &map.links),
        Some(LinkRequest { node_a: 12, node_b: 11, link_type: LinkType::Copper })
    );
}

#[test]
fn cables_only_join_neighbouring_nodes() {
    let map = setup_initial_map();
    // The player's data center at (-3, 0) and the large city at (0, -1) are
    // three steps apart: no cable, and the link in progress ends.
    let mut c = PlayerControls {
        active_tool: SelectedTool::BuildCopperLink,
        link_start_node: Some(0),
        ..PlayerControls::default()
    };
    c = hovering(c, 0, -1);
    assert_eq!(handle_click(&mut c, &map.nodes, &map.links), None);
    assert_eq!(c.link_start_node, None);
    // Two steps apart: the player's router at (-2, 0) and the centre city.
    let mut c = PlayerControls {
        active_tool: SelectedTool::BuildFiberLink,
        link_start_node: Some(1),
        ..PlayerControls::default()
    };
    c = hovering(c, 0, 0);
    assert_eq!(handle_click(&mut c, &map.nodes, &map.links), None);
    assert_eq!(c.link_start_node, None);

    let o = HexCoord::new(0, 0);
    for (q, r) in [(1, 0), (-1, 0), (0, 1), (0, -1), (1, -1), (-1, 1)] {
        assert!(o.is_adjacent(&HexCoord::new(q, r)));
    }
    for (q, r) in [(0, 0), (1, 1), (-1, -1), (2, 0), (2, -1)] {
        assert!(!o.is_adjacent(&HexCoord::new(q, r)));
    }
    assert!(HexCoord::new(i32::MAX, 0).is_adjacent(&HexCoord::new(i32::MAX - 1, 0)));
    assert!(!HexCoord::new(i32::MIN, 0).is_adjacent(&HexCoord::new(i32::MAX, 0)));
}

#[test]
fn buyout_options_open_with_the_lock() {
    let e = Eliminations::none();
    assert!(buyout_options(0, Owner::AI1, e).is_empty());
    assert!(buyout_options(17999, Owner::AI1, e).is_empty());
    assert_eq!(buyout_options(18000, Owner::AI1, e), vec![Owner::Player, Owner::AI2, Owner::AI3]);
}

#[test]
fn match_ratings() {
    assert!(contested_switch(Owner::Player, Owner::AI1));
    assert!(!contested_switch(Owner::Neutral, Owner::AI1));
    assert!(!contested_switch(Owner::AI2, Owner::Neutral));
    assert!(!contested_switch(Owner::AI3, Owner::AI3));

    assert_eq!(fun_score(0, 0), 55);
    assert_eq!(fun_score(2, 1), 105);
    assert_eq!(fun_score(3, 2), 115);
    assert_eq!(fun_score(5, 3), 80);
    assert_eq!(fun_score(1, 0), 75);

    assert!(early_buyout(&vec![None, Some(17999), None, None]));
    assert!(!early_buyout(&vec![None, Some(18000), Some(20000), None]));
    assert!(!early_buyout(&vec![]));

    assert_eq!(balance_rating(false, false, 1), 100);
    assert_eq!(balance_rating(true, true, 0), 25);
    assert_eq!(balance_rating(false, true, 2), 80);
    assert_eq!(balance_rating(false, false, 0), 85);
}

#[test]
fn routers_go_on_free_land_only() {
    let map = setup_initial_map();
    assert!(can_place_router(HexCoord::new(-1, 0), &map.nodes, &map.tiles));
    assert!(can_place_router(HexCoord::new(1, 1), &map.nodes, &map.tiles));
    // Occupied by a city.
    assert!(!can_place_router(HexCoord::new(0, 0), &map.nodes, &map.tiles));
    // Occupied by the player's data center.
    assert!(!can_place_router(HexCoord::new(-3, 0), &map.nodes, &map.tiles));
    // Water on the rim.
    assert!(!can_place_router(HexCoord::new(-3, 1), &map.nodes, &map.tiles));
    // Off the board.
    assert!(!can_place_router(HexCoord::new(5, 5), &map.nodes, &map.tiles));
    assert_eq!(map.nodes[8].node_type, NodeType::City);
}

#[test]
fn router_addresses_count_up_from_31() {
    assert_eq!(next_router_ip(0), 31);
    assert_eq!(next_router_ip(31), 32);
    assert_eq!(next_router_ip(99), 100);
}
