use strategy_game::eliminations::{buyout_allowed, handle_eliminations, Eliminations};
use strategy_game::hex::HexCoord;
use strategy_game::network::{
    link_owner, links_connect, main_dc_ip, LinkType, NetworkLink, NetworkNode, NodeType, Owner,
    BUYOUT_LOCK_TICKS,
};
use strategy_game::routing::update_routing_tables;
use strategy_game::setup::setup_initial_map;
use strategy_game::table::RoutingTable;
use strategy_game::traffic::{
    dominance_inputs, packet_owner, spawns_with_room, throughput_spawns, PacketSpawn,
};

fn node(ip: u32, q: i32, r: i32, node_type: NodeType, owner: Owner) -> NetworkNode {
    NetworkNode { ip, coord: HexCoord::new(q, r), node_type, owner }
}

fn link(a: usize, b: usize, link_type: LinkType) -> NetworkLink {
    NetworkLink { node_a: a, node_b: b, link_type, is_active: true }
}

/// The duel around one small city: a player and an opponent subnet, each
/// wired to the city.
fn duel() -> (Vec<NetworkNode>, Vec<NetworkLink>) {
    let nodes = vec![
        node(10, -2, 0, NodeType::DataCenter, Owner::Player),
        node(20, -1, 0, NodeType::Router, Owner::Player),
        node(200, 2, 0, NodeType::DataCenter, Owner::AI2),
        node(210, 1, 0, NodeType::Router, Owner::AI2),
        node(150, 0, -1, NodeType::City, Owner::Neutral),
    ];
    let links = vec![
        link(0, 1, LinkType::Copper),
        link(2, 3, LinkType::Copper),
        link(1, 4, LinkType::Copper),
        link(3, 4, LinkType::Fiber),
    ];
    (nodes, links)
}

#[test]
fn test_city_dominance_mechanic() {
    let (nodes, links) = duel();
    let tables = update_routing_tables(&nodes, &links);
    let d = dominance_inputs(4, &nodes, &tables, &links);
    // Player: DC(10) -> Router(20) [3] -> City(150) [3]; one copper link in.
    assert_eq!(d.path_cost.player, 6);
    assert_eq!(d.throughput.player, 5);
    // Opponent: DC(200) -> Router(210) [3] -> City(150) [1]; one fiber link in.
    assert_eq!(d.path_cost.ai2, 4);
    assert_eq!(d.throughput.ai2, 25);
    // Teams without a path or a link into the city.
    assert_eq!(d.path_cost.ai1, u32::MAX);
    assert_eq!(d.path_cost.ai3, u32::MAX);
    assert_eq!(d.throughput.ai1, 0);
    assert_eq!(d.throughput.ai3, 0);

    // Dominance is capacity times (10 / cost); the control shares follow.
    let player_dom = d.throughput.player as f64 * (10.0 / d.path_cost.player as f64);
    let ai_dom = d.throughput.ai2 as f64 * (10.0 / d.path_cost.ai2 as f64);
    assert!(player_dom > 0.0);
    assert!(ai_dom > player_dom);
    let expected_player_pct = 8.333 / (8.333 + 62.5);
    let expected_ai_pct = 62.5 / (8.333 + 62.5);
    assert!((player_dom / (player_dom + ai_dom) - expected_player_pct).abs() < 0.01);
    assert!((ai_dom / (player_dom + ai_dom) - expected_ai_pct).abs() < 0.01);
}

#[test]
fn dominance_ignores_inactive_links_and_other_main_addresses() {
    let (nodes, mut links) = duel();
    links[3].is_active = false;
    let tables = update_routing_tables(&nodes, &links);
    let d = dominance_inputs(4, &nodes, &tables, &links);
    assert_eq!(d.throughput.ai2, 0);
    assert_eq!(d.path_cost.ai2, u32::MAX);
    assert_eq!(d.path_cost.player, 6);

    // A player data center that is not at the main address gives no cost.
    let mut nodes2 = nodes.clone();
    nodes2[0].ip = 11;
    let tables2 = update_routing_tables(&nodes2, &links);
    let d2 = dominance_inputs(4, &nodes2, &tables2, &links);
    assert_eq!(d2.path_cost.player, u32::MAX);
    assert_eq!(d2.throughput.player, 5);
}

#[test]
fn eliminations_start_empty_and_mark_teams() {
    let mut e = Eliminations::none();
    for t in [Owner::Player, Owner::AI1, Owner::AI2, Owner::AI3, Owner::Neutral] {
        assert!(!e.is_eliminated(t));
    }
    e.eliminate(Owner::AI2);
    e.eliminate(Owner::Neutral);
    assert!(e.is_eliminated(Owner::AI2));
    assert!(!e.is_eliminated(Owner::AI1));
    assert!(!e.is_eliminated(Owner::Neutral));
    assert_eq!(e, Eliminations { player: false, ai1: false, ai2: true, ai3: false });
}

#[test]
fn buyout_hands_nodes_back_to_neutral() {
    let map = setup_initial_map();
    let mut nodes = map.nodes.clone();
    let mut e = Eliminations::none();
    e.eliminate(Owner::AI1);
    handle_eliminations(e, &mut nodes);
    assert_eq!(nodes.len(), map.nodes.len());
    for (i, n) in nodes.iter().enumerate() {
        let before = map.nodes[i];
        if before.owner == Owner::AI1 {
            assert_eq!(n.owner, Owner::Neutral);
            assert_eq!((n.ip, n.coord, n.node_type), (before.ip, before.coord, before.node_type));
        } else {
            assert_eq!(*n, before);
        }
    }
    assert_eq!(nodes[2].owner, Owner::Neutral);
    assert_eq!(nodes[3].owner, Owner::Neutral);
    // A second pass changes nothing.
    let again = nodes.clone();
    handle_eliminations(e, &mut nodes);
    assert_eq!(nodes, again);
}

#[test]
fn data_boxes_go_to_cities_at_latency_scaled_rates() {
    let nodes = vec![
        node(10, -2, 0, NodeType::DataCenter, Owner::Player),
        node(20, -1, 0, NodeType::Router, Owner::Player),
        node(150, 0, 0, NodeType::City, Owner::Neutral),
        node(151, -2, 1, NodeType::City, Owner::Neutral),
    ];
    let links = vec![
        link(0, 1, LinkType::Copper),
        link(1, 2, LinkType::Copper),
        link(0, 3, LinkType::Fiber),
    ];
    let tables = update_routing_tables(&nodes, &links);

    // Tick 0: the router (latency 3, copper: every 72 ticks) feeds city 2,
    // the data center itself (latency 0, fiber: every 4 ticks) feeds city 3.
    // Neither the data center nor the router receives a box.
    let s0 = throughput_spawns(0, &nodes, &tables, &links);
    assert_eq!(
        s0,
        vec![
            PacketSpawn { link: 1, from_node: 1, to_node: 2, src_ip: 20, dst_ip: 150 },
            PacketSpawn { link: 2, from_node: 0, to_node: 3, src_ip: 10, dst_ip: 151 },
        ]
    );
    let s4 = throughput_spawns(4, &nodes, &tables, &links);
    assert_eq!(s4, vec![PacketSpawn { link: 2, from_node: 0, to_node: 3, src_ip: 10, dst_ip: 151 }]);
    assert!(throughput_spawns(24, &nodes, &tables, &links).iter().all(|p| p.to_node == 3));
    assert_eq!(throughput_spawns(72, &nodes, &tables, &links).len(), 2);
    assert!(throughput_spawns(1, &nodes, &tables, &links).is_empty());
}

#[test]
fn routers_fed_by_their_data_center_receive_no_boxes() {
    let nodes = vec![
        node(10, -2, 0, NodeType::DataCenter, Owner::Player),
        node(20, -1, 0, NodeType::Router, Owner::Player),
    ];
    let links = vec![link(0, 1, LinkType::Copper)];
    let tables = update_routing_tables(&nodes, &links);
    for tick in [0, 24, 72, 144] {
        assert!(throughput_spawns(tick, &nodes, &tables, &links).is_empty());
    }
}

#[test]
fn boxes_only_go_where_the_link_has_room() {
    let links = vec![link(0, 1, LinkType::Copper), link(0, 2, LinkType::Fiber)];
    let a = PacketSpawn { link: 0, from_node: 1, to_node: 0, src_ip: 20, dst_ip: 150 };
    let b = PacketSpawn { link: 0, from_node: 1, to_node: 0, src_ip: 21, dst_ip: 150 };
    let c = PacketSpawn { link: 1, from_node: 2, to_node: 0, src_ip: 30, dst_ip: 150 };
    let spawns = vec![a, b, c];
    // Copper carries at most 5 boxes: with 4 in flight only one more fits.
    assert_eq!(spawns_with_room(&spawns, &vec![4, 0], &links), vec![a, c]);
    assert_eq!(spawns_with_room(&spawns, &vec![5, 25], &links), vec![]);
    assert_eq!(spawns_with_room(&spawns, &vec![0, 24], &links), vec![a, b, c]);
    assert_eq!(spawns_with_room(&spawns, &vec![9, 0], &links), vec![c]);
    // A box on a link that does not exist is dropped.
    let d = PacketSpawn { link: 7, from_node: 2, to_node: 0, src_ip: 30, dst_ip: 150 };
    assert_eq!(spawns_with_room(&vec![d], &vec![0, 0], &links), vec![]);
}

#[test]
fn buyouts_wait_for_the_safety_lock() {
    assert!(!buyout_allowed(0));
    assert!(!buyout_allowed(BUYOUT_LOCK_TICKS - 1));
    assert!(buyout_allowed(BUYOUT_LOCK_TICKS));
    assert!(buyout_allowed(BUYOUT_LOCK_TICKS + 5000));
    assert_eq!(BUYOUT_LOCK_TICKS, 18000);
}

#[test]
fn data_boxes_need_an_active_link_and_a_wired_team_sender() {
    let nodes = vec![
        node(10, -2, 0, NodeType::DataCenter, Owner::Player),
        node(20, -1, 0, NodeType::Router, Owner::Player),
        node(150, 0, 0, NodeType::City, Owner::Neutral),
        node(30, 1, 0, NodeType::Router, Owner::Player),
    ];
    let links = vec![
        NetworkLink { node_a: 0, node_b: 1, link_type: LinkType::Fiber, is_active: false },
        link(2, 3, LinkType::Fiber),
    ];
    let tables = update_routing_tables(&nodes, &links);
    // The only active link joins a neutral city and a router that is not
    // wired to the main data center: no sender anywhere.
    assert!(throughput_spawns(0, &nodes, &tables, &links).is_empty());

    // Wiring the router's side to the data center makes the city receive.
    let links2 = vec![link(0, 3, LinkType::Fiber), link(2, 3, LinkType::Fiber)];
    let tables2 = update_routing_tables(&nodes, &links2);
    let s = throughput_spawns(0, &nodes, &tables2, &links2);
    assert!(s.contains(&PacketSpawn { link: 1, from_node: 3, to_node: 2, src_ip: 30, dst_ip: 150 }));
    assert!(!s.iter().any(|p| p.from_node == 2));
    assert!(s.iter().all(|p| p.to_node == 2));
    // Fiber base rate 4 times latency 1 from the router.
    assert!(throughput_spawns(4, &nodes, &tables2, &links2)
        .contains(&PacketSpawn { link: 1, from_node: 3, to_node: 2, src_ip: 30, dst_ip: 150 }));
    assert!(!throughput_spawns(2, &nodes, &tables2, &links2)
        .iter()
        .any(|p| p.to_node == 2));
}

#[test]
fn packet_colours_follow_address_blocks() {
    assert_eq!(packet_owner(0), Owner::Player);
    assert_eq!(packet_owner(10), Owner::Player);
    assert_eq!(packet_owner(99), Owner::Player);
    assert_eq!(packet_owner(100), Owner::AI1);
    assert_eq!(packet_owner(199), Owner::AI1);
    assert_eq!(packet_owner(250), Owner::AI2);
    assert_eq!(packet_owner(300), Owner::AI3);
    assert_eq!(packet_owner(5000), Owner::AI3);
}

#[test]
fn link_kinds_and_main_addresses() {
    assert_eq!(LinkType::Copper.bandwidth_limit(), 5);
    assert_eq!(LinkType::Fiber.bandwidth_limit(), 25);
    assert_eq!(LinkType::Wireless.bandwidth_limit(), 10);
    assert_eq!(LinkType::Fiber.route_weight(), 1);
    assert_eq!(LinkType::Wireless.route_weight(), 2);
    assert_eq!(LinkType::Copper.route_weight(), 3);
    assert_eq!(main_dc_ip(Owner::Player), Some(10));
    assert_eq!(main_dc_ip(Owner::AI1), Some(100));
    assert_eq!(main_dc_ip(Owner::AI2), Some(200));
    assert_eq!(main_dc_ip(Owner::AI3), Some(300));
    assert_eq!(main_dc_ip(Owner::Neutral), None);
}

#[test]
fn links_and_their_owners() {
    let map = setup_initial_map();
    assert!(links_connect(&map.links, 0, 1));
    assert!(links_connect(&map.links, 1, 0));
    assert!(!links_connect(&map.links, 0, 2));
    assert_eq!(link_owner(&map.links[0], &map.nodes), Owner::Player);
    assert_eq!(link_owner(&link(8, 3, LinkType::Fiber), &map.nodes), Owner::AI1);
    assert_eq!(link_owner(&link(8, 9, LinkType::Fiber), &map.nodes), Owner::Neutral);
    assert_eq!(link_owner(&link(40, 5, LinkType::Fiber), &map.nodes), Owner::AI2);
    assert_eq!(link_owner(&link(40, 41, LinkType::Fiber), &map.nodes), Owner::Neutral);
}

#[test]
fn routing_table_records_routes_and_costs() {
    let mut t = RoutingTable::default();
    assert_eq!(t.next_hop(5), None);
    assert_eq!(t.cost_to(5), None);
    assert!(t.destinations().is_empty());
    t.set_route(5, 2);
    assert_eq!(t.next_hop(5), Some(2));
    assert_eq!(t.cost_to(5), None);
    t.set_cost(5, 7);
    t.set_route(5, 3);
    t.set_route(6, 1);
    assert_eq!(t.next_hop(5), Some(3));
    assert_eq!(t.cost_to(5), Some(7));
    let mut d = t.destinations();
    d.sort();
    assert_eq!(d, vec![5, 6]);
    let fresh = RoutingTable::new();
    assert_eq!(fresh.cost_to(6), None);
}
