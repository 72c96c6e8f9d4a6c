use strategy_game::hex::HexCoord;
use strategy_game::network::{LinkType, NetworkLink, NetworkNode, NodeType, Owner};
use strategy_game::routing::update_routing_tables;
use strategy_game::setup::setup_initial_map;
use strategy_game::table::RoutingTable;

fn node(ip: u32, q: i32, r: i32, node_type: NodeType, owner: Owner) -> NetworkNode {
    NetworkNode { ip, coord: HexCoord::new(q, r), node_type, owner }
}

fn link(a: usize, b: usize, link_type: LinkType) -> NetworkLink {
    NetworkLink { node_a: a, node_b: b, link_type, is_active: true }
}

/// Follows next hops from `from` until `to`.
fn follow(tables: &[RoutingTable], nodes: &[NetworkNode], from: usize, to: usize) -> Option<Vec<usize>> {
    let mut path = vec![from];
    let mut cur = from;
    while cur != to {
        cur = tables[cur].next_hop(nodes[to].ip)?;
        path.push(cur);
        if path.len() > nodes.len() {
            return None;
        }
    }
    Some(path)
}

#[test]
fn test_dijkstra_routing_on_hex_grid() {
    let nodes = vec![
        node(10, -2, 0, NodeType::Router, Owner::Player),
        node(20, -1, 0, NodeType::Router, Owner::Player),
        node(100, 0, 0, NodeType::DataCenter, Owner::Neutral),
    ];
    let (client, router, dc) = (0usize, 1usize, 2usize);
    let links = vec![link(client, router, LinkType::Copper), link(router, dc, LinkType::Copper)];
    let tables = update_routing_tables(&nodes, &links);
    let path = follow(&tables, &nodes, client, dc);
    assert_eq!(path, Some(vec![client, router, dc]), "Dijkstra should route Client -> Router -> DC");
    assert_eq!(tables[client].cost_to(100), Some(6));
    assert_eq!(tables[client].cost_to(20), Some(3));
    assert_eq!(tables[dc].cost_to(10), Some(6));
}

#[test]
fn cheaper_cable_wins_over_fewer_hops() {
    // 0 -copper- 3 directly (cost 3), or 0 -fiber- 1 -fiber- 2 -wireless... via 1 (fiber 1+1=2)
    let nodes = vec![
        node(1, 0, 0, NodeType::Router, Owner::Player),
        node(2, 1, 0, NodeType::Router, Owner::Player),
        node(3, 2, 0, NodeType::Router, Owner::Player),
    ];
    let links = vec![
        link(0, 2, LinkType::Copper),
        link(0, 1, LinkType::Fiber),
        link(1, 2, LinkType::Fiber),
    ];
    let tables = update_routing_tables(&nodes, &links);
    assert_eq!(tables[0].cost_to(3), Some(2));
    assert_eq!(tables[0].next_hop(3), Some(1));
    assert_eq!(tables[2].cost_to(1), Some(2));
    assert_eq!(tables[2].next_hop(1), Some(1));
}

#[test]
fn inactive_and_dangling_links_are_ignored() {
    let nodes = vec![
        node(1, 0, 0, NodeType::Router, Owner::Player),
        node(2, 1, 0, NodeType::Router, Owner::Player),
    ];
    let links = vec![
        NetworkLink { node_a: 0, node_b: 1, link_type: LinkType::Fiber, is_active: false },
        link(0, 7, LinkType::Fiber),
    ];
    let tables = update_routing_tables(&nodes, &links);
    assert_eq!(tables[0].cost_to(2), None);
    assert_eq!(tables[0].next_hop(2), None);
    assert!(tables[0].destinations().is_empty());
    assert!(tables[1].destinations().is_empty());
}

#[test]
fn unreachable_nodes_get_no_route() {
    let nodes = vec![
        node(1, 0, 0, NodeType::Router, Owner::Player),
        node(2, 1, 0, NodeType::Router, Owner::Player),
        node(3, 2, 0, NodeType::Router, Owner::AI1),
    ];
    let links = vec![link(0, 1, LinkType::Wireless)];
    let tables = update_routing_tables(&nodes, &links);
    assert_eq!(tables[0].cost_to(2), Some(2));
    assert_eq!(tables[0].cost_to(3), None);
    assert_eq!(tables[2].cost_to(1), None);
    let mut d = tables[0].destinations();
    d.sort();
    assert_eq!(d, vec![2]);
}

#[test]
fn costs_are_symmetric_on_the_starting_map() {
    let map = setup_initial_map();
    let mut links = map.links.clone();
    links.push(link(1, 8, LinkType::Copper));
    links.push(link(3, 8, LinkType::Fiber));
    links.push(link(5, 9, LinkType::Wireless));
    links.push(link(9, 8, LinkType::Copper));
    let tables = update_routing_tables(&map.nodes, &links);
    for a in 0..map.nodes.len() {
        for b in 0..map.nodes.len() {
            if a != b {
                assert_eq!(tables[a].cost_to(map.nodes[b].ip), tables[b].cost_to(map.nodes[a].ip));
            }
        }
    }
    // player DC (0) -copper- router (1) -copper- city 150 (8): 6
    assert_eq!(tables[0].cost_to(150), Some(6));
    // AI1 DC (2) -copper- router (3) -fiber- city 150 (8): 4
    assert_eq!(tables[2].cost_to(150), Some(4));
    // player DC to AI2 DC: 0-1 (3), 1-8 (3), 8-9 (3), 9-5 (2), 5-4 (3) = 14
    assert_eq!(tables[0].cost_to(200), Some(14));
    assert_eq!(tables[0].next_hop(200), Some(1));
    assert_eq!(tables[6].cost_to(10), None);
}

#[test]
fn shared_address_takes_the_last_node() {
    let nodes = vec![
        node(1, 0, 0, NodeType::Router, Owner::Player),
        node(9, 1, 0, NodeType::Router, Owner::Player),
        node(9, 2, 0, NodeType::Router, Owner::Player),
    ];
    let links = vec![link(0, 1, LinkType::Fiber), link(0, 2, LinkType::Copper)];
    let tables = update_routing_tables(&nodes, &links);
    assert_eq!(tables[0].cost_to(9), Some(3));
    assert_eq!(tables[0].next_hop(9), Some(2));
}

#[test]
fn next_hops_lead_to_the_destination_at_falling_cost() {
    let map = setup_initial_map();
    let mut links = map.links.clone();
    links.push(link(1, 8, LinkType::Copper));
    links.push(link(3, 8, LinkType::Fiber));
    links.push(link(5, 9, LinkType::Wireless));
    links.push(link(9, 8, LinkType::Copper));
    links.push(link(8, 11, LinkType::Fiber));
    let tables = update_routing_tables(&map.nodes, &links);
    for a in 0..map.nodes.len() {
        for t in 0..map.nodes.len() {
            if a == t {
                continue;
            }
            let ip = map.nodes[t].ip;
            match tables[a].cost_to(ip) {
                None => assert_eq!(tables[a].next_hop(ip), None),
                Some(c) => {
                    let h = tables[a].next_hop(ip).unwrap();
                    assert_ne!(h, a);
                    if h == t {
                        assert!((1..=3).contains(&c));
                    } else {
                        let ch = tables[h].cost_to(ip).unwrap();
                        assert!(ch < c && c - ch <= 3);
                    }
                    let path = follow(&tables, &map.nodes, a, t).unwrap();
                    assert_eq!(*path.last().unwrap(), t);
                }
            }
        }
    }
    // Player data center to the large city: 0-1 (3), 1-8 (3), 8-11 (1).
    assert_eq!(follow(&tables, &map.nodes, 0, 11), Some(vec![0, 1, 8, 11]));
    assert_eq!(tables[0].cost_to(153), Some(7));
}

#[test]
fn unusable_links_change_no_route() {
    let map = setup_initial_map();
    let mut links = map.links.clone();
    links.push(link(1, 8, LinkType::Copper));
    links.push(NetworkLink { node_a: 3, node_b: 8, link_type: LinkType::Fiber, is_active: false });
    links.push(link(8, 40, LinkType::Fiber));
    links.push(link(9, 8, LinkType::Wireless));
    let usable: Vec<NetworkLink> = links
        .iter()
        .copied()
        .filter(|l| l.is_active && l.node_a < map.nodes.len() && l.node_b < map.nodes.len())
        .collect();
    let full = update_routing_tables(&map.nodes, &links);
    let kept = update_routing_tables(&map.nodes, &usable);
    for a in 0..map.nodes.len() {
        for t in 0..map.nodes.len() {
            let ip = map.nodes[t].ip;
            assert_eq!(full[a].cost_to(ip), kept[a].cost_to(ip));
            assert_eq!(full[a].next_hop(ip).is_some(), kept[a].next_hop(ip).is_some());
        }
    }
}
