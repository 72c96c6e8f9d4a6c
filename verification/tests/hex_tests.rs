use strategy_game::hex::{HexCoord, HexTile, HexTileType};
use strategy_game::setup::setup_initial_map;

#[test]
fn test_hex_distance() {
    let a = HexCoord::new(0, 0);
    let b = HexCoord::new(1, 0);
    assert_eq!(a.distance(&b), 1);

    let c = HexCoord::new(2, -2);
    assert_eq!(a.distance(&c), 2);

    let d = HexCoord::new(-1, -1);
    assert_eq!(a.distance(&d), 2);
}

#[test]
fn test_grid_spawn_and_boundaries() {
    let mut tiles: Vec<HexTile> = Vec::new();
    let mut tile_count = 0;
    for q in -2..=2 {
        for r in -2..=2 {
            let sum_qr: i32 = q + r;
            if sum_qr.abs() <= 2 {
                let coord = HexCoord::new(q, r);
                assert!(coord.is_on_board());
                tiles.push(HexTile { coord, tile_type: HexTileType::Grass });
                tile_count += 1;
            }
        }
    }
    assert_eq!(tile_count, 19, "Board should contain exactly 19 tiles for radius 3");
    assert_eq!(tiles.len(), 19);
}

#[test]
fn distance_is_symmetric_and_zero_on_self() {
    let pts = [
        HexCoord::new(0, 0),
        HexCoord::new(3, -1),
        HexCoord::new(-2, 5),
        HexCoord::new(-4, -4),
        HexCoord::new(7, 2),
    ];
    for a in pts.iter() {
        assert_eq!(a.distance(a), 0);
        for b in pts.iter() {
            assert_eq!(a.distance(b), b.distance(a));
            for c in pts.iter() {
                assert!(a.distance(c) <= a.distance(b) + b.distance(c));
            }
        }
    }
    assert_eq!(HexCoord::new(3, -1).distance(&HexCoord::new(-2, 5)), 6);
    assert_eq!(HexCoord::new(-4, -4).distance(&HexCoord::new(7, 2)), 17);
}

#[test]
fn board_membership_matches_distance_two() {
    for q in -4..=4 {
        for r in -4..=4 {
            let c = HexCoord::new(q, r);
            let within = c.distance(&HexCoord::new(0, 0)) <= 2;
            assert_eq!(c.is_on_board(), within, "cell ({}, {})", q, r);
        }
    }
    assert!(HexCoord::new(2, -2).is_on_board());
    assert!(!HexCoord::new(2, 1).is_on_board());
    assert!(!HexCoord::new(3, 0).is_on_board());
}

#[test]
fn starting_board_layout() {
    let map = setup_initial_map();
    assert_eq!(map.tiles.len(), 37);
    let centre: Vec<&HexTile> = map.tiles.iter().filter(|t| t.coord == HexCoord::new(0, 0)).collect();
    assert_eq!(centre.len(), 1);
    assert_eq!(centre[0].tile_type, HexTileType::DataCenterCenter);
    let water = map.tiles.iter().filter(|t| t.tile_type == HexTileType::Water).count();
    assert_eq!(water, 18);
    for t in map.tiles.iter() {
        assert!((t.coord.q + t.coord.r).abs() <= 3);
        let ring = t.coord.distance(&HexCoord::new(0, 0)) == 3;
        assert_eq!(t.tile_type == HexTileType::Water, ring);
        if !ring && t.coord != HexCoord::new(0, 0) {
            assert_eq!(t.tile_type, HexTileType::Grass);
        }
    }
    assert_eq!(map.tiles[0].coord, HexCoord::new(-3, 0));
    assert_eq!(map.tiles[36].coord, HexCoord::new(3, 0));
    for w in map.tiles.windows(2) {
        let (a, b) = (w[0].coord, w[1].coord);
        assert!(a.q < b.q || (a.q == b.q && a.r < b.r));
    }
    assert_eq!(map.nodes.len(), 12);
    assert_eq!(map.links.len(), 4);
    assert_eq!(map.cities.len(), 4);
    assert_eq!(map.nodes[0].ip, 10);
    assert_eq!(map.nodes[11].ip, 153);
    assert_eq!(map.cities[3].payout_per_sec, 50);
}
