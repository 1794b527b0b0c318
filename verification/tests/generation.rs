//! Generation: key counts, border walls, metadata, and region linking.

use maps::{Direction, MapError, MoveOutcome, Player, Tile, TileMap, TileStore};

use maps::tile::{COORD_SPAN, REGION_KEY_BASE};

const MAPSIZE_KEY: u128 = 0x2_0000_0000_0000_0000;
const PLAYER_KEY: u128 = 0x3_0000_0000_0000_0000;

fn grid_key(y: i32, x: i32) -> u128 {
    maps::tile::grid_key_of(y, x)
}

fn region_key(n: u32) -> u128 {
    maps::tile::region_key_of(n)
}

#[test]
fn generate_grid_tile_count_is_2500() {
    let m = TileMap::generate(50, 50).unwrap();
    let mut grid = 0usize;
    for y in 0..50 {
        for x in 0..50 {
            if m.map_game_objects.contains_key(grid_key(y, x)) {
                grid += 1;
            }
        }
    }
    assert_eq!(grid, 2500);
}

#[test]
fn generate_total_count_is_grid_plus_regions_plus_two() {
    let m = TileMap::generate(50, 50).unwrap();
    let total = m.map_game_objects.len();
    let mut regions = 0usize;
    let mut grid = 0usize;
    let mut meta = 0usize;
    for i in 0..total {
        let k = m.map_game_objects.key_at(i);
        if k < REGION_KEY_BASE {
            grid += 1;
        } else if k >= REGION_KEY_BASE && k < REGION_KEY_BASE + COORD_SPAN {
            regions += 1;
        } else {
            assert!(k == MAPSIZE_KEY || k == PLAYER_KEY);
            meta += 1;
        }
    }
    assert_eq!(grid, 2500);
    assert_eq!(meta, 2);
    // the region count is drawn uniformly from [(50 + 50) / 2, (50 + 50) * 2)
    assert!(regions >= 50 && regions < 200);
    assert_eq!(total, grid + regions + meta);
}

#[test]
fn generate_border_is_wall() {
    let m = TileMap::generate(50, 50).unwrap();
    for y in 0..50 {
        for x in 0..50 {
            if y == 0 || y == 49 || x == 0 || x == 49 {
                let t = m.map_game_objects.get(grid_key(y, x)).unwrap();
                assert_eq!(t.c, '#');
            }
        }
    }
}

#[test]
fn generate_corners_are_wall_and_mapsize_recorded() {
    let m = TileMap::generate(50, 50).unwrap();
    for (y, x) in [(0, 0), (0, 49), (49, 0), (49, 49)] {
        assert_eq!(m.map_game_objects.get(grid_key(y, x)).unwrap().c, '#');
    }
    let ms = m.map_game_objects.get(MAPSIZE_KEY).unwrap();
    assert_eq!(ms.y, 50);
    assert_eq!(ms.x, 50);
    let pl = m.map_game_objects.get(PLAYER_KEY).unwrap();
    assert_eq!(pl.y, 0);
    assert_eq!(pl.x, 0);
    assert_eq!(pl.c, 'p');
}

#[test]
fn generate_interior_symbols_are_wall_or_floor() {
    let m = TileMap::generate(50, 50).unwrap();
    for y in 1..49 {
        for x in 1..49 {
            let t = m.map_game_objects.get(grid_key(y, x)).unwrap();
            assert!(t.c == '#' || t.c == '.');
            assert_eq!(t.y, y);
            assert_eq!(t.x, x);
            assert!(t.neighbors.is_empty());
        }
    }
}

#[test]
fn generate_regions_have_two_distinct_neighbors() {
    let m = TileMap::generate(50, 50).unwrap();
    let mut n: u32 = 0;
    while m.map_game_objects.contains_key(region_key(n)) {
        let t = m.map_game_objects.get(region_key(n)).unwrap();
        assert_eq!(t.neighbors.len(), 2);
        for nb in &t.neighbors {
            assert!(*nb >= REGION_KEY_BASE && *nb < REGION_KEY_BASE + COORD_SPAN);
            assert_ne!(*nb, region_key(n));
        }
        assert_ne!(t.neighbors[0], t.neighbors[1]);
        assert!(t.y >= 0 && t.y < 50 && t.x >= 0 && t.x < 50);
        assert!(t.c == '#' || t.c == '.');
        n += 1;
    }
    assert!(n >= 50);
}

#[test]
fn generate_rejects_small_and_huge_dimensions() {
    assert_eq!(TileMap::generate(10, 10).unwrap_err(), MapError::Config);
    assert_eq!(TileMap::generate(49, 50).unwrap_err(), MapError::Config);
    assert_eq!(TileMap::generate(50, 49).unwrap_err(), MapError::Config);
    assert_eq!(TileMap::generate(50, 10001).unwrap_err(), MapError::Config);
    assert!(TileMap::generate(50, 50).is_ok());
}

#[test]
fn tile_key_packs_coordinates() {
    let t = Tile::new(2, 3, '.', Vec::new());
    assert_eq!(t.get_tile_key(), 2u128 * 0x1_0000_0000 + 3);
    assert_eq!(grid_key(2, 3), 2u128 * 0x1_0000_0000 + 3);
    // distinct coordinates get distinct keys, even near the sign edge
    assert_ne!(grid_key(-1, 0), grid_key(0, -1));
    assert_ne!(grid_key(1, 0), grid_key(0, 0x1_0000_0000u64 as i32));
}

#[test]
fn distance_is_manhattan() {
    let a = Tile::new(0, 0, '.', Vec::new());
    let b = Tile::new(3, 4, '.', Vec::new());
    assert_eq!(Tile::distance(&a, &b), 7);
    let c = Tile::new(-2, 5, '.', Vec::new());
    assert_eq!(Tile::distance(&a, &c), 7);
    assert_eq!(Tile::distance(&c, &a), 7);
    assert_eq!(Tile::distance(&a, &a), 0);
}

#[test]
fn distance_slow_is_rounded_euclidean() {
    let a = Tile::new(0, 0, '.', Vec::new());
    let b = Tile::new(3, 4, '.', Vec::new());
    assert_eq!(Tile::distance_slow(&a, &b), 5);
    let c = Tile::new(1, 1, '.', Vec::new());
    assert_eq!(Tile::distance_slow(&a, &c), 1);
    let d = Tile::new(0, 10, '.', Vec::new());
    assert_eq!(Tile::distance_slow(&a, &d), 10);
    assert_eq!(Tile::distance_slow(&a, &a), 0);
}

#[test]
fn player_moves_one_unit() {
    let mut p = Player::new(5, 7, 'p');
    p.move_up();
    assert_eq!((p.y, p.x), (4, 7));
    p.move_down();
    p.move_down();
    assert_eq!((p.y, p.x), (6, 7));
    p.move_left();
    assert_eq!((p.y, p.x), (6, 6));
    p.move_right();
    p.move_right();
    assert_eq!((p.y, p.x), (6, 8));
    assert_eq!(p.c, 'p');
}

fn three_by_three() -> TileMap {
    // floor everywhere inside bounds, except a wall at (1, 0); the
    // outer cells of the 3 by 3 patch are also floor here so that the
    // collision outcome is decided by the stored symbols alone
    let mut store = TileStore::new();
    for y in 0..3 {
        for x in 0..3 {
            let c = if y == 1 && x == 0 { '#' } else { '.' };
            store.insert(grid_key(y, x), Tile::new(y, x, c, Vec::new()));
        }
    }
    TileMap { map_wall: '#', map_floor: '.', map_player: 'p', map_game_objects: store }
}

#[test]
fn try_move_blocked_by_wall_and_allowed_on_floor() {
    let m = three_by_three();
    let mut p = Player::new(1, 1, 'p');
    let r = m.try_move(&mut p, Direction::Left);
    assert_eq!(r, MoveOutcome::Blocked(grid_key(1, 0)));
    assert_eq!((p.y, p.x), (1, 1));
    let r = m.try_move(&mut p, Direction::Right);
    assert_eq!(r, MoveOutcome::Moved);
    assert_eq!((p.y, p.x), (1, 2));
}

#[test]
fn try_move_missing_tile_is_silently_rejected() {
    let m = three_by_three();
    let mut p = Player::new(0, 2, 'p');
    let r = m.try_move(&mut p, Direction::Up);
    assert_eq!(r, MoveOutcome::Missing);
    assert_eq!((p.y, p.x), (0, 2));
    let r = m.try_move(&mut p, Direction::Right);
    assert_eq!(r, MoveOutcome::Missing);
    assert_eq!((p.y, p.x), (0, 2));
}

#[test]
fn render_window_emits_only_stored_tiles() {
    let m = three_by_three();
    let p = Player::new(1, 1, 'p');
    let cells = m.render_window(&p, 2, 2);
    // the 4 by 4 window around (1, 1) covers [-1, 3) x [-1, 3); only the
    // nine stored cells may appear
    assert_eq!(cells.len(), 9);
    for &(sy, sx, c) in &cells {
        let ty = p.y - 2 + sy;
        let tx = p.x - 2 + sx;
        let t = m.map_game_objects.get(grid_key(ty, tx)).expect("entry for stored tile only");
        assert_eq!(t.c, c);
    }
}

#[test]
fn render_window_blank_padding_outside_map() {
    let m = three_by_three();
    let p = Player::new(10, 10, 'p');
    let cells = m.render_window(&p, 3, 3);
    assert!(cells.is_empty());
}
