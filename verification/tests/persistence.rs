//! Persistence: the exact textual format, round trips in both modes,
//! compression sniffing, and failure on corrupted payloads.

use maps::{MapError, Tile, TileMap, TileStore};

const MAPSIZE_KEY: u128 = 0x2_0000_0000_0000_0000;
const PLAYER_KEY: u128 = 0x3_0000_0000_0000_0000;

fn grid_key(y: i32, x: i32) -> u128 {
    maps::tile::grid_key_of(y, x)
}

fn region_key(n: u32) -> u128 {
    maps::tile::region_key_of(n)
}

fn single_tile_map() -> TileMap {
    let mut store = TileStore::new();
    store.insert(grid_key(1, 2), Tile::new(1, 2, '#', Vec::new()));
    TileMap { map_wall: '#', map_floor: '.', map_player: 'p', map_game_objects: store }
}

#[test]
fn save_writes_the_documented_text_format() {
    let m = single_tile_map();
    let bytes = TileMap::save_map(&m, false);
    assert_eq!(bytes, b"1x2 y=1 x=2 c=35 neighbors=\n".to_vec());
}

#[test]
fn save_writes_region_and_metadata_keys() {
    let mut store = TileStore::new();
    store.insert(region_key(0), Tile::new(3, 7, '.', vec![region_key(1), region_key(2)]));
    store.insert(MAPSIZE_KEY, Tile::new(50, 50, '$', Vec::new()));
    store.insert(PLAYER_KEY, Tile::new(0, 0, 'p', Vec::new()));
    let m = TileMap { map_wall: '#', map_floor: '.', map_player: 'p', map_game_objects: store };
    let bytes = TileMap::save_map(&m, false);
    let expected = b"v0 y=3 x=7 c=46 neighbors=v1,v2\nmapsize y=50 x=50 c=36 neighbors=\nplayer y=0 x=0 c=112 neighbors=\n".to_vec();
    assert_eq!(bytes, expected);
}

#[test]
fn save_writes_negative_coordinates_signed() {
    let mut store = TileStore::new();
    store.insert(grid_key(-1, -5), Tile::new(-1, -5, '.', Vec::new()));
    let m = TileMap { map_wall: '#', map_floor: '.', map_player: 'p', map_game_objects: store };
    let bytes = TileMap::save_map(&m, false);
    assert_eq!(bytes, b"-1x-5 y=-1 x=-5 c=46 neighbors=\n".to_vec());
    let back = TileMap::load_map(&bytes, false).unwrap();
    let t = back.map_game_objects.get(grid_key(-1, -5)).unwrap();
    assert_eq!((t.y, t.x, t.c), (-1, -5, '.'));
}

#[test]
fn roundtrip_survives_extreme_coordinates() {
    let mut store = TileStore::new();
    store.insert(
        grid_key(i32::MIN, i32::MAX),
        Tile::new(i32::MIN, i32::MAX, '.', vec![grid_key(0, 0)]),
    );
    let m = TileMap { map_wall: '#', map_floor: '.', map_player: 'p', map_game_objects: store };
    let bytes = TileMap::save_map(&m, false);
    assert_eq!(bytes, b"-2147483648x2147483647 y=-2147483648 x=2147483647 c=46 neighbors=0x0\n".to_vec());
    let back = TileMap::load_map(&bytes, false).unwrap();
    let t = back.map_game_objects.get(grid_key(i32::MIN, i32::MAX)).unwrap();
    assert_eq!((t.y, t.x, t.c), (i32::MIN, i32::MAX, '.'));
    assert_eq!(t.neighbors, vec![grid_key(0, 0)]);
}

#[test]
fn load_parses_a_hand_written_payload() {
    let text = b"mapsize y=9 x=8 c=36 neighbors=\n0x0 y=0 x=0 c=35 neighbors=\nv3 y=4 x=5 c=46 neighbors=v1,0x0\n".to_vec();
    let m = TileMap::load_map(&text, false).unwrap();
    assert_eq!(m.map_game_objects.order_len(), 3);
    let ms = m.map_game_objects.get(MAPSIZE_KEY).unwrap();
    assert_eq!((ms.y, ms.x, ms.c), (9, 8, '$'));
    let t = m.map_game_objects.get(grid_key(0, 0)).unwrap();
    assert_eq!((t.y, t.x, t.c), (0, 0, '#'));
    let v = m.map_game_objects.get(region_key(3)).unwrap();
    assert_eq!((v.y, v.x, v.c), (4, 5, '.'));
    assert_eq!(v.neighbors, vec![region_key(1), grid_key(0, 0)]);
    assert_eq!(m.map_wall, '#');
    assert_eq!(m.map_floor, '.');
    assert_eq!(m.map_player, 'p');
}

#[test]
fn load_rejects_malformed_payloads() {
    for bad in [
        &b"not a map"[..],
        &b"1x2 y=1 x=2 c=35"[..],                     // no neighbours field, no newline
        &b"1x2 y=1 x=2 c=35 neighbors="[..],          // missing final newline
        &b"1x2 y=oops x=2 c=35 neighbors=\n"[..],     // non-numeric field
        &b"zz y=1 x=2 c=35 neighbors=\n"[..],         // unknown key form
        &b"1x2 y=1 x=2 c=55296 neighbors=\n"[..],     // surrogate code point
        &b"1x2 y=2147483648 x=2 c=35 neighbors=\n"[..],  // y out of range
    ] {
        let r = TileMap::load_map(&bad.to_vec(), false);
        assert_eq!(r.unwrap_err(), MapError::Format);
    }
}

fn entries_of(m: &TileMap) -> Vec<(u128, i32, i32, char, Vec<u128>)> {
    let mut out = Vec::new();
    for i in 0..m.map_game_objects.order_len() {
        let k = m.map_game_objects.key_at(i);
        let t = m.map_game_objects.get(k).unwrap();
        out.push((k, t.y, t.x, t.c, t.neighbors.clone()));
    }
    out
}

#[test]
fn roundtrip_uncompressed_preserves_every_field() {
    let m = TileMap::generate(50, 50).unwrap();
    let bytes = TileMap::save_map(&m, false);
    let back = TileMap::load_map(&bytes, false).unwrap();
    assert_eq!(entries_of(&m), entries_of(&back));
    assert_eq!(back.map_wall, m.map_wall);
    assert_eq!(back.map_floor, m.map_floor);
    assert_eq!(back.map_player, m.map_player);
}

#[test]
fn roundtrip_compressed_preserves_every_field() {
    let m = TileMap::generate(50, 50).unwrap();
    let bytes = TileMap::save_map(&m, true);
    let back = TileMap::load_map(&bytes, true).unwrap();
    assert_eq!(entries_of(&m), entries_of(&back));
}

#[test]
fn compressed_and_plain_payloads_are_told_apart() {
    let m = single_tile_map();
    let plain = TileMap::save_map(&m, false);
    let packed = TileMap::save_map(&m, true);
    assert_ne!(plain, packed);
    assert!(!TileMap::file_compressed(&plain));
    assert!(TileMap::file_compressed(&packed));
    // a plain payload is not a gzip stream
    assert_eq!(TileMap::load_map(&plain, true).unwrap_err(), MapError::Format);
    // a gzip stream is not the textual format
    assert_eq!(TileMap::load_map(&packed, false).unwrap_err(), MapError::Format);
}

#[test]
fn corrupted_compressed_payload_fails_with_format_error() {
    let m = TileMap::generate(50, 50).unwrap();
    let mut bytes = TileMap::save_map(&m, true);
    let mid = bytes.len() / 2;
    bytes[mid] ^= 0xFF;
    let r = TileMap::load_map(&bytes, true);
    assert_eq!(r.unwrap_err(), MapError::Format);
}

#[test]
fn compress_then_decompress_is_identity() {
    let data: Vec<u8> = (0u32..2000).map(|i| (i % 251) as u8).collect();
    let packed = TileMap::compress(&data);
    assert_ne!(packed, data);
    let back = TileMap::decompress(&packed).unwrap();
    assert_eq!(back, data);
    assert_eq!(TileMap::decompress(&data).unwrap_err(), MapError::Format);
}
