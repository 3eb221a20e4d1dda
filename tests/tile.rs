use kosmos_tile::tile::{decode_tiles, encode_tiles, TransferError};
use kosmos_tile::{Terrian, Tile, TileConstants};

fn sample(terrian: Terrian, t: u8, p: u8, g: [i8; 3]) -> Tile {
    Tile { terrian, temperature: t, pressure: p, gravity: g, pad: [0, 0] }
}

#[test]
fn terrain_bit_patterns() {
    assert!(Terrian::is_valid_bit_pattern(&0));
    assert!(Terrian::is_valid_bit_pattern(&1));
    assert!(Terrian::is_valid_bit_pattern(&2));
    assert!(!Terrian::is_valid_bit_pattern(&3));
    assert!(!Terrian::is_valid_bit_pattern(&255));
    assert_eq!(Terrian::from_bits(1), Some(Terrian::SwallowWater));
    assert_eq!(Terrian::from_bits(2), Some(Terrian::DeepWater));
    assert_eq!(Terrian::from_bits(7), None);
    assert_eq!(Terrian::DeepWater.to_bits(), 2);
}

#[test]
fn default_tile_is_zero() {
    let t = Tile::default();
    assert_eq!(t.terrian, Terrian::Space);
    assert_eq!(t.to_bytes(), [0u8; 8]);
    assert_eq!(Terrian::default(), Terrian::Space);
}

#[test]
fn tile_bytes_layout() {
    let t = Tile { terrian: Terrian::DeepWater, temperature: 7, pressure: 9, gravity: [-1, 5, -128], pad: [3, 4] };
    assert_eq!(t.to_bytes(), [2, 7, 9, 255, 5, 128, 3, 4]);
}

#[test]
fn tiles_round_trip_through_bytes() {
    let tiles = vec![
        sample(Terrian::Space, 1, 2, [3, -4, 5]),
        sample(Terrian::SwallowWater, 200, 0, [-128, 127, 0]),
        sample(Terrian::DeepWater, 0, 255, [0, 0, -1]),
    ];
    let bytes = encode_tiles(&tiles);
    assert_eq!(bytes.len(), 24);
    assert_eq!(&bytes[8..16], &[1, 200, 0, 128, 127, 0, 0, 0]);
    assert_eq!(decode_tiles(&bytes, 3), Ok(tiles));
}

#[test]
fn decode_rejects_invalid_terrain() {
    let mut bytes = encode_tiles(&[Tile::default(), Tile::default(), Tile::default()]);
    bytes[8] = 3;
    bytes[16] = 9;
    assert_eq!(decode_tiles(&bytes, 3), Err(TransferError::InvalidTerrian { index: 1, bits: 3 }));
}

#[test]
fn decode_rejects_wrong_length() {
    let bytes = vec![0u8; 20];
    assert_eq!(decode_tiles(&bytes, 3), Err(TransferError::LengthMismatch { expected: 24, found: 20 }));
    assert_eq!(decode_tiles(&[], 0), Ok(vec![]));
}

#[test]
fn tile_from_bytes_offset() {
    let bytes = [9u8, 0, 1, 2, 3, 4, 5, 6, 7];
    let t = Tile::from_bytes(&bytes, 1).unwrap();
    assert_eq!(t, Tile { terrian: Terrian::Space, temperature: 1, pressure: 2, gravity: [3, 4, 5], pad: [6, 7] });
    assert_eq!(Tile::from_bytes(&bytes, 0), None);
}

#[test]
fn constants_bytes_little_endian() {
    let c = TileConstants { width: 0x01020304, height: 8, depth: 256, frame_number: 0xdeadbeef };
    assert_eq!(
        c.to_bytes(),
        vec![4, 3, 2, 1, 8, 0, 0, 0, 0, 1, 0, 0, 0xef, 0xbe, 0xad, 0xde]
    );
}
