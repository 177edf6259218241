use stackmaker::direction::{
    dir_rev, is_same_dir, is_side, locate_tile, pos_move, pos_moved, DIR_DOWN, DIR_DOWN_L,
    DIR_LEFT, DIR_RIGHT, DIR_UP, DIR_UP_L,
};
use stackmaker::world::{Block, Layer};

/// Reads the tile back from a chunk key and in-chunk index.
fn tile_of(chunk: u64, index: u8) -> (i64, i64) {
    let cx = (chunk & 0xFFFF_FFFF) as u32 as i32 as i64;
    let cy = (chunk >> 32) as u32 as i32 as i64;
    (cx * 16 + (index & 15) as i64, cy * 16 + (index >> 4) as i64)
}

#[test]
fn locate_origin_and_minus_one() {
    assert_eq!(locate_tile(0, 0), (0, 0));
    assert_eq!(locate_tile(-1, -1), (0xFFFF_FFFF_FFFF_FFFF, 255));
    let layer = Layer::new();
    assert_eq!(layer.get_where(-1, -1), (0xFFFF_FFFF_FFFF_FFFF, 255));
    assert_eq!(layer.get_where(16, 0), (1, 0));
    assert_eq!(layer.get_where(0, 16), (1 << 32, 0));
    assert_eq!(layer.get_where(-16, 0), (0xFFFF_FFFF, 0));
    assert_eq!(layer.get_where(-17, 5), (0xFFFF_FFFE, 0x5F));
    assert_eq!(layer.get_where(3, -20), (0xFFFF_FFFE_0000_0000, 0xC3));
}

#[test]
fn locate_is_inverted_by_reading_the_tile_back() {
    let samples = [
        0i64, 1, -1, 15, 16, -15, -16, -17, 255, -256, 123_456_789, -987_654_321,
        (1 << 35) - 1, -(1 << 35),
    ];
    for &x in &samples {
        for &y in &samples {
            let (c, i) = locate_tile(x, y);
            assert_eq!(tile_of(c, i), (x, y));
        }
    }
}

#[test]
fn direction_algebra() {
    assert_eq!(dir_rev(DIR_LEFT), DIR_RIGHT);
    assert_eq!(dir_rev(DIR_UP), DIR_DOWN);
    assert_eq!(dir_rev(DIR_UP_L | 7), DIR_DOWN_L | 7);
    assert!(is_same_dir(DIR_LEFT | 3, DIR_LEFT | 9));
    assert!(!is_same_dir(DIR_LEFT, DIR_RIGHT));
    assert!(is_side(DIR_RIGHT, DIR_UP));
    assert!(is_side(DIR_RIGHT, DIR_UP_L | 4));
    assert!(!is_side(DIR_RIGHT, DIR_RIGHT | 2));
    assert!(!is_side(DIR_RIGHT, DIR_LEFT));
}

#[test]
fn moves_wrap_across_chunks() {
    let (c, i) = locate_tile(0, 0);
    assert_eq!(pos_moved(DIR_LEFT, c, i), Some((DIR_LEFT, locate_tile(-1, 0).0, locate_tile(-1, 0).1)));
    assert_eq!(pos_moved(DIR_UP, c, i), Some((DIR_UP, locate_tile(0, -1).0, locate_tile(0, -1).1)));
    let (c2, i2) = locate_tile(31, 47);
    assert_eq!(pos_moved(DIR_RIGHT, c2, i2), Some((DIR_RIGHT, locate_tile(32, 47).0, locate_tile(32, 47).1)));
    assert_eq!(pos_moved(DIR_DOWN, c2, i2), Some((DIR_DOWN, locate_tile(31, 48).0, locate_tile(31, 48).1)));
    let (c3, i3) = locate_tile(-16, -33);
    assert_eq!(pos_moved(DIR_LEFT, c3, i3), Some((DIR_LEFT, locate_tile(-17, -33).0, locate_tile(-17, -33).1)));
    assert_eq!(pos_moved(DIR_RIGHT, c3, i3), Some((DIR_RIGHT, locate_tile(-15, -33).0, locate_tile(-15, -33).1)));
}

#[test]
fn layer_moves_stop_at_the_edges() {
    assert_eq!(pos_moved(DIR_UP_L | 5, 7, 9), Some((DIR_UP_L | 4, 7, 9)));
    assert_eq!(pos_moved(DIR_DOWN_L | 5, 7, 9), Some((DIR_DOWN_L | 6, 7, 9)));
    assert_eq!(pos_moved(DIR_UP_L, 7, 9), None);
    assert_eq!(pos_moved(DIR_DOWN_L | 31, 7, 9), None);
    assert_eq!(pos_moved(0, 7, 9), None);
    assert_eq!(pos_moved(0b11100000, 7, 9), None);
    let (mut d, mut c, mut i) = (DIR_UP_L, 7u64, 9u8);
    assert!(!pos_move(&mut d, &mut c, &mut i));
    assert_eq!((d, c, i), (DIR_UP_L, 7, 9));
    let (mut d, mut c, mut i) = (DIR_RIGHT, 0u64, 15u8);
    assert!(pos_move(&mut d, &mut c, &mut i));
    assert_eq!((d, c, i), (DIR_RIGHT, 1, 0));
}

#[test]
fn chunks_are_created_on_first_mutable_access() {
    let mut layer = Layer::new();
    assert!(layer.get(&42).is_none());
    let chunk = layer.get_mut(&42);
    assert_eq!(chunk.len(), 256);
    let chunk = layer.get(&42).expect("created");
    assert_eq!(chunk.len(), 256);
    assert!(chunk.iter().all(|s| s.is_empty()));
    assert!(layer.get(&43).is_none());
    layer.get_mut(&42)[3].push(Block::Color(1));
    layer.get_mut(&42);
    assert_eq!(layer.get(&42).unwrap()[3], vec![Block::Color(1)]);
    assert_eq!(layer.chunks.len(), 1);
}

#[test]
fn default_layer_has_no_chunks() {
    let layer: Layer = Default::default();
    assert!(layer.chunks.is_empty());
    assert!(layer.get(&0).is_none());
}
