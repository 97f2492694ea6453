use hydro::pos::{ChunkOffset, ChunkPosition, Position, TilePosition};

fn tile_of(x: f64, y: f64) -> TilePosition {
    Position { x: x.to_bits(), y: y.to_bits(), world: 2 }.align_to_tile()
}

#[test]
fn offset_index_is_row_major() {
    assert_eq!(ChunkOffset { x: 0, y: 0 }.index(), 0);
    assert_eq!(ChunkOffset { x: 31, y: 0 }.index(), 31);
    assert_eq!(ChunkOffset { x: 0, y: 1 }.index(), 32);
    assert_eq!(ChunkOffset { x: 31, y: 31 }.index(), 1023);
    assert_eq!(ChunkOffset { x: 5, y: 7 }.index(), 5 + 32 * 7);
}

#[test]
fn tile_splits_into_chunk_and_offset() {
    let (chunk, offset) = TilePosition { x: 0, y: 0 }.to_chunk_position();
    assert_eq!(chunk, ChunkPosition { x: 0, y: 0 });
    assert_eq!(offset, ChunkOffset { x: 0, y: 0 });
    let (chunk, offset) = TilePosition { x: 31, y: 32 }.to_chunk_position();
    assert_eq!(chunk, ChunkPosition { x: 0, y: 1 });
    assert_eq!(offset, ChunkOffset { x: 31, y: 0 });
    let (chunk, offset) = TilePosition { x: -1, y: -32 }.to_chunk_position();
    assert_eq!(chunk, ChunkPosition { x: -1, y: -1 });
    assert_eq!(offset, ChunkOffset { x: 31, y: 0 });
    let (chunk, offset) = TilePosition { x: -33, y: 65 }.to_chunk_position();
    assert_eq!(chunk, ChunkPosition { x: -2, y: 2 });
    assert_eq!(offset, ChunkOffset { x: 31, y: 1 });
}

#[test]
fn tile_is_recovered_from_chunk_and_offset() {
    let mut t: i32 = -1048576;
    while t < 1048576 {
        let (chunk, offset) = TilePosition { x: t, y: -t - 1 }.to_chunk_position();
        assert_eq!(chunk.x as i32 * 32 + offset.x as i32, t);
        assert_eq!(chunk.y as i32 * 32 + offset.y as i32, -t - 1);
        assert_eq!(chunk.x as i32, t.div_euclid(32));
        assert_eq!(offset.x as i32, t.rem_euclid(32));
        t += 977;
    }
}

#[test]
fn chunk_coordinate_wraps_beyond_sixteen_bits() {
    let (chunk, offset) = TilePosition { x: i32::MAX, y: i32::MIN }.to_chunk_position();
    assert_eq!(chunk.x, (i32::MAX.div_euclid(32)) as i16);
    assert_eq!(chunk.y, (i32::MIN.div_euclid(32)) as i16);
    assert_eq!(offset, ChunkOffset { x: 31, y: 0 });
    let (chunk, _) = TilePosition { x: 1048576, y: 0 }.to_chunk_position();
    assert_eq!(chunk.x, -32768);
}

#[test]
fn position_lies_on_the_tile_of_its_floor() {
    let cases: [f64; 30] = [
        0.0, -0.0, 0.5, -0.5, 0.999, 1.0, -1.0, 1.5, -1.5, 31.9, 31.99, 32.0, -32.5, 5.0, 1e9, -1e9,
        2147483647.0, 2147483647.5, 2147483648.0, -2147483647.5, -2147483648.0, -2147483648.5,
        -2147483649.0, 1e300, -1e300, f64::INFINITY, f64::NEG_INFINITY, f64::NAN, -1e-300, 1e-300,
    ];
    for x in cases {
        let tile = tile_of(x, -x);
        assert_eq!(tile.x, x.floor() as i32);
        assert_eq!(tile.y, (-x).floor() as i32);
    }
    let mut bits: u64 = 0x3fe0_0000_0000_0000;
    while bits < 0x4200_0000_0000_0000 {
        let x = f64::from_bits(bits);
        assert_eq!(tile_of(x, x).x, x.floor() as i32);
        assert_eq!(tile_of(-x, x).x, (-x).floor() as i32);
        bits += 0x0000_3f7a_1234_5677;
    }
    assert_eq!(tile_of(-0.5, 31.9), TilePosition { x: -1, y: 31 });
    assert_eq!(tile_of(-0.0, -1.0), TilePosition { x: 0, y: -1 });
    assert_eq!(tile_of(-1.25, -32.0), TilePosition { x: -2, y: -32 });
    assert_eq!(tile_of(f64::MIN_POSITIVE, 4.9e-324), TilePosition { x: 0, y: 0 });
    assert_eq!(tile_of(-f64::MIN_POSITIVE, -4.9e-324), TilePosition { x: -1, y: -1 });
}

#[test]
fn position_chunk_follows_its_tile() {
    let p = Position { x: 31.9f64.to_bits(), y: 32.0f64.to_bits(), world: 3 };
    assert_eq!(p.chunk(), ChunkPosition { x: 0, y: 1 });
    let p = Position { x: (-0.5f64).to_bits(), y: (-1.0f64).to_bits(), world: 3 };
    assert_eq!(p.chunk(), ChunkPosition { x: -1, y: -1 });
    let p = Position { x: (-32.0f64).to_bits(), y: (-32.5f64).to_bits(), world: 3 };
    assert_eq!(p.chunk(), ChunkPosition { x: -1, y: -2 });
}

#[test]
fn map_block_places_its_tiles() {
    assert_eq!(hydro::pos::MAP_BLOCK, 16);
    assert_eq!(TilePosition::in_block(32, -16, 3, 15), Some(TilePosition { x: 35, y: -1 }));
    assert_eq!(TilePosition::in_block(0, 0, 0, 0), Some(TilePosition { x: 0, y: 0 }));
    assert_eq!(
        TilePosition::in_block(i32::MAX - 15, i32::MIN, 15, 0),
        Some(TilePosition { x: i32::MAX, y: i32::MIN })
    );
    assert_eq!(TilePosition::in_block(i32::MAX - 15, 0, 16, 0), None);
    assert_eq!(TilePosition::in_block(0, i32::MAX, 0, 1), None);
    assert_eq!(TilePosition::in_block(i32::MIN, 0, u32::MAX, 0), Some(TilePosition { x: i32::MAX, y: 0 }));
}
