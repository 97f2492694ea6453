use hydro::content::{Collider, EntityType, InitEnvironment, TileSpec, AABB};
use hydro::geometry::AABBTileIterator;
use hydro::message::MessageS2C;
use hydro::names::DEFAULT_NAME;
use hydro::pos::{ChunkPosition, Position, TilePosition};
use hydro::server::{Server, WorldError};
use hydro::session::ClientCameraType;
use hydro::world::{Chunk, ChunkRef, ChunkTileLayer};

const W: u32 = 2;
const GROUND: u32 = 4;
const AIR: u32 = 5;
const GRASS: u32 = 10;
const WALL: u32 = 11;
const WATER: u32 = 12;
const CLOUD: u32 = 13;
const PLAYER: u32 = 20;
const BODY: u32 = 21;
const FEET: u32 = 22;

fn server() -> Server {
    let mut env = InitEnvironment::new();
    let ground = vec![
        TileSpec { id: Some(GRASS), collision_mask: None, asset_position: None, data: 901 },
        TileSpec { id: Some(WALL), collision_mask: Some(0b01), asset_position: None, data: 902 },
        TileSpec { id: Some(WATER), collision_mask: Some(0b10), asset_position: None, data: 903 },
    ];
    env.register_tileset(GROUND, (vec![], 16), None, 900, &ground).unwrap();
    let air =
        vec![TileSpec { id: Some(CLOUD), collision_mask: Some(0b100), asset_position: None, data: 911 }];
    env.register_tileset(AIR, (vec![], 16), None, 910, &air).unwrap();
    let rect = |x: f64, y: f64, w: f64, h: f64| AABB {
        x: x.to_bits(),
        y: y.to_bits(),
        w: w.to_bits(),
        h: h.to_bits(),
    };
    env.register_entity(
        PLAYER,
        EntityType {
            colliders: vec![
                (BODY, Collider { aabb: rect(0.0, 0.0, 1.0, 2.0), mask: 0b011 }),
                (FEET, Collider { aabb: rect(0.25, 0.0, 0.5, 0.25), mask: 0b100 }),
            ],
            data: 1,
            data_metatable: 2,
            animations: vec![],
            size: (0, 0),
        },
    );
    Server::new(env)
}

fn collect(mut walk: AABBTileIterator) -> Vec<(i32, i32)> {
    let mut tiles = Vec::new();
    while let Some(t) = walk.next() {
        tiles.push((t.x, t.y));
    }
    assert_eq!(walk.next(), None);
    tiles
}

#[test]
fn rectangle_is_walked_row_by_row() {
    assert_eq!(
        collect(AABBTileIterator::new(-1, 5, 2, 7)),
        vec![(-1, 5), (0, 5), (1, 5), (-1, 6), (0, 6), (1, 6)]
    );
    assert_eq!(collect(AABBTileIterator::new(3, 3, 4, 4)), vec![(3, 3)]);
    assert_eq!(collect(AABBTileIterator::new(3, 3, 3, 9)), vec![]);
    assert_eq!(collect(AABBTileIterator::new(3, 3, 9, 3)), vec![]);
    assert_eq!(collect(AABBTileIterator::new(5, 5, 2, 2)), vec![]);
    assert_eq!(
        collect(AABBTileIterator::new(i32::MAX - 1, i32::MAX - 1, i32::MAX, i32::MAX)),
        vec![(i32::MAX - 1, i32::MAX - 1)]
    );
}

#[test]
fn rectangle_of_an_aabb_covers_the_tiles_it_touches() {
    let (x, y, w, h) = (1.5f64, -0.5f64, 1.0f64, 1.0f64);
    let walk = AABBTileIterator::new(
        x.floor() as i32,
        y.floor() as i32,
        (x + w).ceil() as i32,
        (y + h).ceil() as i32,
    );
    assert_eq!(collect(walk), vec![(1, -1), (2, -1), (1, 0), (2, 0)]);
}

#[test]
fn layer_starts_out_with_default_tiles() {
    let mut layer = ChunkTileLayer::new();
    assert_eq!(layer.tiles, vec![0u32; 1024]);
    assert_eq!(layer.data.len(), 0);
    let offset = hydro::pos::ChunkOffset { x: 3, y: 2 };
    assert_eq!(layer.get(offset), 0);
    assert_eq!(layer.get_data(offset), None);
    assert_eq!(layer.get_data_or_insert(offset, 55), 55);
    assert_eq!(layer.get_data_or_insert(offset, 56), 55);
    assert_eq!(layer.get_data(offset), Some(55));
    assert_eq!(layer.set(offset, 9), Some(55));
    assert_eq!(layer.get(offset), 9);
    assert_eq!(layer.tiles[3 + 2 * 32], 9);
    assert_eq!(layer.get_data(offset), None);
    assert_eq!(layer.set(offset, 8), None);
    let chunk = Chunk::new();
    assert_eq!(chunk.tile_layers.len(), 0);
    assert_eq!(chunk.entities.len(), 0);
    assert_eq!(chunk.viewers.len(), 0);
    assert_eq!(chunk.tile_at(GROUND, offset), 0);
    assert_eq!(chunk.snapshot(), vec![]);
}

#[test]
fn tile_write_is_sent_to_viewers_with_the_number_of_the_tile() {
    let mut s = server();
    s.join_with_id(1).unwrap();
    s.join_with_id(2).unwrap();
    s.set_camera(1, ClientCameraType::Position(Position { x: 0, y: 0, world: W })).unwrap();
    s.set_camera(2, ClientCameraType::Position(Position { x: 0, y: 0, world: 3 })).unwrap();
    s.drain_outbound();
    let p = TilePosition { x: -1, y: 40 };
    assert_eq!(s.set_tile(p, W, GROUND, WATER), Ok(None));
    let out = s.drain_outbound();
    assert_eq!(out.len(), 1);
    assert_eq!(out[0].to, 1);
    assert_eq!(out[0].message, MessageS2C::SetTile(p, GROUND, 3));
    assert_eq!(s.get_at(p, W, GROUND).unwrap().data, 903);
    assert_eq!(s.get_at(p, W, GROUND).unwrap().id, 3);
    assert_eq!(s.get_at(TilePosition { x: 0, y: 40 }, W, GROUND).unwrap().data, 900);
    assert_eq!(s.get_at(p, W, AIR).unwrap().data, 910);
    assert_eq!(s.get_at(p, 3, GROUND).unwrap().id, 0);
    let chunk = s.chunk_at(ChunkRef { world: W, position: ChunkPosition { x: -1, y: 1 } }).unwrap();
    assert_eq!(chunk.tile_layers.len(), 1);
    assert_eq!(chunk.tile_layers[0].1.tiles[31 + 8 * 32], 3);
    assert_eq!(s.set_tile(p, W, 99, WATER), Err(WorldError::UnknownTileset));
    assert_eq!(s.set_tile(p, W, GROUND, CLOUD), Err(WorldError::UnknownTile));
    assert_eq!(s.get_at(p, W, 99).err(), Some(WorldError::UnknownTileset));
    assert_eq!(s.drain_outbound().len(), 0);
}

#[test]
fn tile_overwrite_drops_the_script_table_of_the_place() {
    let mut s = server();
    let p = TilePosition { x: 70, y: -3 };
    s.set_tile(p, W, GROUND, GRASS).unwrap();
    assert_eq!(s.get_data_at(p, W, GROUND, 5000), Ok(5000));
    assert_eq!(s.get_data_at(p, W, GROUND, 5001), Ok(5000));
    assert_eq!(s.get_data_at(TilePosition { x: 71, y: -3 }, W, GROUND, 6000), Ok(6000));
    assert_eq!(s.set_tile(p, W, GROUND, WALL), Ok(Some(5000)));
    assert_eq!(s.get_data_at(p, W, GROUND, 5002), Ok(5002));
    assert_eq!(s.get_data_at(p, W, GROUND, 5003), Ok(5002));
    assert_eq!(s.get_data_at(TilePosition { x: 71, y: -3 }, W, GROUND, 6001), Ok(6000));
    assert_eq!(s.get_data_at(p, W, AIR, 7000), Ok(7000));
    assert_eq!(s.set_tile(p, W, GROUND, WALL), Ok(Some(5002)));
    assert_eq!(s.set_tile(p, W, GROUND, WALL), Ok(None));
    assert_eq!(s.get_data_at(p, W, AIR, 7001), Ok(7000));
    assert_eq!(s.get_data_at(p, W, 99, 1), Err(WorldError::UnknownTileset));
}

#[test]
fn tiles_collide_by_the_mask_of_their_kind() {
    let mut s = server();
    s.set_tile(TilePosition { x: 2, y: 2 }, W, GROUND, WALL).unwrap();
    s.set_tile(TilePosition { x: 40, y: 2 }, W, GROUND, WATER).unwrap();
    s.set_tile(TilePosition { x: 2, y: 2 }, W, AIR, CLOUD).unwrap();
    assert!(s.tile_collides(W, TilePosition { x: 2, y: 2 }, 0b001));
    assert!(s.tile_collides(W, TilePosition { x: 2, y: 2 }, 0b100));
    assert!(s.tile_collides(W, TilePosition { x: 2, y: 2 }, 0b111));
    assert!(!s.tile_collides(W, TilePosition { x: 2, y: 2 }, 0b010));
    assert!(!s.tile_collides(W, TilePosition { x: 2, y: 2 }, 0));
    assert!(!s.tile_collides(W, TilePosition { x: 3, y: 2 }, 0b111));
    assert!(!s.tile_collides(3, TilePosition { x: 2, y: 2 }, 0b111));
    assert!(!s.tile_collides(W, TilePosition { x: 2000, y: 2 }, 0b111));
    assert!(s.tiles_collide(AABBTileIterator::new(0, 0, 3, 3), W, 0b001));
    assert!(!s.tiles_collide(AABBTileIterator::new(0, 0, 2, 3), W, 0b001));
    assert!(!s.tiles_collide(AABBTileIterator::new(0, 0, 3, 2), W, 0b001));
    assert!(!s.tiles_collide(AABBTileIterator::new(0, 0, 3, 3), W, 0b010));
    assert!(s.tiles_collide(AABBTileIterator::new(30, 0, 41, 3), W, 0b010));
    assert!(s.tiles_collide(AABBTileIterator::new(-100, -100, 100, 100), W, 0b100));
    assert!(!s.tiles_collide(AABBTileIterator::new(2, 2, 2, 3), W, 0b111));
    assert!(!s.has_chunk(ChunkRef { world: W, position: ChunkPosition { x: 62, y: 0 } }));
}

#[test]
fn colliders_take_part_by_mask_and_world() {
    let mut s = server();
    let p = Position { x: 3f64.to_bits(), y: 4f64.to_bits(), world: W };
    s.spawn_with_id(7, PLAYER, p).unwrap();
    let (position, boxes) = s.colliders_of(7, W, 0b001).unwrap();
    assert_eq!(position, p);
    assert_eq!(boxes.len(), 1);
    assert_eq!(boxes[0].h, 2f64.to_bits());
    let (_, boxes) = s.colliders_of(7, W, 0b110).unwrap();
    assert_eq!(boxes.len(), 2);
    assert_eq!(boxes[1].w, 0.5f64.to_bits());
    let (_, boxes) = s.colliders_of(7, W, 0b1000).unwrap();
    assert_eq!(boxes.len(), 0);
    let (_, boxes) = s.colliders_of(7, 3, 0b111).unwrap();
    assert_eq!(boxes.len(), 0);
    assert_eq!(s.colliders_of(8, W, 1).err(), Some(WorldError::UnknownEntity));
    let (position, feet) = s.get_collider(7, FEET).unwrap();
    assert_eq!(position, p);
    assert_eq!(feet.mask, 0b100);
    assert_eq!(s.get_collider(7, 99).err(), Some(WorldError::UnknownCollider));
    assert_eq!(s.get_collider(8, FEET).err(), Some(WorldError::UnknownEntity));
    assert_eq!(DEFAULT_NAME, 1);
}
