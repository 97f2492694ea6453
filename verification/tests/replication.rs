use hydro::client::ClientWorld;
use hydro::content::{Collider, EntityType, InitEnvironment, TileSpec, AABB};
use hydro::entity::Entity;
use hydro::message::{
    AnimationData, EntityAddMessage, MessageC2S, MessageS2C, Outbound, PlayerInputMessage,
    RunningAnimation,
};
use hydro::names::DEFAULT_NAME;
use hydro::pos::{ChunkPosition, Position, TilePosition, Vec2};
use hydro::scheduler::{Task, TaskAction};
use hydro::server::{Server, WorldError};
use hydro::session::{Client, ClientCameraType};
use hydro::world::{key_of, ChunkRef};

const W: u32 = 2;
const OTHER: u32 = 3;
const GROUND: u32 = 4;
const GRASS: u32 = 5;
const WALL: u32 = 6;
const PLAYER: u32 = 7;
const WALK: u32 = 8;
const BODY: u32 = 9;

const A: u128 = 0xa;
const B: u128 = 0xb;
const C: u128 = 0xc;
const E: u128 = 0xe0;
const F: u128 = 0xf0;

fn pos(x: f64, y: f64, world: u32) -> Position {
    Position { x: x.to_bits(), y: y.to_bits(), world }
}

fn vec2(x: f64, y: f64) -> Vec2 {
    Vec2 { x: x.to_bits(), y: y.to_bits() }
}

fn animation(count: u16) -> AnimationData {
    AnimationData { image: vec![1, 2, 3], count, period: 0.5f64.to_bits(), looped: true, flip: false }
}

fn content() -> InitEnvironment {
    let mut env = InitEnvironment::new();
    let tiles = vec![
        TileSpec { id: Some(GRASS), collision_mask: None, asset_position: Some((0, 0)), data: 901 },
        TileSpec { id: Some(WALL), collision_mask: Some(1), asset_position: Some((1, 0)), data: 902 },
    ];
    env.register_tileset(GROUND, (vec![9, 9, 9], 16), None, 900, &tiles).unwrap();
    env.register_entity(
        PLAYER,
        EntityType {
            colliders: vec![(
                BODY,
                Collider {
                    aabb: AABB {
                        x: 0f64.to_bits(),
                        y: 0f64.to_bits(),
                        w: 1f64.to_bits(),
                        h: 2f64.to_bits(),
                    },
                    mask: 1,
                },
            )],
            data: 10,
            data_metatable: 11,
            animations: vec![(DEFAULT_NAME, animation(1)), (WALK, animation(4))],
            size: (1f64.to_bits(), 2f64.to_bits()),
        },
    );
    env
}

fn server() -> Server {
    Server::new(content())
}

fn add(uuid: u128, x: f64, y: f64, id: u32, time: u32) -> EntityAddMessage {
    EntityAddMessage {
        uuid,
        entity_type: PLAYER,
        position: vec2(x, y),
        animation: RunningAnimation { id, time },
    }
}

fn to(client: u128, messages: &Vec<Outbound>) -> Vec<&MessageS2C> {
    messages.iter().filter(|m| m.to == client).map(|m| &m.message).collect()
}

fn at(x: i16, y: i16) -> ChunkRef {
    ChunkRef { world: W, position: ChunkPosition { x, y } }
}

#[test]
fn spawn_is_shown_to_the_viewer_once() {
    let mut s = server();
    s.join_with_id(C).unwrap();
    s.set_camera(C, ClientCameraType::Position(pos(0.0, 0.0, W))).unwrap();
    s.drain_outbound();
    s.spawn_with_id(E, PLAYER, pos(5.0, 5.0, W)).unwrap();
    let out = s.drain_outbound();
    assert_eq!(out.len(), 1);
    assert_eq!(out[0].to, C);
    assert_eq!(out[0].message, MessageS2C::AddEntity(add(E, 5.0, 5.0, DEFAULT_NAME, 0)));
    assert_eq!(s.drain_outbound().len(), 0);
}

#[test]
fn spawn_outside_every_window_is_shown_to_nobody() {
    let mut s = server();
    s.join_with_id(C).unwrap();
    s.set_camera(C, ClientCameraType::Position(pos(0.0, 0.0, W))).unwrap();
    s.drain_outbound();
    s.spawn_with_id(E, PLAYER, pos(5.0 * 32.0, 0.0, W)).unwrap();
    s.spawn_with_id(F, PLAYER, pos(5.0, 5.0, OTHER)).unwrap();
    assert_eq!(s.drain_outbound().len(), 0);
    assert_eq!(s.entity(E).unwrap().position, pos(160.0, 0.0, W));
    assert_eq!(s.entity(F).unwrap().type_id, PLAYER);
}

#[test]
fn spawn_is_refused_for_an_unknown_type_and_a_used_identifier() {
    let mut s = server();
    assert_eq!(s.spawn_with_id(E, 999, pos(0.0, 0.0, W)), Err(WorldError::UnknownEntityType));
    assert_eq!(s.entity(E), None);
    s.spawn_with_id(E, PLAYER, pos(0.0, 0.0, W)).unwrap();
    assert_eq!(s.spawn_with_id(E, PLAYER, pos(99.0, 0.0, W)), Err(WorldError::IdInUse));
    assert_eq!(s.entity(E).unwrap().position, pos(0.0, 0.0, W));
    assert_eq!(s.spawn_with_id(E, 999, pos(0.0, 0.0, W)), Err(WorldError::UnknownEntityType));
}

#[test]
fn spawned_entity_starts_in_its_default_animation() {
    let mut s = server();
    s.advance_tick();
    s.advance_tick();
    s.spawn_with_id(E, PLAYER, pos(1.5, -1.5, W)).unwrap();
    let e: Entity = s.entity(E).unwrap();
    assert_eq!(e.uuid, E);
    assert_eq!(e.animation.animation, DEFAULT_NAME);
    assert_eq!(e.animation.begin_time, 2);
    assert_eq!(e.data_metatable, 11);
    assert!(!e.removed);
    assert_eq!(s.animation_time(E), Some(0));
    s.advance_tick();
    assert_eq!(s.animation_time(E), Some(1));
    assert_eq!(e.create_add_message(5), add(E, 1.5, -1.5, DEFAULT_NAME, 3));
}

#[test]
fn entity_stands_on_the_chunk_under_its_position() {
    let mut s = server();
    s.spawn_with_id(E, PLAYER, pos(31.0, 0.0, W)).unwrap();
    assert_eq!(s.chunk_at(at(0, 0)).unwrap().entities, vec![E]);
    s.move_entity(E, pos(32.0, -0.5, W)).unwrap();
    assert_eq!(s.chunk_at(at(0, 0)).unwrap().entities, Vec::<u128>::new());
    assert_eq!(s.chunk_at(at(1, -1)).unwrap().entities, vec![E]);
    assert!(s.chunk_at(at(1, 0)).is_none());
    s.move_entity(E, pos(-0.5, -33.0, W)).unwrap();
    assert_eq!(s.chunk_at(at(1, -1)).unwrap().entities, Vec::<u128>::new());
    assert_eq!(s.chunk_at(at(-1, -2)).unwrap().entities, vec![E]);
    assert!(s.chunk_at(at(0, -2)).is_none());
    s.move_entity(E, pos(0.0, 0.0, OTHER)).unwrap();
    assert_eq!(s.chunk_at(at(-1, -2)).unwrap().entities, Vec::<u128>::new());
    assert_eq!(
        s.chunk_at(ChunkRef { world: OTHER, position: ChunkPosition { x: 0, y: 0 } })
            .unwrap()
            .entities,
        vec![E]
    );
    let removed = s.remove_entity(E).unwrap();
    assert!(removed.removed);
    assert_eq!(removed.uuid, E);
    assert_eq!(
        s.chunk_at(ChunkRef { world: OTHER, position: ChunkPosition { x: 0, y: 0 } })
            .unwrap()
            .entities,
        Vec::<u128>::new()
    );
    assert_eq!(s.entity(E), None);
}

#[test]
fn chunk_crossing_removes_for_old_viewers_and_adds_for_new() {
    let mut s = server();
    s.join_with_id(A).unwrap();
    s.join_with_id(B).unwrap();
    s.set_camera(A, ClientCameraType::Position(pos(-128.0, 0.0, W))).unwrap();
    s.set_camera(B, ClientCameraType::Position(pos(160.0, 0.0, W))).unwrap();
    s.spawn_with_id(E, PLAYER, pos(31.0, 0.0, W)).unwrap();
    assert_eq!(s.chunk_at(at(0, 0)).unwrap().viewers, vec![A]);
    assert_eq!(s.chunk_at(at(1, 0)).unwrap().viewers, vec![B]);
    s.drain_outbound();
    s.move_entity(E, pos(32.0, 0.0, W)).unwrap();
    let out = s.drain_outbound();
    assert_eq!(to(A, &out), vec![&MessageS2C::RemoveEntity(E)]);
    assert_eq!(to(B, &out), vec![&MessageS2C::AddEntity(add(E, 31.0, 0.0, DEFAULT_NAME, 0))]);
    assert_eq!(out.len(), 2);
    assert_eq!(out[0].to, B);
    assert_eq!(out[1].to, A);
    assert_eq!(s.entity(E).unwrap().position, pos(32.0, 0.0, W));
}

#[test]
fn chunk_crossing_updates_for_viewers_of_both_chunks() {
    let mut s = server();
    s.join_with_id(A).unwrap();
    s.join_with_id(B).unwrap();
    s.join_with_id(C).unwrap();
    s.set_camera(A, ClientCameraType::Position(pos(-128.0, 0.0, W))).unwrap();
    s.set_camera(B, ClientCameraType::Position(pos(160.0, 0.0, W))).unwrap();
    s.set_camera(C, ClientCameraType::Position(pos(0.0, 0.0, W))).unwrap();
    s.spawn_with_id(E, PLAYER, pos(31.0, 0.0, W)).unwrap();
    s.drain_outbound();
    s.move_entity(E, pos(32.0, 1.0, W)).unwrap();
    let out = s.drain_outbound();
    assert_eq!(to(A, &out), vec![&MessageS2C::RemoveEntity(E)]);
    assert_eq!(to(B, &out), vec![&MessageS2C::AddEntity(add(E, 31.0, 0.0, DEFAULT_NAME, 0))]);
    assert_eq!(to(C, &out), vec![&MessageS2C::UpdateEntityPosition(E, vec2(32.0, 1.0))]);
    assert_eq!(out.len(), 3);
}

#[test]
fn move_inside_a_chunk_updates_its_viewers() {
    let mut s = server();
    s.join_with_id(A).unwrap();
    s.join_with_id(B).unwrap();
    s.set_camera(A, ClientCameraType::Position(pos(0.0, 0.0, W))).unwrap();
    s.set_camera(B, ClientCameraType::Position(pos(10.0 * 32.0, 0.0, W))).unwrap();
    s.spawn_with_id(E, PLAYER, pos(1.0, 1.0, W)).unwrap();
    s.drain_outbound();
    s.move_entity(E, pos(2.25, 31.5, W)).unwrap();
    let out = s.drain_outbound();
    assert_eq!(out.len(), 1);
    assert_eq!(out[0].to, A);
    assert_eq!(out[0].message, MessageS2C::UpdateEntityPosition(E, vec2(2.25, 31.5)));
    assert_eq!(s.move_entity(F, pos(0.0, 0.0, W)), Err(WorldError::UnknownEntity));
    assert_eq!(s.drain_outbound().len(), 0);
}

#[test]
fn camera_move_by_one_chunk_swaps_one_column() {
    let mut s = server();
    s.join_with_id(C).unwrap();
    s.spawn_with_id(E, PLAYER, pos(1.0, 1.0, W)).unwrap();
    s.spawn_with_id(F, PLAYER, pos(5.0 * 32.0 + 1.0, 33.0, W)).unwrap();
    s.set_camera(C, ClientCameraType::Position(pos(0.0, 0.0, W))).unwrap();
    let first = s.drain_outbound();
    assert_eq!(first.len(), 82);
    s.set_camera(C, ClientCameraType::Position(pos(32.0, 0.0, W))).unwrap();
    let out = s.drain_outbound();
    assert_eq!(out.len(), 19);
    for (i, m) in out.iter().enumerate() {
        assert_eq!(m.to, C);
        if i < 9 {
            assert_eq!(
                m.message,
                MessageS2C::UnloadChunk(ChunkPosition { x: -4, y: i as i16 - 4 }, vec![])
            );
        } else if i < 18 {
            let y = i as i16 - 9 - 4;
            let entities = if y == 1 { vec![add(F, 161.0, 33.0, DEFAULT_NAME, 0)] } else { vec![] };
            assert_eq!(
                m.message,
                MessageS2C::LoadChunk(ChunkPosition { x: 5, y }, vec![], entities)
            );
        } else {
            assert_eq!(m.message, MessageS2C::CameraInfo(vec2(32.0, 0.0)));
        }
    }
    for x in -5i16..=6 {
        for y in -5i16..=5 {
            let watched = (-3..=5).contains(&x) && (-4..=4).contains(&y);
            match s.chunk_at(at(x, y)) {
                Some(chunk) => assert_eq!(chunk.viewers, if watched { vec![C] } else { vec![] }),
                None => assert!(!watched && !((-4..=4).contains(&x) && (-4..=4).contains(&y))),
            }
        }
    }
}

#[test]
fn first_camera_loads_the_whole_window_in_walk_order() {
    let mut s = server();
    s.join_with_id(C).unwrap();
    s.spawn_with_id(E, PLAYER, pos(5.0, 5.0, W)).unwrap();
    s.set_tile(TilePosition { x: 33, y: -1 }, W, GROUND, WALL).unwrap();
    s.set_camera(C, ClientCameraType::Position(pos(0.0, 0.0, W))).unwrap();
    let out = s.drain_outbound();
    assert_eq!(out.len(), 82);
    for j in 0..81usize {
        let x = (j / 9) as i16 - 4;
        let y = (j % 9) as i16 - 4;
        match &out[j].message {
            MessageS2C::LoadChunk(position, layers, entities) => {
                assert_eq!(*position, ChunkPosition { x, y });
                if (x, y) == (0, 0) {
                    assert_eq!(*entities, vec![add(E, 5.0, 5.0, DEFAULT_NAME, 0)]);
                } else {
                    assert_eq!(entities.len(), 0);
                }
                if (x, y) == (1, -1) {
                    assert_eq!(layers.len(), 1);
                    assert_eq!(layers[0].0, GROUND);
                    assert_eq!(layers[0].1.len(), 1024);
                    for (k, tile) in layers[0].1.iter().enumerate() {
                        assert_eq!(*tile, if k == 1 + 32 * 31 { 2 } else { 0 });
                    }
                } else {
                    assert_eq!(layers.len(), 0);
                }
            }
            other => panic!("{:?}", other),
        }
    }
    assert_eq!(out[81].message, MessageS2C::CameraInfo(vec2(0.0, 0.0)));
}

#[test]
fn camera_in_another_world_unloads_everything_and_loads_anew() {
    let mut s = server();
    s.join_with_id(C).unwrap();
    s.spawn_with_id(E, PLAYER, pos(5.0, 5.0, W)).unwrap();
    s.set_camera(C, ClientCameraType::Position(pos(0.0, 0.0, W))).unwrap();
    s.drain_outbound();
    s.set_camera(C, ClientCameraType::Position(pos(0.0, 0.0, OTHER))).unwrap();
    let out = s.drain_outbound();
    assert_eq!(out.len(), 163);
    for j in 0..81usize {
        let position = ChunkPosition { x: (j / 9) as i16 - 4, y: (j % 9) as i16 - 4 };
        let ids = if j == 40 { vec![E] } else { vec![] };
        assert_eq!(out[j].message, MessageS2C::UnloadChunk(position, ids));
        assert_eq!(out[81 + j].message, MessageS2C::LoadChunk(position, vec![], vec![]));
    }
    assert_eq!(s.chunk_at(at(0, 0)).unwrap().viewers, Vec::<u128>::new());
    s.set_camera(C, ClientCameraType::Off).unwrap();
    let out = s.drain_outbound();
    assert_eq!(out.len(), 81);
    assert_eq!(s.set_camera(F, ClientCameraType::Off), Err(WorldError::UnknownClient));
}

#[test]
fn camera_left_of_the_origin_looks_at_the_chunk_left_of_it() {
    let mut s = server();
    s.join_with_id(C).unwrap();
    s.set_camera(C, ClientCameraType::Position(pos(-0.5, 0.0, W))).unwrap();
    assert_eq!(s.chunk_at(at(-5, 0)).unwrap().viewers, vec![C]);
    assert_eq!(s.chunk_at(at(3, 4)).unwrap().viewers, vec![C]);
    assert!(s.chunk_at(at(4, 0)).is_none());
    assert!(s.chunk_at(at(-6, 0)).is_none());
    s.spawn_with_id(E, PLAYER, pos(-0.5, 31.9, W)).unwrap();
    assert_eq!(s.chunk_at(at(-1, 0)).unwrap().entities, vec![E]);
}

#[test]
fn same_camera_again_sends_only_its_position() {
    let mut s = server();
    s.join_with_id(C).unwrap();
    s.set_camera(C, ClientCameraType::Position(pos(3.0, 3.0, W))).unwrap();
    s.drain_outbound();
    s.set_camera(C, ClientCameraType::Position(pos(31.0, 0.5, W))).unwrap();
    let out = s.drain_outbound();
    assert_eq!(out.len(), 1);
    assert_eq!(out[0].message, MessageS2C::CameraInfo(vec2(31.0, 0.5)));
}

#[test]
fn window_is_cut_off_at_the_edge_of_the_coordinate_range() {
    let mut s = server();
    s.join_with_id(C).unwrap();
    let x = 32767.0 * 32.0;
    s.set_camera(C, ClientCameraType::Position(pos(x, 0.0, W))).unwrap();
    assert_eq!(s.chunk_at(at(32767, 0)).unwrap().viewers, vec![C]);
    assert_eq!(s.chunk_at(at(32763, -4)).unwrap().viewers, vec![C]);
    assert_eq!(s.chunk_at(at(32765, 4)).unwrap().viewers, vec![C]);
    assert!(s.chunk_at(at(-32768, 0)).is_none());
    assert!(s.chunk_at(at(-32765, -4)).is_none());
    assert!(s.chunk_at(at(32762, 0)).is_none());
    let out = s.drain_outbound();
    assert_eq!(out.len(), 46);
    assert_eq!(out[0].message, MessageS2C::LoadChunk(ChunkPosition { x: 32763, y: -4 }, vec![], vec![]));
    assert_eq!(out[44].message, MessageS2C::LoadChunk(ChunkPosition { x: 32767, y: 4 }, vec![], vec![]));
    let (world, chunks) =
        ClientCameraType::Position(pos(x, -32768.0 * 32.0, W)).get_loaded_chunks(&s.entities);
    assert_eq!(world, W);
    assert_eq!(chunks.len(), 25);
    assert_eq!(chunks[0], ChunkPosition { x: 32763, y: -32768 });
    assert_eq!(chunks[24], ChunkPosition { x: 32767, y: -32764 });
    let (world, chunks) = ClientCameraType::Position(pos(0.0, 0.0, W)).get_loaded_chunks(&s.entities);
    assert_eq!((world, chunks.len()), (W, 81));
    assert_eq!(chunks[0], ChunkPosition { x: -4, y: -4 });
    assert_eq!(chunks[9], ChunkPosition { x: -3, y: -4 });
    let (world, chunks) = ClientCameraType::Off.get_loaded_chunks(&s.entities);
    assert_eq!((world, chunks.len()), (0, 0));
    s.set_camera(C, ClientCameraType::Position(pos(x - 32.0, 0.0, W))).unwrap();
    let out = s.drain_outbound();
    assert_eq!(out.len(), 10);
    assert_eq!(s.chunk_at(at(32762, 0)).unwrap().viewers, vec![C]);
}

#[test]
fn reached_chunk_is_announced_once_for_the_current_tick() {
    let mut s = server();
    s.advance_tick();
    s.get_chunk(ChunkPosition { x: 3, y: -2 }, W);
    s.get_chunk(ChunkPosition { x: 3, y: -2 }, W);
    s.get_chunk(ChunkPosition { x: 3, y: -2 }, OTHER);
    assert_eq!(
        s.get_next_scheduled_task(),
        Some(Task { run_on: 1, task: TaskAction::LoadChunk(W, ChunkPosition { x: 3, y: -2 }) })
    );
    assert_eq!(
        s.get_next_scheduled_task(),
        Some(Task { run_on: 1, task: TaskAction::LoadChunk(OTHER, ChunkPosition { x: 3, y: -2 }) })
    );
    assert_eq!(s.get_next_scheduled_task(), None);
    assert!(s.has_chunk(at(3, -2)));
    assert!(!s.has_chunk(at(3, -1)));
    assert_eq!(key_of(ChunkPosition { x: -32768, y: -32768 }), 0);
    assert_eq!(key_of(ChunkPosition { x: 0, y: 0 }), 32768 * 65536 + 32768);
    assert_eq!(key_of(ChunkPosition { x: 32767, y: 32767 }), u32::MAX);
}

#[test]
fn animation_change_is_sent_to_viewers() {
    let mut s = server();
    s.join_with_id(C).unwrap();
    s.set_camera(C, ClientCameraType::Position(pos(0.0, 0.0, W))).unwrap();
    s.spawn_with_id(E, PLAYER, pos(5.0, 5.0, W)).unwrap();
    for _ in 0..10 {
        s.advance_tick();
    }
    s.drain_outbound();
    s.set_animation(E, WALK).unwrap();
    let out = s.drain_outbound();
    assert_eq!(out.len(), 1);
    assert_eq!(
        out[0].message,
        MessageS2C::UpdateEntityAnimation(E, RunningAnimation { id: WALK, time: 0 })
    );
    assert_eq!(s.entity(E).unwrap().animation.begin_time, 10);
    s.set_animation_time(E, 4).unwrap();
    let out = s.drain_outbound();
    assert_eq!(
        out[0].message,
        MessageS2C::UpdateEntityAnimation(E, RunningAnimation { id: WALK, time: 4 })
    );
    assert_eq!(s.entity(E).unwrap().animation.begin_time, 6);
    assert_eq!(s.animation_time(E), Some(4));
    assert_eq!(s.set_animation(E, 12345), Err(WorldError::UnknownAnimation));
    assert_eq!(s.set_animation(F, WALK), Err(WorldError::UnknownEntity));
    assert_eq!(s.set_animation_time(E, 11), Err(WorldError::TimeBeforeStart));
    assert_eq!(s.set_animation_time(F, 0), Err(WorldError::UnknownEntity));
    assert_eq!(s.animation_time(F), None);
    assert_eq!(s.entity(E).unwrap().animation.animation, WALK);
    assert_eq!(s.drain_outbound().len(), 0);
}

#[test]
fn removal_is_sent_to_viewers() {
    let mut s = server();
    s.join_with_id(A).unwrap();
    s.join_with_id(B).unwrap();
    s.set_camera(A, ClientCameraType::Position(pos(0.0, 0.0, W))).unwrap();
    s.set_camera(B, ClientCameraType::Position(pos(32.0, 32.0, W))).unwrap();
    s.spawn_with_id(E, PLAYER, pos(5.0, 5.0, W)).unwrap();
    s.drain_outbound();
    s.remove_entity(E).unwrap();
    let out = s.drain_outbound();
    assert_eq!(to(A, &out), vec![&MessageS2C::RemoveEntity(E)]);
    assert_eq!(to(B, &out), vec![&MessageS2C::RemoveEntity(E)]);
    assert_eq!(out.len(), 2);
    assert_eq!(s.remove_entity(E), Err(WorldError::UnknownEntity));
}

#[test]
fn camera_that_follows_an_entity_tracks_it_each_tick() {
    let mut s = server();
    s.join_with_id(C).unwrap();
    s.spawn_with_id(E, PLAYER, pos(0.0, 0.0, W)).unwrap();
    s.set_camera(C, ClientCameraType::Entity(E)).unwrap();
    assert_eq!(s.drain_outbound().len(), 82);
    s.move_entity(E, pos(32.0, 0.0, W)).unwrap();
    let out = s.drain_outbound();
    assert_eq!(to(C, &out), vec![&MessageS2C::UpdateEntityPosition(E, vec2(32.0, 0.0))]);
    assert!(s.chunk_at(at(5, 0)).is_none());
    Client::tick(&mut s, C, &vec![], false).unwrap();
    let out = s.drain_outbound();
    assert_eq!(out.len(), 19);
    assert_eq!(out[18].message, MessageS2C::CameraInfo(vec2(32.0, 0.0)));
    assert_eq!(s.chunk_at(at(5, 0)).unwrap().viewers, vec![C]);
    assert_eq!(s.chunk_at(at(-4, 0)).unwrap().viewers, Vec::<u128>::new());
    Client::tick(&mut s, C, &vec![], false).unwrap();
    let out = s.drain_outbound();
    assert_eq!(out.len(), 1);
    s.remove_entity(E).unwrap();
    s.drain_outbound();
    Client::tick(&mut s, C, &vec![], false).unwrap();
    let out = s.drain_outbound();
    assert_eq!(out.len(), 81);
    assert_eq!(s.chunk_at(at(5, 0)).unwrap().viewers, Vec::<u128>::new());
    assert_eq!(Client::tick(&mut s, F, &vec![], false), Err(WorldError::UnknownClient));
}

#[test]
fn session_that_leaves_watches_nothing() {
    let mut s = server();
    s.join_with_id(A).unwrap();
    s.join_with_id(B).unwrap();
    assert_eq!(s.join_with_id(A), Err(WorldError::IdInUse));
    s.set_camera(A, ClientCameraType::Position(pos(0.0, 0.0, W))).unwrap();
    s.set_camera(B, ClientCameraType::Position(pos(0.0, 0.0, W))).unwrap();
    Client::tick(&mut s, A, &vec![], true).unwrap();
    assert_eq!(s.is_closed(A), Some(true));
    assert_eq!(s.is_closed(B), Some(false));
    assert_eq!(s.is_closed(C), None);
    s.drain_outbound();
    let gone = s.leave(A).unwrap();
    assert_eq!(gone.id, A);
    assert!(gone.closed);
    assert_eq!(gone.camera, ClientCameraType::Off);
    assert_eq!(s.drain_outbound().len(), 81);
    assert_eq!(s.chunk_at(at(0, 0)).unwrap().viewers, vec![B]);
    assert_eq!(s.chunk_at(at(4, -4)).unwrap().viewers, vec![B]);
    assert_eq!(s.is_closed(A), None);
    assert!(s.leave(A).is_err());
    s.spawn_with_id(E, PLAYER, pos(1.0, 1.0, W)).unwrap();
    let out = s.drain_outbound();
    assert_eq!(out.len(), 1);
    assert_eq!(out[0].to, B);
}

#[test]
fn edge_events_of_all_frames_of_a_tick_are_united() {
    let mut s = server();
    s.join_with_id(C).unwrap();
    let first = MessageC2S::PlayerInput(PlayerInputMessage {
        keys_down: vec![0x41],
        keys_pressed: vec![0x41],
        keys_released: vec![0x43],
        buttons_down: vec![hydro::message::MouseButton::Left],
        buttons_pressed: vec![hydro::message::MouseButton::Left],
        buttons_released: vec![],
        mouse_position: vec2(1.0, 2.0),
    });
    let second = MessageC2S::PlayerInput(PlayerInputMessage {
        keys_down: vec![0x42],
        keys_pressed: vec![0x42],
        keys_released: vec![],
        buttons_down: vec![],
        buttons_pressed: vec![hydro::message::MouseButton::Middle],
        buttons_released: vec![hydro::message::MouseButton::Left],
        mouse_position: vec2(3.0, 4.0),
    });
    Client::tick(&mut s, C, &vec![first, second], false).unwrap();
    {
        let c = s.clients.get(&C).unwrap();
        assert!(c.is_key_pressed(0x41));
        assert!(c.is_key_pressed(0x42));
        assert!(!c.is_key_pressed(0x43));
        assert!(c.is_key_released(0x43));
        assert!(!c.is_key_released(0x41));
        assert!(!c.is_key_down(0x41));
        assert!(c.is_key_down(0x42));
        assert!(!c.is_button_down(0));
        assert!(c.is_button_pressed(0));
        assert!(c.is_button_pressed(2));
        assert!(!c.is_button_pressed(1));
        assert!(c.is_button_released(0));
        assert!(!c.is_button_released(2));
        assert!(!c.is_button_down(200));
        assert_eq!(c.player_input.mouse_position, vec2(3.0, 4.0));
        assert!(!c.closed);
    }
    Client::tick(&mut s, C, &vec![], false).unwrap();
    let c = s.clients.get(&C).unwrap();
    assert!(!c.is_key_pressed(0x41));
    assert!(!c.is_key_pressed(0x42));
    assert!(!c.is_key_down(0x42));
    assert!(!c.is_button_pressed(0));
    assert_eq!(c.player_input.mouse_position, vec2(0.0, 0.0));
}

#[test]
fn session_rebuilds_the_world_from_what_it_is_sent() {
    let mut s = server();
    let mut view = ClientWorld::new();
    s.join_with_id(C).unwrap();
    s.join_with_id(A).unwrap();
    s.spawn_with_id(E, PLAYER, pos(5.0, 5.0, W)).unwrap();
    s.set_tile(TilePosition { x: 3, y: 4 }, W, GROUND, WALL).unwrap();
    s.set_camera(C, ClientCameraType::Position(pos(0.0, 0.0, W))).unwrap();
    s.set_camera(A, ClientCameraType::Position(pos(64.0, 0.0, W))).unwrap();
    s.set_tile(TilePosition { x: -1, y: -1 }, W, GROUND, GRASS).unwrap();
    s.set_tile(TilePosition { x: 3, y: 4 }, W, GROUND, GRASS).unwrap();
    s.set_tile(TilePosition { x: 200, y: 0 }, W, GROUND, WALL).unwrap();
    s.spawn_with_id(F, PLAYER, pos(-40.0, 70.0, W)).unwrap();
    s.move_entity(E, pos(200.0, 1.0, W)).unwrap();
    s.move_entity(F, pos(-41.0, 70.5, W)).unwrap();
    s.set_animation(F, WALK).unwrap();
    s.set_camera(C, ClientCameraType::Position(pos(96.0, 33.0, W))).unwrap();
    s.move_entity(E, pos(201.0, 1.0, W)).unwrap();
    s.set_tile(TilePosition { x: 201, y: 1 }, W, GROUND, WALL).unwrap();
    for m in s.drain_outbound() {
        if m.to == C {
            view.apply(m.message);
        }
    }
    for x in -10i16..=12 {
        for y in -10i16..=10 {
            let watched = (-1..=7).contains(&x) && (-3..=5).contains(&y);
            let position = ChunkPosition { x, y };
            assert_eq!(view.holds(key_of(position)), watched);
            if watched {
                let chunk = s.chunk_at(at(x, y)).unwrap();
                assert_eq!(chunk.viewers.contains(&C), true);
                for index in [0usize, 1, 33, 3 + 4 * 32, 8 + 32 * 0, 9 + 32, 1023] {
                    let offset = hydro::pos::ChunkOffset { x: (index % 32) as u8, y: (index / 32) as u8 };
                    let seen = view.tile(key_of(position), GROUND, index).unwrap_or(0);
                    assert_eq!(seen, chunk.tile_at(GROUND, offset));
                }
                for id in &chunk.entities {
                    assert!(view.knows(*id));
                }
            }
        }
    }
    assert!(view.knows(E));
    assert!(!view.knows(F));
    assert_eq!(view.tile(key_of(ChunkPosition { x: 6, y: 0 }), GROUND, 8), Some(2));
    assert_eq!(view.tile(key_of(ChunkPosition { x: 6, y: 0 }), GROUND, 9 + 32), Some(2));
    assert_eq!(view.tile(key_of(ChunkPosition { x: 0, y: 0 }), GROUND, 3 + 4 * 32), Some(1));
    assert_eq!(view.entities.get(&E).unwrap().position, vec2(201.0, 1.0));
}
