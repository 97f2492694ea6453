use std::collections::{HashMap, HashSet};

use hydro::client::ClientWorld;
use hydro::content::{EntityType, InitEnvironment, TileSpec};
use hydro::message::{AnimationData, MessageS2C};
use hydro::names::DEFAULT_NAME;
use hydro::pos::{ChunkOffset, ChunkPosition, Position, TilePosition};
use hydro::server::Server;
use hydro::session::{Client, ClientCameraType};
use hydro::world::{key_of, ChunkRef};

const GROUND: u32 = 4;
const STONE: u32 = 5;
const SAND: u32 = 6;
const MOB: u32 = 7;
const RUN: u32 = 8;

struct Dice(u64);

impl Dice {
    fn roll(&mut self, sides: u64) -> u64 {
        self.0 = self.0.wrapping_mul(6364136223846793005).wrapping_add(1442695040888963407);
        (self.0 >> 33) % sides
    }

    fn place(&mut self) -> Position {
        let x = self.roll(600) as f64 - 300.0 + 0.25;
        let y = self.roll(600) as f64 - 300.0 + 0.75;
        Position { x: x.to_bits(), y: y.to_bits(), world: 2 + self.roll(2) as u32 }
    }
}

fn server() -> Server {
    let mut env = InitEnvironment::new();
    let tiles = vec![
        TileSpec { id: Some(STONE), collision_mask: Some(1), asset_position: None, data: 1 },
        TileSpec { id: Some(SAND), collision_mask: None, asset_position: None, data: 2 },
    ];
    env.register_tileset(GROUND, (vec![], 16), None, 0, &tiles).unwrap();
    let moving = AnimationData { image: vec![], count: 1, period: 0, looped: true, flip: false };
    let still = AnimationData { image: vec![], count: 1, period: 0, looped: true, flip: false };
    env.register_entity(
        MOB,
        EntityType {
            colliders: vec![],
            data: 1,
            data_metatable: 2,
            animations: vec![(DEFAULT_NAME, still), (RUN, moving)],
            size: (0, 0),
        },
    );
    Server::new(env)
}

/// What a session holds of the order of the messages on one entity.
#[derive(Default)]
struct Order {
    known: HashSet<u128>,
}

impl Order {
    fn take(&mut self, message: &MessageS2C) {
        match message {
            MessageS2C::AddEntity(e) => assert!(self.known.insert(e.uuid)),
            MessageS2C::LoadChunk(_, _, entities) => {
                for e in entities {
                    assert!(self.known.insert(e.uuid));
                }
            }
            MessageS2C::RemoveEntity(id) => assert!(self.known.remove(id)),
            MessageS2C::UnloadChunk(_, ids) => {
                for id in ids {
                    assert!(self.known.remove(id));
                }
            }
            MessageS2C::UpdateEntityPosition(id, _) => assert!(self.known.contains(id)),
            MessageS2C::UpdateEntityAnimation(id, _) => assert!(self.known.contains(id)),
            _ => {}
        }
    }
}

fn watched(s: &Server, client: u128) -> Vec<ChunkRef> {
    let mut chunks = Vec::new();
    for (world, held) in s.worlds.iter() {
        for x in -20i16..=20 {
            for y in -20i16..=20 {
                let position = ChunkPosition { x, y };
                if let Some(chunk) = held.chunks.get(&key_of(position)) {
                    if chunk.viewers.contains(&client) {
                        chunks.push(ChunkRef { world: *world, position });
                    }
                }
            }
        }
    }
    chunks
}

#[test]
fn every_session_is_told_of_entities_in_order_and_can_rebuild_what_it_watches() {
    let mut s = server();
    let mut dice = Dice(7);
    let clients: Vec<u128> = vec![101, 102, 103];
    let mut orders: HashMap<u128, Order> = HashMap::new();
    let mut views: HashMap<u128, ClientWorld> = HashMap::new();
    for c in &clients {
        s.join_with_id(*c).unwrap();
        orders.insert(*c, Order::default());
        views.insert(*c, ClientWorld::new());
    }
    let mut alive: Vec<u128> = Vec::new();
    let mut next: u128 = 1000;
    for round in 0..600 {
        match dice.roll(9) {
            0 | 1 => {
                next += 1;
                s.spawn_with_id(next, MOB, dice.place()).unwrap();
                alive.push(next);
            }
            2 | 3 => {
                if !alive.is_empty() {
                    let id = alive[dice.roll(alive.len() as u64) as usize];
                    let mut to = dice.place();
                    if dice.roll(2) == 0 {
                        let from = s.entity(id).unwrap().position;
                        to = Position {
                            x: (f64::from_bits(from.x) + 7.5).to_bits(),
                            y: from.y,
                            world: from.world,
                        };
                    }
                    s.move_entity(id, to).unwrap();
                }
            }
            4 => {
                if !alive.is_empty() {
                    let id = alive.swap_remove(dice.roll(alive.len() as u64) as usize);
                    s.remove_entity(id).unwrap();
                }
            }
            5 => {
                if !alive.is_empty() {
                    let id = alive[dice.roll(alive.len() as u64) as usize];
                    s.set_animation(id, if dice.roll(2) == 0 { RUN } else { DEFAULT_NAME }).unwrap();
                }
            }
            6 => {
                let at = dice.place();
                let tile = if dice.roll(2) == 0 { STONE } else { SAND };
                s.set_tile(at.align_to_tile(), at.world, GROUND, tile).unwrap();
                s.get_data_at(dice.place().align_to_tile(), at.world, GROUND, round).unwrap();
            }
            7 => {
                let c = clients[dice.roll(3) as usize];
                let camera = match dice.roll(4) {
                    0 => ClientCameraType::Off,
                    1 if !alive.is_empty() => {
                        ClientCameraType::Entity(alive[dice.roll(alive.len() as u64) as usize])
                    }
                    _ => ClientCameraType::Position(dice.place()),
                };
                s.set_camera(c, camera).unwrap();
            }
            _ => {
                let c = clients[dice.roll(3) as usize];
                Client::tick(&mut s, c, &vec![], false).unwrap();
                s.advance_tick();
            }
        }
        for m in s.drain_outbound() {
            orders.get_mut(&m.to).unwrap().take(&m.message);
            views.get_mut(&m.to).unwrap().apply(m.message);
        }
        if round % 20 == 19 {
            for c in &clients {
                let view = &views[c];
                let chunks = watched(&s, *c);
                let mut expected: HashSet<u128> = HashSet::new();
                for at in &chunks {
                    let chunk = s.chunk_at(*at).unwrap();
                    assert!(view.holds(key_of(at.position)));
                    for index in [0usize, 31, 32, 500, 1023] {
                        let offset = ChunkOffset { x: (index % 32) as u8, y: (index / 32) as u8 };
                        let held = view.tile(key_of(at.position), GROUND, index).unwrap_or(0);
                        assert_eq!(held, chunk.tile_at(GROUND, offset));
                    }
                    for id in &chunk.entities {
                        assert!(view.knows(*id));
                        expected.insert(*id);
                    }
                }
                assert_eq!(orders[c].known, expected);
                assert_eq!(chunks.len() % 81, 0);
                assert!(chunks.len() <= 81);
            }
            for id in &alive {
                let e = s.entity(*id).unwrap();
                let home = ChunkRef { world: e.position.world, position: e.position.chunk() };
                assert!(s.chunk_at(home).unwrap().entities.contains(id));
            }
        }
    }
    let p = TilePosition { x: 1, y: 1 };
    assert_eq!(s.get_at(p, 9, GROUND).unwrap().id, 0);
}
