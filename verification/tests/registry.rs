use hydro::content::{
    Collider, ContentError, EntityRegistry, EntityType, EventRegistry, InitEnvironment, TileSet,
    TileSpec, AABB,
};
use hydro::message::{AnimationData, MessageS2C};
use hydro::names::{Names, DEFAULT_NAME, NO_NAME};
use hydro::server::Server;

fn tile(id: u32, mask: Option<u32>, data: u64) -> TileSpec {
    TileSpec { id: Some(id), collision_mask: mask, asset_position: Some((id as u8, 1)), data }
}

fn kind(colliders: Vec<(u32, Collider)>, animations: Vec<u32>) -> EntityType {
    EntityType {
        colliders,
        data: 1,
        data_metatable: 2,
        animations: animations
            .into_iter()
            .map(|id| {
                (
                    id,
                    AnimationData {
                        image: vec![id as u8, 7],
                        count: 3,
                        period: 0.25f64.to_bits(),
                        looped: false,
                        flip: true,
                    },
                )
            })
            .collect(),
        size: (2f64.to_bits(), 3f64.to_bits()),
    }
}

#[test]
fn names_get_their_identifier_once() {
    let mut names = Names::new();
    assert_eq!(names.len(), 2);
    assert_eq!(names.lookup(""), Some(NO_NAME));
    assert_eq!(names.lookup("default"), Some(DEFAULT_NAME));
    assert_eq!(names.lookup("overworld"), None);
    let a = names.intern("overworld").unwrap();
    let b = names.intern("grass").unwrap();
    assert_eq!(a, 2);
    assert_eq!(b, 3);
    assert_eq!(names.intern("overworld"), Some(a));
    assert_eq!(names.intern("default"), Some(1));
    assert_eq!(names.intern(""), Some(0));
    assert_eq!(names.len(), 4);
    assert_eq!(names.resolve(a), Some("overworld".to_string()));
    assert_eq!(names.resolve(b), Some("grass".to_string()));
    assert_eq!(names.resolve(0), Some("".to_string()));
    assert_eq!(names.resolve(4), None);
    assert_eq!(names.lookup("Grass"), None);
}

#[test]
fn tiles_are_numbered_in_the_order_of_registration() {
    let mut set = TileSet::new((vec![1, 2], 8));
    assert_eq!(set.len(), 0);
    assert!(set.by_id(0).is_none());
    set.register(tile(10, None, 100)).unwrap();
    set.register(tile(11, Some(6), 101)).unwrap();
    assert_eq!(set.len(), 2);
    let first = set.by_id(0).unwrap();
    assert_eq!((first.id, first.collision_mask, first.data), (0, 0, 100));
    assert_eq!(first.asset_position, Some((10, 1)));
    let second = set.get(11).unwrap();
    assert_eq!((second.id, second.collision_mask, second.data), (1, 6, 101));
    assert!(set.by_id(2).is_none());
    assert!(set.get(12).is_none());
}

#[test]
fn tile_without_a_name_or_with_a_used_name_is_refused() {
    let mut set = TileSet::new((vec![], 8));
    set.register(tile(10, None, 100)).unwrap();
    assert_eq!(set.register(tile(10, Some(1), 200)), Err(ContentError::DuplicateTile));
    assert_eq!(
        set.register(TileSpec { id: None, collision_mask: None, asset_position: None, data: 1 }),
        Err(ContentError::TileIdMissing)
    );
    assert_eq!(set.len(), 1);
    assert_eq!(set.get(10).unwrap().data, 100);
}

#[test]
fn default_tile_is_put_in_where_the_definition_has_none() {
    let set = TileSet::build((vec![5], 16), None, 77, &vec![tile(10, Some(1), 100)]).unwrap();
    assert_eq!(set.len(), 2);
    let default = set.by_id(0).unwrap();
    assert_eq!((default.id, default.collision_mask, default.data), (0, 0, 77));
    assert_eq!(default.asset_position, None);
    assert_eq!(set.get(DEFAULT_NAME).unwrap().id, 0);
    assert_eq!(set.by_id(1).unwrap().data, 100);
    assert_eq!(set.asset, (vec![5], 16));

    let given = TileSet::build((vec![], 16), Some(tile(20, Some(3), 5)), 77, &vec![]).unwrap();
    assert_eq!(given.len(), 1);
    assert_eq!(given.by_id(0).unwrap().data, 5);
    assert_eq!(given.by_id(0).unwrap().collision_mask, 3);
    assert!(given.get(DEFAULT_NAME).is_none());
}

#[test]
fn tileset_with_a_repeated_tile_is_refused_whole() {
    let twice = vec![tile(10, None, 1), tile(11, None, 2), tile(10, None, 3)];
    assert_eq!(TileSet::build((vec![], 16), None, 0, &twice).err(), Some(ContentError::DuplicateTile));
    let as_default = vec![tile(DEFAULT_NAME, None, 1)];
    assert_eq!(
        TileSet::build((vec![], 16), None, 0, &as_default).err(),
        Some(ContentError::DuplicateTile)
    );
    let nameless = vec![
        tile(10, None, 1),
        TileSpec { id: None, collision_mask: None, asset_position: None, data: 1 },
        tile(10, None, 3),
    ];
    assert_eq!(
        TileSet::build((vec![], 16), None, 0, &nameless).err(),
        Some(ContentError::TileIdMissing)
    );
    let mut env = InitEnvironment::new();
    env.register_tileset(5, (vec![], 16), None, 0, &vec![tile(10, None, 1)]).unwrap();
    assert_eq!(
        env.register_tileset(5, (vec![], 16), None, 0, &twice),
        Err(ContentError::DuplicateTile)
    );
    assert_eq!(env.tileset(5).unwrap().len(), 2);
    assert_eq!(env.register_tileset(6, (vec![], 16), None, 0, &twice), Err(ContentError::DuplicateTile));
    assert!(env.tileset(6).is_none());
}

#[test]
fn tileset_registered_again_takes_the_place_of_the_first() {
    let mut env = InitEnvironment::new();
    env.register_tileset(5, (vec![1], 16), None, 0, &vec![tile(10, None, 1)]).unwrap();
    env.register_tileset(6, (vec![2], 8), None, 0, &vec![]).unwrap();
    env.register_tileset(5, (vec![3], 4), None, 0, &vec![tile(11, None, 1), tile(12, None, 2)])
        .unwrap();
    assert_eq!(env.tile_sets.len(), 2);
    assert_eq!(env.tile_sets[0].0, 5);
    assert_eq!(env.tileset(5).unwrap().len(), 3);
    assert_eq!(env.tileset(5).unwrap().asset, (vec![3], 4));
    assert!(env.tileset(5).unwrap().get(10).is_none());
    assert_eq!(env.tileset(6).unwrap().len(), 1);
    assert!(env.tileset(7).is_none());
}

#[test]
fn entity_types_are_found_by_name() {
    let mut registry = EntityRegistry::new();
    assert!(registry.get(1).is_none());
    let body = Collider {
        aabb: AABB { x: 0, y: 0, w: 1f64.to_bits(), h: 1f64.to_bits() },
        mask: 0b0110,
    };
    registry.register(1, kind(vec![(30, body)], vec![DEFAULT_NAME, 40]));
    registry.register(2, kind(vec![], vec![DEFAULT_NAME]));
    let found = registry.get(1).unwrap();
    assert!(found.has_animation(40));
    assert!(found.has_animation(DEFAULT_NAME));
    assert!(!found.has_animation(41));
    assert_eq!(found.get_collider(30), Some(body));
    assert_eq!(found.get_collider(31), None);
    assert!(body.interacts(0b0100));
    assert!(body.interacts(0b1010));
    assert!(!body.interacts(0b1001));
    assert!(!body.interacts(0));
    registry.register(1, kind(vec![], vec![]));
    assert!(!registry.get(1).unwrap().has_animation(40));
    assert_eq!(registry.entities.len(), 2);
    assert!(registry.get(3).is_none());
}

#[test]
fn handlers_are_called_in_the_order_of_registration() {
    let mut events = EventRegistry::new();
    assert_eq!(events.handlers_for(1), Vec::<u64>::new());
    events.register(1, 100);
    events.register(2, 200);
    events.register(1, 101);
    events.register(1, 100);
    assert_eq!(events.handlers_for(1), vec![100, 101, 100]);
    assert_eq!(events.handlers_for(2), vec![200]);
    assert_eq!(events.handlers_for(3), Vec::<u64>::new());
    let mut env = InitEnvironment::new();
    env.register_event(9, 1);
    env.register_event(9, 2);
    let server = Server::new(env);
    assert_eq!(server.call_event(9), vec![1, 2]);
    assert_eq!(server.call_event(8), Vec::<u64>::new());
}

#[test]
fn content_bundle_lists_everything_in_the_order_of_registration() {
    let mut env = InitEnvironment::new();
    env.register_tileset(5, (vec![1, 2, 3], 16), None, 0, &vec![tile(10, None, 1)]).unwrap();
    env.register_tileset(6, (vec![4], 8), Some(tile(3, None, 0)), 0, &vec![]).unwrap();
    env.register_entity(20, kind(vec![], vec![DEFAULT_NAME, 40]));
    let server = Server::new(env);
    match server.content_message() {
        MessageS2C::LoadContent(content) => {
            assert_eq!(content.name, "hydro");
            assert_eq!(content.tilesets.len(), 2);
            assert_eq!(content.tilesets[0].0, 5);
            assert_eq!(content.tilesets[0].1.asset, vec![1, 2, 3]);
            assert_eq!(content.tilesets[0].1.size, 16);
            assert_eq!(content.tilesets[0].1.tiles, vec![None, Some((10, 1))]);
            assert_eq!(content.tilesets[1].0, 6);
            assert_eq!(content.tilesets[1].1.tiles, vec![Some((3, 1))]);
            assert_eq!(content.entities.len(), 1);
            assert_eq!(content.entities[0].0, 20);
            assert_eq!(content.entities[0].1.size, (2f64.to_bits(), 3f64.to_bits()));
            assert_eq!(content.entities[0].1.animations.len(), 2);
            assert_eq!(content.entities[0].1.animations[1].0, 40);
            assert_eq!(content.entities[0].1.animations[1].1.image, vec![40, 7]);
            assert_eq!(content.entities[0].1.animations[1].1.count, 3);
            assert_eq!(content.entities[0].1.animations[1].1.period, 0.25f64.to_bits());
            assert!(content.entities[0].1.animations[1].1.flip);
            assert!(!content.entities[0].1.animations[1].1.looped);
        }
        other => panic!("{:?}", other),
    }
}
