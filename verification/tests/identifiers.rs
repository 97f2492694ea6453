use hydro::content::{EntityType, InitEnvironment};
use hydro::entity::Entity;
use hydro::frame::{frame, unframe, FrameError};
use hydro::ident::{id_text, parse_id};
use hydro::keys::key_code;
use hydro::message::MouseButton;
use hydro::pos::Position;
use hydro::server::{Server, WorldError};

fn server() -> Server {
    let mut env = InitEnvironment::new();
    env.register_entity(
        20,
        EntityType { colliders: vec![], data: 1, data_metatable: 2, animations: vec![], size: (0, 0) },
    );
    Server::new(env)
}

#[test]
fn identifier_is_written_in_the_hyphenated_form() {
    assert_eq!(
        id_text(0xa1a2a3a4_b1b2_c1c2_d1d2_d3d4d5d6d7d8),
        "a1a2a3a4-b1b2-c1c2-d1d2-d3d4d5d6d7d8"
    );
    assert_eq!(id_text(0), "00000000-0000-0000-0000-000000000000");
    assert_eq!(id_text(u128::MAX), "ffffffff-ffff-ffff-ffff-ffffffffffff");
}

#[test]
fn identifier_is_read_back_from_its_text() {
    assert_eq!(
        parse_id("a1a2a3a4-b1b2-c1c2-d1d2-d3d4d5d6d7d8"),
        Ok(0xa1a2a3a4_b1b2_c1c2_d1d2_d3d4d5d6d7d8)
    );
    assert_eq!(parse_id("A1A2A3A4B1B2C1C2D1D2D3D4D5D6D7D8"), Ok(0xa1a2a3a4_b1b2_c1c2_d1d2_d3d4d5d6d7d8));
    for id in [0u128, 1, 0xdead_beef, u128::MAX, 1 << 127, 0x0123_4567_89ab_cdef_0123_4567_89ab_cdef] {
        assert_eq!(parse_id(&id_text(id)), Ok(id));
    }
    assert_eq!(parse_id(""), Err(WorldError::MalformedUuid));
    assert_eq!(parse_id("not an identifier"), Err(WorldError::MalformedUuid));
    assert_eq!(parse_id("a1a2a3a4-b1b2-c1c2-d1d2-d3d4d5d6d7d"), Err(WorldError::MalformedUuid));
    assert_eq!(parse_id("g1a2a3a4-b1b2-c1c2-d1d2-d3d4d5d6d7d8"), Err(WorldError::MalformedUuid));
}

#[test]
fn entity_is_found_by_the_text_of_its_identifier() {
    let mut s = server();
    let p = Position { x: 0, y: 0, world: 2 };
    let id = Entity::new(&mut s, 20, p).unwrap();
    assert_eq!((id >> 76) & 0xf, 4);
    assert_eq!((id >> 62) & 0x3, 2);
    let other = Entity::new(&mut s, 20, p).unwrap();
    assert_ne!(id, other);
    let entity = s.entity(id).unwrap();
    assert_eq!(entity.uuid, id);
    assert_eq!(entity.id(), id_text(id));
    assert_eq!(s.get_entity(&entity.id()), Ok(Some(entity)));
    assert_eq!(s.get_entity(&id_text(id ^ 1)), Ok(None));
    assert_eq!(s.get_entity("xyz"), Err(WorldError::MalformedUuid));
    assert_eq!(Entity::new(&mut s, 21, p), Err(WorldError::UnknownEntityType));
    assert_eq!(s.entities.len(), 2);
}

#[test]
fn session_is_found_by_the_text_of_its_identifier() {
    let mut s = server();
    let a = s.join().unwrap();
    let b = s.join().unwrap();
    assert_ne!(a, b);
    assert_eq!((a >> 76) & 0xf, 4);
    assert_eq!(s.get_client(&id_text(a)).unwrap().unwrap().id, a);
    assert_eq!(s.get_client(&id_text(b)).unwrap().unwrap().id, b);
    assert!(s.get_client(&id_text(a ^ b)).unwrap().is_none());
    assert!(s.get_client("?").is_err());
    assert_eq!(s.clients.len(), 2);
}

#[test]
fn frame_is_the_base64_text_of_the_payload() {
    assert_eq!(frame(b"hello"), "aGVsbG8=");
    assert_eq!(frame(b""), "");
    assert_eq!(frame(&[0xfb, 0xff, 0xfe]), "+//+");
    assert_eq!(frame(&[0, 1]), "AAE=");
    assert_eq!(unframe("aGVsbG8="), Ok(b"hello".to_vec()));
    assert_eq!(unframe(""), Ok(vec![]));
    assert_eq!(unframe("+//+"), Ok(vec![0xfb, 0xff, 0xfe]));
    let payload: Vec<u8> = (0..=255u8).collect();
    assert_eq!(unframe(&frame(&payload)), Ok(payload));
    assert_eq!(unframe("aGVsbG8"), Err(FrameError::NotBase64));
    assert_eq!(unframe("a$Vs"), Err(FrameError::NotBase64));
    assert_eq!(unframe("hello world"), Err(FrameError::NotBase64));
}

#[test]
fn keys_go_by_their_names() {
    assert_eq!(key_code("0"), Some(0x30));
    assert_eq!(key_code("9"), Some(0x39));
    assert_eq!(key_code("a"), Some(0x41));
    assert_eq!(key_code("m"), Some(0x4d));
    assert_eq!(key_code("z"), Some(0x5a));
    assert_eq!(key_code("right"), Some(0xff53));
    assert_eq!(key_code("left"), Some(0xff51));
    assert_eq!(key_code("down"), Some(0xff54));
    assert_eq!(key_code("up"), Some(0xff52));
    assert_eq!(key_code("lshift"), Some(0xffe1));
    assert_eq!(key_code("rshift"), Some(0xffe2));
    assert_eq!(key_code("A"), None);
    assert_eq!(key_code(""), None);
    assert_eq!(key_code("ab"), None);
    assert_eq!(key_code("Right"), None);
    assert_eq!(key_code("/"), None);
    assert_eq!(key_code(":"), None);
    assert_eq!(key_code("{"), None);
    assert_eq!(key_code("é"), None);
}

#[test]
fn buttons_go_by_their_numbers() {
    assert_eq!(MouseButton::Left.code(), 0);
    assert_eq!(MouseButton::Right.code(), 1);
    assert_eq!(MouseButton::Middle.code(), 2);
    assert_eq!(MouseButton::from_code(0), Some(MouseButton::Left));
    assert_eq!(MouseButton::from_code(1), Some(MouseButton::Right));
    assert_eq!(MouseButton::from_code(2), Some(MouseButton::Middle));
    assert_eq!(MouseButton::from_code(3), None);
    assert_eq!(MouseButton::from_code(255), None);
}
