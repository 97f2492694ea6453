//! Identifiers of entities and sessions: 128-bit numbers that are drawn at
//! random and written as text for scripts.

use vstd::prelude::*;
use crate::entity::Entity;
use crate::names::EntityTypeId;
use crate::pos::Position;
use crate::server::{Server, WorldError};
use crate::session::Client;

verus! {

#[verifier::external_type_specification]
#[verifier::external_body]
pub struct ExUuidError(uuid::Error);

/// The identifier that `uuid::Uuid::parse_str` reads from a text, if it
/// reads one.
pub uninterp spec fn uuid_of_text(text: Seq<char>) -> Option<u128>;

/// The text that `uuid::Uuid` writes for an identifier.
pub uninterp spec fn text_of_uuid(id: u128) -> Seq<char>;

/// An identifier drawn by `uuid::Uuid::new_v4`. Which one is drawn is not
/// known; what is known is that it carries the version 4 and the variant of
/// RFC 4122. The call panics if the operating system hands out no random
/// bytes, which no caller can rule out.
#[verifier::external_body]
fn random_uuid() -> (id: u128)
    ensures
        id & 0xf000_0000_0000_0000_0000 == 0x4000_0000_0000_0000_0000,
        id & 0xc000_0000_0000_0000 == 0x8000_0000_0000_0000,
{
    uuid::Uuid::new_v4().as_u128()
}

/// Reads an identifier with `uuid::Uuid::parse_str`. The result is the one
/// that `uuid_of_text` names.
#[verifier::external_body]
fn parse_uuid(text: &str) -> (r: Result<u128, uuid::Error>)
    ensures
        match r {
            Ok(id) => uuid_of_text(text@) == Some(id),
            Err(_) => uuid_of_text(text@) is None,
        },
{
    match uuid::Uuid::parse_str(text) {
        Ok(id) => Ok(id.as_u128()),
        Err(e) => Err(e),
    }
}

/// Writes an identifier the way `uuid::Uuid` prints itself: in the
/// hyphenated form, which `uuid::Uuid::parse_str` reads back as the same
/// identifier.
#[verifier::external_body]
fn write_uuid(id: u128) -> (text: String)
    ensures
        text@ == text_of_uuid(id),
        uuid_of_text(text@) == Some(id),
{
    uuid::Uuid::from_u128(id).to_string()
}

/// The text of the identifier `id`.
pub fn id_text(id: u128) -> (text: String)
    ensures
        text@ == text_of_uuid(id),
        uuid_of_text(text@) == Some(id),
{
    write_uuid(id)
}

/// The identifier that `text` is the text of.
pub fn parse_id(text: &str) -> (r: Result<u128, WorldError>)
    ensures
        match r {
            Ok(id) => uuid_of_text(text@) == Some(id),
            Err(e) => e == WorldError::MalformedUuid && uuid_of_text(text@) is None,
        },
{
    match parse_uuid(text) {
        Ok(id) => Ok(id),
        Err(_) => Err(WorldError::MalformedUuid),
    }
}

impl Entity {
    /// Makes an entity of the type `id` at `position`, under an identifier
    /// drawn at random, and hands back the identifier. Should the identifier
    /// belong to an entity that exists, nothing is made; where no entity
    /// exists, an entity of a registered type is always made.
    pub fn new(server: &mut Server, id: EntityTypeId, position: Position) -> (r: Result<
        u128,
        WorldError,
    >)
        requires
            old(server).wf(),
        ensures
            final(server).wf(),
            match r {
                Ok(uuid) => old(server).spawned(final(server), uuid, id, position),
                Err(e) => {
                    &&& *final(server) == *old(server)
                    &&& e == WorldError::UnknownEntityType || e == WorldError::IdInUse
                    &&& e == WorldError::UnknownEntityType
                        <==> !old(server).content.entity_registry.contains(id)
                },
            },
            old(server).content.entity_registry.contains(id) && (forall|u: u128|
                !old(server).entities@.contains_key(u)) ==> r is Ok,
    {
        let uuid = random_uuid();
        match server.spawn_with_id(uuid, id, position) {
            Ok(()) => Ok(uuid),
            Err(e) => Err(e),
        }
    }

    /// The text of the entity's identifier.
    pub fn id(&self) -> (text: String)
        ensures
            text@ == text_of_uuid(self.uuid),
            uuid_of_text(text@) == Some(self.uuid),
    {
        write_uuid(self.uuid)
    }
}

impl Server {
    /// Takes in a session under an identifier drawn at random, and hands
    /// back the identifier. Should the identifier belong to a session that
    /// exists, no session is taken in; where no session exists, the session
    /// is always taken in.
    pub fn join(&mut self) -> (r: Result<u128, WorldError>)
        requires
            old(self).wf(),
        ensures
            final(self).wf(),
            match r {
                Ok(id) => {
                    &&& !old(self).clients@.contains_key(id)
                    &&& final(self).clients@.contains_key(id)
                    &&& final(self).clients@.remove(id) == old(self).clients@
                    &&& final(self).clients@[id].id == id
                    &&& final(self).clients@[id].camera == crate::session::ClientCameraType::Off
                    &&& final(self).clients@[id].loaded is None
                    &&& !final(self).clients@[id].closed
                    &&& final(self).clients@[id].player_input.is_blank()
                    &&& final(self).worlds == old(self).worlds
                    &&& final(self).content == old(self).content
                    &&& final(self).entities == old(self).entities
                    &&& final(self).ticks_passed == old(self).ticks_passed
                    &&& final(self).task_queue == old(self).task_queue
                    &&& final(self).outbound == old(self).outbound
                },
                Err(e) => *final(self) == *old(self) && e == WorldError::IdInUse,
            },
            (forall|u: u128| !old(self).clients@.contains_key(u)) ==> r is Ok,
    {
        let id = random_uuid();
        match self.join_with_id(id) {
            Ok(()) => Ok(id),
            Err(e) => Err(e),
        }
    }

    /// The entity whose identifier `text` is the text of, if there is one.
    pub fn get_entity(&self, text: &str) -> (r: Result<Option<Entity>, WorldError>)
        ensures
            match r {
                Ok(found) => uuid_of_text(text@) is Some && found == (if self.entities@.contains_key(
                    uuid_of_text(text@)->0,
                ) {
                    Some(self.entities@[uuid_of_text(text@)->0])
                } else {
                    None
                }),
                Err(e) => e == WorldError::MalformedUuid && uuid_of_text(text@) is None,
            },
    {
        match parse_id(text) {
            Ok(id) => Ok(self.entity(id)),
            Err(e) => Err(e),
        }
    }

    /// The session whose identifier `text` is the text of, if there is one.
    pub fn get_client(&self, text: &str) -> (r: Result<Option<&Client>, WorldError>)
        ensures
            match r {
                Ok(found) => uuid_of_text(text@) is Some && (found is Some
                    <==> self.clients@.contains_key(uuid_of_text(text@)->0)) && (found is Some
                    ==> *found->0 == self.clients@[uuid_of_text(text@)->0]),
                Err(e) => e == WorldError::MalformedUuid && uuid_of_text(text@) is None,
            },
    {
        match parse_id(text) {
            Ok(id) => Ok(self.clients.get(&id)),
            Err(e) => Err(e),
        }
    }
}

} // verus!
