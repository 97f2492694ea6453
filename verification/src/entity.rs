//! Entities: what stands in the world and moves.

use vstd::prelude::*;
use crate::message::{EntityAddMessage, RunningAnimation};
use crate::names::{AnimationId, EntityTypeId};
use crate::pos::{Position, Vec2};
use crate::world::ChunkRef;

verus! {

/// The animation of an entity and the tick at which it began.
#[derive(Copy, Clone, Debug, PartialEq, Eq, Structural)]
pub struct EntityAnimation {
    pub begin_time: u32,
    pub animation: AnimationId,
}

impl EntityAnimation {
    pub open spec fn spec_running_for(self, ticks_passed: u32) -> u32 {
        if self.begin_time <= ticks_passed {
            (ticks_passed - self.begin_time) as u32
        } else {
            0
        }
    }

    /// Number of ticks for which the animation has been running at the tick
    /// `ticks_passed`; none if it has not begun by then.
    pub fn running_for(&self, ticks_passed: u32) -> (r: u32)
        ensures
            r == self.spec_running_for(ticks_passed),
    {
        if self.begin_time <= ticks_passed {
            ticks_passed - self.begin_time
        } else {
            0
        }
    }
}

/// An entity. `data_metatable` is the handle of the script table that the
/// entity's own table falls back to.
#[derive(Copy, Clone, Debug, PartialEq, Eq, Structural)]
pub struct Entity {
    pub type_id: EntityTypeId,
    pub uuid: u128,
    pub position: Position,
    pub removed: bool,
    pub animation: EntityAnimation,
    pub data_metatable: u64,
}

impl Entity {
    /// The chunk that the entity stands on.
    pub open spec fn place(self) -> ChunkRef {
        ChunkRef { world: self.position.world, position: self.position.spec_chunk() }
    }

    /// What a session that has not seen the entity is told of it at the tick
    /// `ticks_passed`.
    pub open spec fn add_message(self, ticks_passed: u32) -> EntityAddMessage {
        EntityAddMessage {
            uuid: self.uuid,
            entity_type: self.type_id,
            position: Vec2 { x: self.position.x, y: self.position.y },
            animation: RunningAnimation {
                id: self.animation.animation,
                time: self.animation.spec_running_for(ticks_passed),
            },
        }
    }

    /// The chunk that the entity stands on.
    pub fn chunk_ref(&self) -> (r: ChunkRef)
        ensures
            r == self.place(),
    {
        ChunkRef { world: self.position.world, position: self.position.chunk() }
    }

    /// What a session that has not seen the entity is told of it at the tick
    /// `ticks_passed`.
    pub fn create_add_message(&self, ticks_passed: u32) -> (message: EntityAddMessage)
        ensures
            message == self.add_message(ticks_passed),
    {
        EntityAddMessage {
            uuid: self.uuid,
            entity_type: self.type_id,
            position: self.position.coordinates(),
            animation: RunningAnimation {
                id: self.animation.animation,
                time: self.animation.running_for(ticks_passed),
            },
        }
    }
}

} // verus!
