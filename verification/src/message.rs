//! The messages that sessions and the server exchange, as values.

use vstd::prelude::*;
use crate::names::{AnimationId, EntityTypeId, TilesetId};
use crate::pos::{ChunkPosition, TilePosition, Vec2};

verus! {

/// A button of the pointing device.
#[derive(Copy, Clone, Debug, Hash, PartialEq, Eq, Structural)]
pub enum MouseButton {
    Left,
    Right,
    Middle,
}

impl MouseButton {
    pub open spec fn spec_code(self) -> u8 {
        match self {
            MouseButton::Left => 0,
            MouseButton::Right => 1,
            MouseButton::Middle => 2,
        }
    }

    /// The number that stands for the button on the wire.
    pub fn code(self) -> (c: u8)
        ensures
            c == self.spec_code(),
            c < 3,
    {
        match self {
            MouseButton::Left => 0,
            MouseButton::Right => 1,
            MouseButton::Middle => 2,
        }
    }

    /// The button that `code` stands for, if it stands for one.
    pub fn from_code(code: u8) -> (b: Option<MouseButton>)
        ensures
            match b {
                Some(button) => button.spec_code() == code,
                None => code >= 3,
            },
    {
        if code == 0 {
            Some(MouseButton::Left)
        } else if code == 1 {
            Some(MouseButton::Right)
        } else if code == 2 {
            Some(MouseButton::Middle)
        } else {
            None
        }
    }
}

/// One frame of player input, as a session sends it.
#[derive(Debug, PartialEq, Eq)]
pub struct PlayerInputMessage {
    pub keys_down: Vec<u16>,
    pub keys_pressed: Vec<u16>,
    pub keys_released: Vec<u16>,
    pub buttons_down: Vec<MouseButton>,
    pub buttons_pressed: Vec<MouseButton>,
    pub buttons_released: Vec<MouseButton>,
    pub mouse_position: Vec2,
}

/// A message from a session to the server.
#[derive(Debug, PartialEq, Eq)]
pub enum MessageC2S {
    PlayerInput(PlayerInputMessage),
}

/// An animation and the number of ticks it has been running for.
#[derive(Copy, Clone, Debug, PartialEq, Eq, Structural)]
pub struct RunningAnimation {
    pub id: AnimationId,
    pub time: u32,
}

/// Everything a session needs to show an entity it has not seen before.
#[derive(Copy, Clone, Debug, PartialEq, Eq, Structural)]
pub struct EntityAddMessage {
    pub uuid: u128,
    pub entity_type: EntityTypeId,
    pub position: Vec2,
    pub animation: RunningAnimation,
}

/// The picture of a tileset and where each of its tiles lies in it.
#[derive(Debug, PartialEq, Eq)]
pub struct TileSetContentMessage {
    pub asset: Vec<u8>,
    pub size: u8,
    pub tiles: Vec<Option<(u8, u8)>>,
}

pub struct TileSetContentView {
    pub asset: Seq<u8>,
    pub size: u8,
    pub tiles: Seq<Option<(u8, u8)>>,
}

impl View for TileSetContentMessage {
    type V = TileSetContentView;

    open spec fn view(&self) -> TileSetContentView {
        TileSetContentView { asset: self.asset@, size: self.size, tiles: self.tiles@ }
    }
}

/// The frames of one animation. `period` is the bit pattern of a binary64
/// number of seconds.
#[derive(Debug, PartialEq, Eq)]
pub struct AnimationData {
    pub image: Vec<u8>,
    pub count: u16,
    pub period: u64,
    pub looped: bool,
    pub flip: bool,
}

pub struct AnimationDataView {
    pub image: Seq<u8>,
    pub count: u16,
    pub period: u64,
    pub looped: bool,
    pub flip: bool,
}

impl View for AnimationData {
    type V = AnimationDataView;

    open spec fn view(&self) -> AnimationDataView {
        AnimationDataView {
            image: self.image@,
            count: self.count,
            period: self.period,
            looped: self.looped,
            flip: self.flip,
        }
    }
}

/// The animations and the size of an entity type. The two sizes are bit
/// patterns of binary64 numbers.
#[derive(Debug, PartialEq, Eq)]
pub struct EntityContentMessage {
    pub animations: Vec<(AnimationId, AnimationData)>,
    pub size: (u64, u64),
}

pub struct EntityContentView {
    pub animations: Seq<(AnimationId, AnimationDataView)>,
    pub size: (u64, u64),
}

impl View for EntityContentMessage {
    type V = EntityContentView;

    open spec fn view(&self) -> EntityContentView {
        EntityContentView {
            animations: self.animations@.map_values(|a: (AnimationId, AnimationData)| (a.0, a.1@)),
            size: self.size,
        }
    }
}

/// The content bundle that a session receives when it joins.
#[derive(Debug, PartialEq, Eq)]
pub struct LoadContentMessage {
    pub name: String,
    pub tilesets: Vec<(TilesetId, TileSetContentMessage)>,
    pub entities: Vec<(EntityTypeId, EntityContentMessage)>,
}

pub struct LoadContentView {
    pub name: Seq<char>,
    pub tilesets: Seq<(TilesetId, TileSetContentView)>,
    pub entities: Seq<(EntityTypeId, EntityContentView)>,
}

impl View for LoadContentMessage {
    type V = LoadContentView;

    open spec fn view(&self) -> LoadContentView {
        LoadContentView {
            name: self.name@,
            tilesets: self.tilesets@.map_values(|t: (TilesetId, TileSetContentMessage)| (t.0, t.1@)),
            entities: self.entities@.map_values(|e: (EntityTypeId, EntityContentMessage)| (e.0, e.1@)),
        }
    }
}

/// What a list of layers holds.
pub open spec fn layers_view(layers: Seq<(TilesetId, Vec<u32>)>) -> Seq<(TilesetId, Seq<u32>)> {
    layers.map_values(|l: (TilesetId, Vec<u32>)| (l.0, l.1@))
}

/// A message from the server to a session.
#[derive(Debug, PartialEq, Eq)]
pub enum MessageS2C {
    LoadChunk(ChunkPosition, Vec<(TilesetId, Vec<u32>)>, Vec<EntityAddMessage>),
    UnloadChunk(ChunkPosition, Vec<u128>),
    SetTile(TilePosition, TilesetId, u32),
    AddEntity(EntityAddMessage),
    RemoveEntity(u128),
    UpdateEntityPosition(u128, Vec2),
    UpdateEntityAnimation(u128, RunningAnimation),
    LoadContent(LoadContentMessage),
    CameraInfo(Vec2),
}

/// What a `MessageS2C` says.
pub enum MessageView {
    LoadChunk(ChunkPosition, Seq<(TilesetId, Seq<u32>)>, Seq<EntityAddMessage>),
    UnloadChunk(ChunkPosition, Seq<u128>),
    SetTile(TilePosition, TilesetId, u32),
    AddEntity(EntityAddMessage),
    RemoveEntity(u128),
    UpdateEntityPosition(u128, Vec2),
    UpdateEntityAnimation(u128, RunningAnimation),
    LoadContent(LoadContentView),
    CameraInfo(Vec2),
}

impl View for MessageS2C {
    type V = MessageView;

    open spec fn view(&self) -> MessageView {
        match self {
            MessageS2C::LoadChunk(position, layers, entities) => MessageView::LoadChunk(
                *position,
                layers_view(layers@),
                entities@,
            ),
            MessageS2C::UnloadChunk(position, entities) => MessageView::UnloadChunk(
                *position,
                entities@,
            ),
            MessageS2C::SetTile(position, tileset, tile) => MessageView::SetTile(
                *position,
                *tileset,
                *tile,
            ),
            MessageS2C::AddEntity(entity) => MessageView::AddEntity(*entity),
            MessageS2C::RemoveEntity(id) => MessageView::RemoveEntity(*id),
            MessageS2C::UpdateEntityPosition(id, position) => MessageView::UpdateEntityPosition(
                *id,
                *position,
            ),
            MessageS2C::UpdateEntityAnimation(id, animation) => MessageView::UpdateEntityAnimation(
                *id,
                *animation,
            ),
            MessageS2C::LoadContent(content) => MessageView::LoadContent(content@),
            MessageS2C::CameraInfo(position) => MessageView::CameraInfo(*position),
        }
    }
}

/// A message that holds no list, and so can be sent to many sessions.
#[derive(Copy, Clone, Debug, PartialEq, Eq, Structural)]
pub enum Notice {
    SetTile(TilePosition, TilesetId, u32),
    AddEntity(EntityAddMessage),
    RemoveEntity(u128),
    UpdateEntityPosition(u128, Vec2),
    UpdateEntityAnimation(u128, RunningAnimation),
    CameraInfo(Vec2),
}

impl View for Notice {
    type V = MessageView;

    open spec fn view(&self) -> MessageView {
        match self {
            Notice::SetTile(position, tileset, tile) => MessageView::SetTile(
                *position,
                *tileset,
                *tile,
            ),
            Notice::AddEntity(entity) => MessageView::AddEntity(*entity),
            Notice::RemoveEntity(id) => MessageView::RemoveEntity(*id),
            Notice::UpdateEntityPosition(id, position) => MessageView::UpdateEntityPosition(
                *id,
                *position,
            ),
            Notice::UpdateEntityAnimation(id, animation) => MessageView::UpdateEntityAnimation(
                *id,
                *animation,
            ),
            Notice::CameraInfo(position) => MessageView::CameraInfo(*position),
        }
    }
}

impl Notice {
    /// The message that says what the notice says.
    pub fn message(self) -> (m: MessageS2C)
        ensures
            m@ == self@,
    {
        match self {
            Notice::SetTile(position, tileset, tile) => MessageS2C::SetTile(position, tileset, tile),
            Notice::AddEntity(entity) => MessageS2C::AddEntity(entity),
            Notice::RemoveEntity(id) => MessageS2C::RemoveEntity(id),
            Notice::UpdateEntityPosition(id, position) => MessageS2C::UpdateEntityPosition(
                id,
                position,
            ),
            Notice::UpdateEntityAnimation(id, animation) => MessageS2C::UpdateEntityAnimation(
                id,
                animation,
            ),
            Notice::CameraInfo(position) => MessageS2C::CameraInfo(position),
        }
    }
}

/// A message on its way to the session `to`.
#[derive(Debug, PartialEq, Eq)]
pub struct Outbound {
    pub to: u128,
    pub message: MessageS2C,
}

pub struct OutboundView {
    pub to: u128,
    pub message: MessageView,
}

impl View for Outbound {
    type V = OutboundView;

    open spec fn view(&self) -> OutboundView {
        OutboundView { to: self.to, message: self.message@ }
    }
}

/// What a queue of outbound messages says, in order.
pub open spec fn outbound_view(queue: Seq<Outbound>) -> Seq<OutboundView> {
    queue.map_values(|o: Outbound| o@)
}

/// The message `message` once for each of `recipients`, in their order.
pub open spec fn to_each(recipients: Seq<u128>, message: MessageView) -> Seq<OutboundView> {
    recipients.map_values(|to: u128| OutboundView { to, message })
}

} // verus!
