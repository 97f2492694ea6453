//! What a session knows of the world: the chunks and entities that it was
//! sent and not told to forget.

use vstd::prelude::*;
use std::collections::HashMap;
use crate::content::{find_key, first_index, lacks_key, lemma_first_index};
use crate::message::{layers_view, EntityAddMessage, MessageS2C, MessageView, RunningAnimation};
use crate::names::{EntityTypeId, TilesetId};
use crate::pos::{Vec2, CHUNK_AREA};
use crate::world::{chunk_key, key_of};

verus! {

/// What a session knows of an entity.
#[derive(Copy, Clone, Debug, PartialEq, Eq, Structural)]
pub struct ClientEntity {
    pub position: Vec2,
    pub entity_type: EntityTypeId,
    pub animation: RunningAnimation,
}

/// What a session knows of the world. Chunks are kept under the key of their
/// coordinates.
pub struct ClientWorld {
    pub chunks: HashMap<u32, Vec<(TilesetId, Vec<u32>)>>,
    pub entities: HashMap<u128, ClientEntity>,
}

/// What a `ClientWorld` holds.
pub struct ClientView {
    pub chunks: Map<u32, Seq<(TilesetId, Seq<u32>)>>,
    pub entities: Map<u128, ClientEntity>,
}

/// What a session knows of the entity that `message` shows.
pub open spec fn shown(message: EntityAddMessage) -> ClientEntity {
    ClientEntity {
        position: message.position,
        entity_type: message.entity_type,
        animation: message.animation,
    }
}

/// The entities once those of `messages` were shown, in their order.
pub open spec fn add_all(entities: Map<u128, ClientEntity>, messages: Seq<EntityAddMessage>) -> Map<
    u128,
    ClientEntity,
>
    decreases messages.len(),
{
    if messages.len() == 0 {
        entities
    } else {
        add_all(entities, messages.drop_last()).insert(
            messages.last().uuid,
            shown(messages.last()),
        )
    }
}

/// The entities once those of `ids` were forgotten.
pub open spec fn remove_all(entities: Map<u128, ClientEntity>, ids: Seq<u128>) -> Map<
    u128,
    ClientEntity,
>
    decreases ids.len(),
{
    if ids.len() == 0 {
        entities
    } else {
        remove_all(entities, ids.drop_last()).remove(ids.last())
    }
}

/// The layers once the tile `tile` was put at `index` in the first layer of
/// `tileset`: a layer of default tiles is made if there was none, and a
/// layer that is too short for the index stays as it is.
pub open spec fn set_in(
    layers: Seq<(TilesetId, Seq<u32>)>,
    tileset: TilesetId,
    index: int,
    tile: u32,
) -> Seq<(TilesetId, Seq<u32>)> {
    if lacks_key(layers, tileset) {
        layers.push((tileset, Seq::new(CHUNK_AREA as nat, |i: int| 0u32).update(index, tile)))
    } else {
        let i = first_index(layers, tileset);
        if index < layers[i].1.len() {
            layers.update(i, (tileset, layers[i].1.update(index, tile)))
        } else {
            layers
        }
    }
}

impl ClientView {
    /// What the session knows once it has taken in `message`.
    pub open spec fn apply(self, message: MessageView) -> ClientView {
        match message {
            MessageView::LoadChunk(position, layers, entities) => ClientView {
                chunks: self.chunks.insert(chunk_key(position), layers),
                entities: add_all(self.entities, entities),
            },
            MessageView::UnloadChunk(position, ids) => ClientView {
                chunks: self.chunks.remove(chunk_key(position)),
                entities: remove_all(self.entities, ids),
            },
            MessageView::SetTile(position, tileset, tile) => {
                let key = chunk_key(position.spec_chunk());
                if self.chunks.contains_key(key) {
                    ClientView {
                        chunks: self.chunks.insert(
                            key,
                            set_in(
                                self.chunks[key],
                                tileset,
                                position.spec_offset().spec_index(),
                                tile,
                            ),
                        ),
                        ..self
                    }
                } else {
                    self
                }
            },
            MessageView::AddEntity(entity) => ClientView {
                entities: self.entities.insert(entity.uuid, shown(entity)),
                ..self
            },
            MessageView::RemoveEntity(id) => ClientView {
                entities: self.entities.remove(id),
                ..self
            },
            MessageView::UpdateEntityPosition(id, position) => if self.entities.contains_key(id) {
                ClientView {
                    entities: self.entities.insert(
                        id,
                        ClientEntity { position, ..self.entities[id] },
                    ),
                    ..self
                }
            } else {
                self
            },
            MessageView::UpdateEntityAnimation(id, animation) => if self.entities.contains_key(
                id,
            ) {
                ClientView {
                    entities: self.entities.insert(
                        id,
                        ClientEntity { animation, ..self.entities[id] },
                    ),
                    ..self
                }
            } else {
                self
            },
            MessageView::LoadContent(_) => self,
            MessageView::CameraInfo(_) => self,
        }
    }

    /// What the session knows once it has taken in `messages`, in their
    /// order.
    pub open spec fn apply_all(self, messages: Seq<MessageView>) -> ClientView
        decreases messages.len(),
    {
        if messages.len() == 0 {
            self
        } else {
            self.apply_all(messages.drop_last()).apply(messages.last())
        }
    }
}

impl View for ClientWorld {
    type V = ClientView;

    open spec fn view(&self) -> ClientView {
        ClientView {
            chunks: Map::new(
                |key: u32| self.chunks@.contains_key(key),
                |key: u32| layers_view(self.chunks@[key]@),
            ),
            entities: self.entities@,
        }
    }
}

fn set_tile_in(layers: &mut Vec<(TilesetId, Vec<u32>)>, tileset: TilesetId, index: usize, tile: u32)
    requires
        index < CHUNK_AREA,
    ensures
        layers_view(final(layers)@) == set_in(layers_view(old(layers)@), tileset, index as int, tile),
{
    proof {
        assert forall|key: TilesetId|
            lacks_key(layers@, key) <==> lacks_key(layers_view(layers@), key) by {
            if lacks_key(layers@, key) {
                assert forall|i: int| 0 <= i < layers_view(layers@).len() implies layers_view(
                    layers@,
                )[i].0 != key by {
                    assert(layers@[i].0 != key);
                }
            }
            if lacks_key(layers_view(layers@), key) {
                assert forall|i: int| 0 <= i < layers@.len() implies layers@[i].0 != key by {
                    assert(layers_view(layers@)[i].0 != key);
                }
            }
        }
    }
    match find_key(layers, tileset) {
        Some(i) => {
            proof {
                assert forall|j: int| 0 <= j < i implies layers_view(layers@)[j].0 != tileset by {
                    assert(layers@[j].0 != tileset);
                }
                lemma_first_index(layers_view(layers@), tileset, i as int);
            }
            let entry = &mut layers[i];
            if index < entry.1.len() {
                entry.1[index] = tile;
            }
            assert(layers_view(layers@) =~= set_in(
                layers_view(old(layers)@),
                tileset,
                index as int,
                tile,
            ));
        },
        None => {
            let mut tiles: Vec<u32> = vec![0u32; 1024];
            tiles[index] = tile;
            layers.push((tileset, tiles));
            assert(tiles@ =~= Seq::new(CHUNK_AREA as nat, |i: int| 0u32).update(index as int, tile));
            assert(layers_view(layers@) =~= set_in(
                layers_view(old(layers)@),
                tileset,
                index as int,
                tile,
            ));
        },
    }
}

impl ClientWorld {
    /// The knowledge of a session that was sent nothing yet.
    pub fn new() -> (world: ClientWorld)
        ensures
            world@.chunks == Map::<u32, Seq<(TilesetId, Seq<u32>)>>::empty(),
            world@.entities == Map::<u128, ClientEntity>::empty(),
    {
        let world = ClientWorld { chunks: HashMap::new(), entities: HashMap::new() };
        assert(world@.chunks =~= Map::<u32, Seq<(TilesetId, Seq<u32>)>>::empty());
        world
    }

    /// Takes note of the entity that `entity` shows.
    pub fn add_entity(&mut self, entity: EntityAddMessage)
        ensures
            final(self)@.entities == old(self)@.entities.insert(entity.uuid, shown(entity)),
            final(self)@.chunks == old(self)@.chunks,
    {
        self.entities.insert(
            entity.uuid,
            ClientEntity {
                position: entity.position,
                entity_type: entity.entity_type,
                animation: entity.animation,
            },
        );
        assert(self@.chunks =~= old(self)@.chunks);
    }

    /// Takes in `message`.
    pub fn apply(&mut self, message: MessageS2C)
        ensures
            final(self)@ == old(self)@.apply(message@),
    {
        match message {
            MessageS2C::LoadChunk(position, layers, entities) => {
                self.chunks.insert(key_of(position), layers);
                let mut i: usize = 0;
                proof {
                    assert(entities@.take(0) =~= Seq::<EntityAddMessage>::empty());
                }
                while i < entities.len()
                    invariant
                        i <= entities.len(),
                        self.chunks@ == old(self).chunks@.insert(chunk_key(position), layers),
                        self.entities@ == add_all(old(self)@.entities, entities@.take(i as int)),
                    decreases entities.len() - i,
                {
                    proof {
                        assert(entities@.take(i as int + 1).drop_last() =~= entities@.take(i as int));
                        assert(entities@.take(i as int + 1).last() == entities@[i as int]);
                    }
                    let entity = entities[i];
                    self.entities.insert(
                        entity.uuid,
                        ClientEntity {
                            position: entity.position,
                            entity_type: entity.entity_type,
                            animation: entity.animation,
                        },
                    );
                    i += 1;
                }
                proof {
                    assert(entities@.take(entities@.len() as int) =~= entities@);
                    assert(self@.chunks =~= old(self)@.chunks.insert(
                        chunk_key(position),
                        layers_view(layers@),
                    ));
                }
            },
            MessageS2C::UnloadChunk(position, ids) => {
                self.chunks.remove(&key_of(position));
                let mut i: usize = 0;
                proof {
                    assert(ids@.take(0) =~= Seq::<u128>::empty());
                }
                while i < ids.len()
                    invariant
                        i <= ids.len(),
                        self.chunks@ == old(self).chunks@.remove(chunk_key(position)),
                        self.entities@ == remove_all(old(self)@.entities, ids@.take(i as int)),
                    decreases ids.len() - i,
                {
                    proof {
                        assert(ids@.take(i as int + 1).drop_last() =~= ids@.take(i as int));
                        assert(ids@.take(i as int + 1).last() == ids@[i as int]);
                    }
                    let id = ids[i];
                    self.entities.remove(&id);
                    i += 1;
                }
                proof {
                    assert(ids@.take(ids@.len() as int) =~= ids@);
                    assert(self@.chunks =~= old(self)@.chunks.remove(chunk_key(position)));
                }
            },
            MessageS2C::SetTile(position, tileset, tile) => {
                let (chunk, offset) = position.to_chunk_position();
                let key = key_of(chunk);
                match self.chunks.remove(&key) {
                    Some(layers) => {
                        let mut layers = layers;
                        set_tile_in(&mut layers, tileset, offset.index(), tile);
                        self.chunks.insert(key, layers);
                        proof {
                            assert(self@.chunks =~= old(self)@.chunks.insert(
                                key,
                                set_in(
                                    old(self)@.chunks[key],
                                    tileset,
                                    position.spec_offset().spec_index(),
                                    tile,
                                ),
                            ));
                        }
                    },
                    None => {
                        proof {
                            assert(self@.chunks =~= old(self)@.chunks);
                        }
                    },
                }
            },
            MessageS2C::AddEntity(entity) => {
                self.add_entity(entity);
            },
            MessageS2C::RemoveEntity(id) => {
                self.entities.remove(&id);
                proof {
                    assert(self@.chunks =~= old(self)@.chunks);
                }
            },
            MessageS2C::UpdateEntityPosition(id, position) => {
                let known = match self.entities.get(&id) {
                    Some(entity) => Some(*entity),
                    None => None,
                };
                match known {
                    Some(entity) => {
                        self.entities.insert(id, ClientEntity { position, ..entity });
                    },
                    None => {},
                }
                proof {
                    assert(self@.chunks =~= old(self)@.chunks);
                }
            },
            MessageS2C::UpdateEntityAnimation(id, animation) => {
                let known = match self.entities.get(&id) {
                    Some(entity) => Some(*entity),
                    None => None,
                };
                match known {
                    Some(entity) => {
                        self.entities.insert(id, ClientEntity { animation, ..entity });
                    },
                    None => {},
                }
                proof {
                    assert(self@.chunks =~= old(self)@.chunks);
                }
            },
            MessageS2C::LoadContent(_) => {},
            MessageS2C::CameraInfo(_) => {},
        }
    }

    /// The number of the tile at `index` in the first layer of `tileset` of
    /// the chunk with the key `key`, if the session holds it.
    pub fn tile(&self, key: u32, tileset: TilesetId, index: usize) -> (r: Option<u32>)
        ensures
            r == (if self@.chunks.contains_key(key) && !lacks_key(self@.chunks[key], tileset)
                && index < self@.chunks[key][first_index(self@.chunks[key], tileset)].1.len() {
                Some(self@.chunks[key][first_index(self@.chunks[key], tileset)].1[index as int])
            } else {
                None
            }),
    {
        match self.chunks.get(&key) {
            Some(layers) => {
                proof {
                    assert forall|id: TilesetId|
                        lacks_key(layers@, id) <==> lacks_key(layers_view(layers@), id) by {
                        if lacks_key(layers@, id) {
                            assert forall|i: int|
                                0 <= i < layers_view(layers@).len() implies layers_view(
                                layers@,
                            )[i].0 != id by {
                                assert(layers@[i].0 != id);
                            }
                        }
                        if lacks_key(layers_view(layers@), id) {
                            assert forall|i: int| 0 <= i < layers@.len() implies layers@[i].0
                                != id by {
                                assert(layers_view(layers@)[i].0 != id);
                            }
                        }
                    }
                }
                match find_key(layers, tileset) {
                    Some(i) => {
                        proof {
                            assert forall|j: int| 0 <= j < i implies layers_view(layers@)[j].0
                                != tileset by {
                                assert(layers@[j].0 != tileset);
                            }
                            lemma_first_index(layers_view(layers@), tileset, i as int);
                        }
                        if index < layers[i].1.len() {
                            Some(layers[i].1[index])
                        } else {
                            None
                        }
                    },
                    None => None,
                }
            },
            None => None,
        }
    }

    /// Whether the session knows the entity `id`.
    pub fn knows(&self, id: u128) -> (r: bool)
        ensures
            r == self@.entities.contains_key(id),
    {
        self.entities.contains_key(&id)
    }

    /// Whether the session holds the chunk with the key `key`.
    pub fn holds(&self, key: u32) -> (r: bool)
        ensures
            r == self@.chunks.contains_key(key),
    {
        self.chunks.contains_key(&key)
    }
}

} // verus!
