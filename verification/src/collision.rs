//! Collision queries against the tiles and the colliders of the world.

use vstd::prelude::*;
use crate::content::{masks_meet, Collider, AABB};
use crate::geometry::AABBTileIterator;
use crate::names::{TilesetId, WorldId};
use crate::pos::{Position, TilePosition};
use crate::server::{Server, WorldError};
use crate::world::{key_of, Chunk, ChunkRef, LayerView};

verus! {

/// The rectangles of `colliders` that take part in a query for the layers of
/// `mask`, in the order of `colliders`.
pub open spec fn taking_part(colliders: Seq<(u32, Collider)>, mask: u32) -> Seq<AABB> {
    colliders.filter(|c: (u32, Collider)| masks_meet(c.1.mask, mask)).map_values(
        |c: (u32, Collider)| c.1.aabb,
    )
}

impl Server {
    /// The tile at the index `index` of `layer` is of a kind that collides
    /// with the layers of `mask`.
    pub open spec fn layer_blocks(&self, layer: (TilesetId, LayerView), index: int, mask: u32) -> bool {
        let kind = self.content.spec_tileset(layer.0).spec_by_id(layer.1.tiles[index]);
        &&& self.content.has_tileset(layer.0)
        &&& kind is Some
        &&& masks_meet(kind->0.collision_mask, mask)
    }

    /// Some layer has, at `tile` of `world`, a tile of a kind that collides
    /// with the layers of `mask`.
    pub open spec fn tile_blocks(&self, world: WorldId, tile: TilePosition, mask: u32) -> bool {
        let at = ChunkRef { world, position: tile.spec_chunk() };
        let index = tile.spec_offset().spec_index();
        exists|i: int|
            0 <= i < self.layers(at).len() && self.layer_blocks(
                #[trigger] self.layers(at)[i],
                index,
                mask,
            )
    }

    /// The chunk at `r`, if it was reached before.
    pub fn chunk_at(&self, r: ChunkRef) -> (chunk: Option<&Chunk>)
        ensures
            chunk is Some <==> self.chunks().contains_key(r),
            chunk is Some ==> *chunk->0 == self.chunks()[r],
    {
        match self.worlds.get(&r.world) {
            Some(world) => world.chunks.get(&key_of(r.position)),
            None => None,
        }
    }

    /// Whether some layer has, at `tile` of `world`, a tile of a kind that
    /// collides with the layers of `mask`.
    pub fn tile_collides(&self, world: WorldId, tile: TilePosition, mask: u32) -> (hit: bool)
        requires
            self.wf(),
        ensures
            hit == self.tile_blocks(world, tile, mask),
    {
        let (position, offset) = tile.to_chunk_position();
        let at = ChunkRef { world, position };
        let chunk = match self.chunk_at(at) {
            Some(chunk) => chunk,
            None => {
                return false;
            },
        };
        proof {
            chunk.lemma_layer_keys();
            assert(chunk.wf());
        }
        let mut i: usize = 0;
        while i < chunk.tile_layers.len()
            invariant
                i <= chunk.tile_layers.len(),
                self.wf(),
                offset.wf(),
                offset == tile.spec_offset(),
                self.chunks().contains_key(at),
                *chunk == self.chunks()[at],
                chunk.wf(),
                at == (ChunkRef { world, position: tile.spec_chunk() }),
                forall|k: int|
                    0 <= k < i ==> !self.layer_blocks(
                        #[trigger] self.layers(at)[k],
                        offset.spec_index(),
                        mask,
                    ),
            decreases chunk.tile_layers.len() - i,
        {
            proof {
                chunk.lemma_layer_keys();
            }
            let number = chunk.tile_layers[i].1.get(offset);
            let blocks = match self.content.tileset(chunk.tile_layers[i].0) {
                Some(kinds) => match kinds.by_id(number) {
                    Some(kind) => kind.collision_mask & mask != 0,
                    None => false,
                },
                None => false,
            };
            if blocks {
                assert(self.layer_blocks(self.layers(at)[i as int], offset.spec_index(), mask));
                return true;
            }
            i += 1;
        }
        proof {
            chunk.lemma_layer_keys();
        }
        false
    }

    /// Whether one of the tiles that `tiles` has still to visit collides, in
    /// `world`, with the layers of `mask`.
    pub fn tiles_collide(&self, tiles: AABBTileIterator, world: WorldId, mask: u32) -> (hit: bool)
        requires
            self.wf(),
            tiles.wf(),
        ensures
            hit == exists|k: int|
                0 <= k < tiles.remaining().len() && self.tile_blocks(
                    world,
                    #[trigger] tiles.remaining()[k],
                    mask,
                ),
    {
        let mut walk = tiles;
        let ghost mut visited: Seq<TilePosition> = Seq::empty();
        proof {
            assert(tiles.remaining() =~= visited + walk.remaining());
        }
        loop
            invariant
                self.wf(),
                walk.wf(),
                tiles.remaining() == visited + walk.remaining(),
                forall|k: int| 0 <= k < visited.len() ==> !self.tile_blocks(world, visited[k], mask),
            decreases walk.remaining().len(),
        {
            let ghost before = walk;
            match walk.next() {
                Some(tile) => {
                    proof {
                        assert(tiles.remaining() =~= visited.push(tile) + walk.remaining());
                        assert(tiles.remaining()[visited.len() as int] == tile);
                    }
                    if self.tile_collides(world, tile, mask) {
                        return true;
                    }
                    proof {
                        visited = visited.push(tile);
                    }
                },
                None => {
                    proof {
                        assert(tiles.remaining() =~= visited);
                    }
                    return false;
                },
            }
        }
    }

    /// The rectangles of the entity `uuid` that take part in a query in
    /// `world` for the layers of `mask`, each as its type defines it, that is
    /// relative to the position of the entity: none for an entity of another
    /// world.
    pub fn colliders_of(&self, uuid: u128, world: WorldId, mask: u32) -> (r: Result<
        (Position, Vec<AABB>),
        WorldError,
    >)
        requires
            self.wf(),
        ensures
            match r {
                Ok((position, boxes)) => {
                    let entity = self.entities@[uuid];
                    let kind = self.content.entity_registry.spec_get(entity.type_id);
                    &&& self.entities@.contains_key(uuid)
                    &&& position == entity.position
                    &&& boxes@ == (if position.world == world {
                        taking_part(kind.colliders@, mask)
                    } else {
                        Seq::empty()
                    })
                },
                Err(e) => e == WorldError::UnknownEntity && !self.entities@.contains_key(uuid),
            },
    {
        let entity = match self.entities.get(&uuid) {
            Some(entity) => *entity,
            None => {
                return Err(WorldError::UnknownEntity);
            },
        };
        let mut boxes: Vec<AABB> = Vec::new();
        if entity.position.world != world {
            return Ok((entity.position, boxes));
        }
        let kind = self.content.entity_registry.get(entity.type_id).unwrap();
        let mut i: usize = 0;
        proof {
            assert(kind.colliders@.take(0) =~= Seq::<(u32, Collider)>::empty());
            assert(taking_part(kind.colliders@.take(0), mask) =~= Seq::<AABB>::empty());
        }
        while i < kind.colliders.len()
            invariant
                i <= kind.colliders.len(),
                boxes@ == taking_part(kind.colliders@.take(i as int), mask),
            decreases kind.colliders.len() - i,
        {
            proof {
                let pred = |c: (u32, Collider)| masks_meet(c.1.mask, mask);
                assert(kind.colliders@.take(i as int + 1) =~= kind.colliders@.take(i as int).push(
                    kind.colliders@[i as int],
                ));
                kind.colliders@.take(i as int).lemma_filter_push(kind.colliders@[i as int], pred);
            }
            if kind.colliders[i].1.interacts(mask) {
                boxes.push(kind.colliders[i].1.aabb);
            }
            proof {
                assert(boxes@ =~= taking_part(kind.colliders@.take(i as int + 1), mask));
            }
            i += 1;
        }
        proof {
            assert(kind.colliders@.take(kind.colliders@.len() as int) =~= kind.colliders@);
        }
        Ok((entity.position, boxes))
    }

    /// The collider `name` of the entity `uuid`, and where the entity stands.
    pub fn get_collider(&self, uuid: u128, name: u32) -> (r: Result<(Position, Collider), WorldError>)
        requires
            self.wf(),
        ensures
            match r {
                Ok((position, collider)) => {
                    let entity = self.entities@[uuid];
                    let kind = self.content.entity_registry.spec_get(entity.type_id);
                    &&& self.entities@.contains_key(uuid)
                    &&& position == entity.position
                    &&& !crate::content::lacks_key(kind.colliders@, name)
                    &&& collider == kind.colliders@[crate::content::first_index(
                        kind.colliders@,
                        name,
                    )].1
                },
                Err(e) => {
                    &&& e == WorldError::UnknownEntity <==> !self.entities@.contains_key(uuid)
                    &&& e == WorldError::UnknownCollider <==> self.entities@.contains_key(uuid)
                        && crate::content::lacks_key(
                        self.content.entity_registry.spec_get(
                            self.entities@[uuid].type_id,
                        ).colliders@,
                        name,
                    )
                },
            },
    {
        let entity = match self.entities.get(&uuid) {
            Some(entity) => *entity,
            None => {
                return Err(WorldError::UnknownEntity);
            },
        };
        let kind = self.content.entity_registry.get(entity.type_id).unwrap();
        match kind.get_collider(name) {
            Some(collider) => Ok((entity.position, collider)),
            None => Err(WorldError::UnknownCollider),
        }
    }
}

} // verus!
