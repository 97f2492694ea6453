//! The content registry: tilesets, entity types and event handlers, filled
//! while the server is set up and read-only afterwards.

use vstd::prelude::*;
use std::collections::HashMap;
use crate::message::{
    AnimationData, EntityContentMessage, EntityContentView, LoadContentMessage, LoadContentView,
    TileSetContentMessage, TileSetContentView,
};
use crate::names::{AnimationId, EntityTypeId, EventId, TileId, TilesetId, DEFAULT_NAME};

verus! {

/// Why a registration was refused.
#[derive(Copy, Clone, Debug, PartialEq, Eq, Structural)]
pub enum ContentError {
    /// The tile carries no identifier.
    TileIdMissing,
    /// The tileset already has a tile with this identifier.
    DuplicateTile,
    /// The tileset has no numeric identifier left.
    RegistryFull,
}

/// Entries are looked up by their first component; no two share it.
pub open spec fn distinct_keys<T>(entries: Seq<(u32, T)>) -> bool {
    forall|i: int, j: int| 0 <= i < j < entries.len() ==> entries[i].0 != entries[j].0
}

/// No entry has the key `key`.
pub open spec fn lacks_key<T>(entries: Seq<(u32, T)>, key: u32) -> bool {
    forall|i: int| 0 <= i < entries.len() ==> entries[i].0 != key
}

/// The entry at the index `i` has the key `key`.
pub open spec fn key_at<T>(entries: Seq<(u32, T)>, key: u32, i: int) -> bool {
    0 <= i < entries.len() && entries[i].0 == key
}

/// Index of the entry with the key `key`.
pub open spec fn entry_index<T>(entries: Seq<(u32, T)>, key: u32) -> int {
    choose|i: int| key_at(entries, key, i)
}

/// Among distinct keys, the entry with a given key is found at one index
/// only.
pub proof fn lemma_entry_index<T>(entries: Seq<(u32, T)>, key: u32, i: int)
    requires
        distinct_keys(entries),
        key_at(entries, key, i),
    ensures
        entry_index(entries, key) == i,
        !lacks_key(entries, key),
{
    let k = entry_index(entries, key);
    assert(key_at(entries, key, k));
    if k < i {
        assert(entries[k].0 != entries[i].0);
    }
    if i < k {
        assert(entries[i].0 != entries[k].0);
    }
}

/// Index of the first entry with the key `key`.
pub open spec fn first_index<T>(entries: Seq<(u32, T)>, key: u32) -> int {
    choose|i: int| key_at(entries, key, i) && forall|j: int| 0 <= j < i ==> entries[j].0 != key
}

/// The first entry with a key is found at one index only.
pub proof fn lemma_first_index<T>(entries: Seq<(u32, T)>, key: u32, i: int)
    requires
        key_at(entries, key, i),
        forall|j: int| 0 <= j < i ==> entries[j].0 != key,
    ensures
        first_index(entries, key) == i,
        !lacks_key(entries, key),
{
    let k = first_index(entries, key);
    assert(key_at(entries, key, k) && forall|j: int| 0 <= j < k ==> entries[j].0 != key);
}

/// Index of an entry with the key `key`: the first one.
pub fn find_key<T>(entries: &Vec<(u32, T)>, key: u32) -> (r: Option<usize>)
    ensures
        match r {
            Some(i) => {
                &&& key_at(entries@, key, i as int)
                &&& forall|j: int| 0 <= j < i ==> entries@[j].0 != key
                &&& first_index(entries@, key) == i
            },
            None => lacks_key(entries@, key),
        },
{
    let mut i: usize = 0;
    while i < entries.len()
        invariant
            i <= entries.len(),
            forall|j: int| 0 <= j < i ==> entries@[j].0 != key,
        decreases entries.len() - i,
    {
        if entries[i].0 == key {
            proof {
                lemma_first_index(entries@, key, i as int);
            }
            return Some(i);
        }
        i += 1;
    }
    None
}

/// What a script says of a tile when it registers it. `data` is the handle
/// of the tile's script table.
#[derive(Copy, Clone, Debug)]
pub struct TileSpec {
    pub id: Option<TileId>,
    pub collision_mask: Option<u32>,
    pub asset_position: Option<(u8, u8)>,
    pub data: u64,
}

/// A kind of tile. `id` is its index in its tileset, `data` the handle of its
/// script table.
#[derive(Copy, Clone, Debug)]
pub struct TileType {
    pub data: u64,
    pub id: u32,
    pub collision_mask: u32,
    pub asset_position: Option<(u8, u8)>,
}

/// The kinds of tile of one layer, and the picture they are cut from.
pub struct TileSet {
    pub tiles: HashMap<TileId, TileType>,
    pub tile_ids: Vec<TileId>,
    pub asset: (Vec<u8>, u8),
}

/// The tile type that a registration of `tile` as the `index`-th tile of a
/// tileset gives.
pub open spec fn tile_type_of(tile: TileSpec, index: int) -> TileType {
    TileType {
        data: tile.data,
        id: index as u32,
        collision_mask: match tile.collision_mask {
            Some(mask) => mask,
            None => 0,
        },
        asset_position: tile.asset_position,
    }
}

impl TileSet {
    /// Every tile has one name and one number, and the number of a tile is
    /// its place in `tile_ids`.
    pub open spec fn wf(&self) -> bool {
        &&& self.tile_ids@.len() <= 0x1_0000_0000
        &&& forall|i: int, j: int|
            0 <= i < j < self.tile_ids@.len() ==> self.tile_ids@[i] != self.tile_ids@[j]
        &&& forall|i: int|
            0 <= i < self.tile_ids@.len() ==> self.tiles@.contains_key(#[trigger] self.tile_ids@[i])
                && self.tiles@[self.tile_ids@[i]].id == i
        &&& forall|name: TileId| #[trigger]
            self.tiles@.contains_key(name) ==> self.tile_ids@.contains(name)
    }

    /// Number of tile types.
    pub open spec fn spec_len(&self) -> nat {
        self.tile_ids@.len()
    }

    /// The tile type with the number `id`.
    pub open spec fn spec_by_id(&self, id: u32) -> Option<TileType> {
        if id < self.tile_ids@.len() {
            Some(self.tiles@[self.tile_ids@[id as int]])
        } else {
            None
        }
    }

    /// A tileset without tiles.
    pub fn new(asset: (Vec<u8>, u8)) -> (set: TileSet)
        ensures
            set.wf(),
            set.tile_ids@.len() == 0,
            set.tiles@ == Map::<TileId, TileType>::empty(),
            set.asset == asset,
    {
        TileSet { tiles: HashMap::new(), tile_ids: Vec::new(), asset }
    }

    /// Adds a tile type, which gets the next free number.
    pub fn register(&mut self, tile: TileSpec) -> (r: Result<(), ContentError>)
        requires
            old(self).wf(),
        ensures
            final(self).wf(),
            final(self).asset == old(self).asset,
            match r {
                Ok(()) => {
                    &&& tile.id is Some
                    &&& !old(self).tiles@.contains_key(tile.id->0)
                    &&& old(self).tile_ids@.len() <= 0xffff_ffff
                    &&& final(self).tile_ids@ == old(self).tile_ids@.push(tile.id->0)
                    &&& final(self).tiles@ == old(self).tiles@.insert(
                        tile.id->0,
                        tile_type_of(tile, old(self).tile_ids@.len() as int),
                    )
                },
                Err(e) => {
                    &&& final(self).tile_ids@ == old(self).tile_ids@
                    &&& final(self).tiles@ == old(self).tiles@
                    &&& e == ContentError::TileIdMissing || e == ContentError::DuplicateTile || e
                        == ContentError::RegistryFull
                    &&& e == ContentError::TileIdMissing <==> tile.id is None
                    &&& e == ContentError::DuplicateTile <==> tile.id is Some
                        && old(self).tiles@.contains_key(tile.id->0)
                    &&& e == ContentError::RegistryFull <==> tile.id is Some
                        && !old(self).tiles@.contains_key(tile.id->0) && old(self).tile_ids@.len()
                        > 0xffff_ffff
                },
            },
    {
        let id = match tile.id {
            Some(id) => id,
            None => {
                return Err(ContentError::TileIdMissing);
            },
        };
        if self.tiles.contains_key(&id) {
            return Err(ContentError::DuplicateTile);
        }
        if self.tile_ids.len() > 0xffff_ffff {
            return Err(ContentError::RegistryFull);
        }
        let num_id = self.tile_ids.len() as u32;
        let collision_mask = match tile.collision_mask {
            Some(mask) => mask,
            None => 0,
        };
        self.tile_ids.push(id);
        self.tiles.insert(
            id,
            TileType {
                data: tile.data,
                id: num_id,
                collision_mask,
                asset_position: tile.asset_position,
            },
        );
        proof {
            let before = old(self).tile_ids@;
            assert forall|i: int, j: int| 0 <= i < j < self.tile_ids@.len() implies self.tile_ids@[i]
                != self.tile_ids@[j] by {
                if j == before.len() {
                    assert(old(self).tiles@.contains_key(before[i]));
                }
            }
            assert forall|name: TileId| #[trigger]
                self.tiles@.contains_key(name) implies self.tile_ids@.contains(name) by {
                if name == id {
                    assert(self.tile_ids@[before.len() as int] == id);
                } else {
                    assert(before.contains(name));
                    let k = choose|k: int| 0 <= k < before.len() && before[k] == name;
                    assert(self.tile_ids@[k] == name);
                }
            }
            assert forall|i: int| 0 <= i < self.tile_ids@.len() implies self.tiles@.contains_key(
                #[trigger] self.tile_ids@[i],
            ) && self.tiles@[self.tile_ids@[i]].id == i by {
                if i < before.len() {
                    assert(old(self).tiles@.contains_key(before[i]));
                }
            }
        }
        Ok(())
    }

    /// The tile type with the number `id`.
    pub fn by_id(&self, id: u32) -> (r: Option<TileType>)
        requires
            self.wf(),
        ensures
            r == self.spec_by_id(id),
            r is Some <==> id < self.spec_len(),
            r is Some ==> r->0.id == id,
    {
        if (id as usize) < self.tile_ids.len() {
            let name = self.tile_ids[id as usize];
            assert(self.tiles@.contains_key(self.tile_ids@[id as int]));
            match self.tiles.get(&name) {
                Some(tile) => Some(*tile),
                None => None,
            }
        } else {
            None
        }
    }

    /// The tile type with the name `name`.
    pub fn get(&self, name: TileId) -> (r: Option<TileType>)
        requires
            self.wf(),
        ensures
            r == (if self.tiles@.contains_key(name) {
                Some(self.tiles@[name])
            } else {
                None
            }),
            r is Some ==> r->0.id < self.spec_len(),
    {
        match self.tiles.get(&name) {
            Some(tile) => {
                proof {
                    assert(self.tile_ids@.contains(name));
                    let k = choose|k: int| 0 <= k < self.tile_ids@.len() && self.tile_ids@[k] == name;
                    assert(self.tiles@[self.tile_ids@[k]].id == k);
                }
                Some(*tile)
            },
            None => None,
        }
    }

    /// Number of tile types.
    pub fn len(&self) -> (n: usize)
        ensures
            n == self.spec_len(),
    {
        self.tile_ids.len()
    }

    /// The tileset holds exactly the tiles of `tiles`, each under the number
    /// of its place.
    pub open spec fn holds(&self, tiles: Seq<TileSpec>) -> bool {
        &&& self.tile_ids@.len() == tiles.len()
        &&& forall|i: int|
            0 <= i < tiles.len() ==> tiles[i].id == Some(#[trigger] self.tile_ids@[i])
                && self.tiles@[self.tile_ids@[i]] == tile_type_of(tiles[i], i)
    }

    /// The tileset of the tiles `default` and `tiles`, in this order. Where
    /// the definition has no default tile, a tile with the name `default`
    /// and the script table `blank` stands in its place.
    pub fn build(asset: (Vec<u8>, u8), default: Option<TileSpec>, blank: u64, tiles: &Vec<TileSpec>) -> (r:
        Result<TileSet, ContentError>)
        ensures
            match r {
                Ok(set) => {
                    &&& set.wf()
                    &&& set.asset == asset
                    &&& set.holds(all_tiles(default, blank, tiles@))
                    &&& set.spec_len() > 0
                    &&& first_error(all_tiles(default, blank, tiles@), tiles@.len() as int + 1) is None
                },
                Err(e) => first_error(all_tiles(default, blank, tiles@), tiles@.len() as int + 1) == Some(e),
            },
    {
        let ghost all = all_tiles(default, blank, tiles@);
        let first = match default {
            Some(tile) => tile,
            None => TileSpec {
                id: Some(DEFAULT_NAME),
                collision_mask: None,
                asset_position: None,
                data: blank,
            },
        };
        let mut set = TileSet::new(asset);
        match set.register(first) {
            Ok(()) => {},
            Err(e) => {
                assert(tile_error(all, 0) == Some(e));
                proof {
                    lemma_first_error_found(all, 0, tiles@.len() as int + 1);
                }
                return Err(e);
            },
        }
        let mut i: usize = 0;
        proof {
            assert(tile_error(all, 0) is None);
            assert(first_error(all, 0) is None);
            assert(first_error(all, 1) == tile_error(all, 0));
            assert(all.take(1) =~= seq![first]);
        }
        while i < tiles.len()
            invariant
                i <= tiles.len(),
                all == all_tiles(default, blank, tiles@),
                all.len() == tiles@.len() + 1,
                set.wf(),
                set.asset == asset,
                set.holds(all.take(i as int + 1)),
                first_error(all, i as int + 1) is None,
            decreases tiles.len() - i,
        {
            let ghost before = set;
            assert(all[i as int + 1] == tiles@[i as int]);
            match set.register(tiles[i]) {
                Ok(()) => {},
                Err(e) => {
                    proof {
                        lemma_holds_keys(before, all, i as int + 1);
                        assert(tile_error(all, i as int + 1) == Some(e));
                        lemma_first_error_found(all, i as int + 1, tiles@.len() as int + 1);
                    }
                    return Err(e);
                },
            }
            proof {
                lemma_holds_keys(before, all, i as int + 1);
                assert(tile_error(all, i as int + 1) is None);
                assert(first_error(all, i as int + 2) == tile_error(all, i as int + 1));
                let longer = all.take(i as int + 2);
                assert forall|k: int| 0 <= k < longer.len() implies longer[k].id == Some(
                    #[trigger] set.tile_ids@[k],
                ) && set.tiles@[set.tile_ids@[k]] == tile_type_of(longer[k], k) by {
                    if k <= i {
                        assert(all.take(i as int + 1)[k] == longer[k]);
                        assert(before.tiles@.contains_key(before.tile_ids@[k]));
                    }
                }
            }
            i += 1;
        }
        proof {
            assert(all.take(tiles@.len() as int + 1) =~= all);
        }
        Ok(set)
    }

    /// What a session is sent of the tileset.
    pub open spec fn content(&self) -> TileSetContentView {
        TileSetContentView {
            asset: self.asset.0@,
            size: self.asset.1,
            tiles: Seq::new(
                self.tile_ids@.len(),
                |i: int| self.tiles@[self.tile_ids@[i]].asset_position,
            ),
        }
    }

    /// What a session is sent of the tileset.
    pub fn content_message(&self) -> (message: TileSetContentMessage)
        requires
            self.wf(),
        ensures
            message@ == self.content(),
    {
        let asset = copy_bytes(&self.asset.0);
        let mut tiles: Vec<Option<(u8, u8)>> = Vec::new();
        let mut i: usize = 0;
        while i < self.tile_ids.len()
            invariant
                i <= self.tile_ids.len(),
                self.wf(),
                tiles@ == self.content().tiles.take(i as int),
            decreases self.tile_ids.len() - i,
        {
            let name = self.tile_ids[i];
            assert(self.tiles@.contains_key(self.tile_ids@[i as int]));
            let position = match self.tiles.get(&name) {
                Some(tile) => tile.asset_position,
                None => None,
            };
            tiles.push(position);
            assert(tiles@ =~= self.content().tiles.take(i as int + 1));
            i += 1;
        }
        assert(self.content().tiles.take(self.tile_ids@.len() as int) =~= self.content().tiles);
        TileSetContentMessage { asset, size: self.asset.1, tiles }
    }
}

/// The tiles of a tileset in the order of their registration: the default
/// tile of the definition, or the tile that stands in for it, and then
/// `tiles`.
pub open spec fn all_tiles(default: Option<TileSpec>, blank: u64, tiles: Seq<TileSpec>) -> Seq<
    TileSpec,
> {
    seq![
        match default {
            Some(tile) => tile,
            None => TileSpec {
                id: Some(DEFAULT_NAME),
                collision_mask: None,
                asset_position: None,
                data: blank,
            },
        },
    ] + tiles
}

/// Why the `i`-th of `tiles` cannot be registered behind those before it.
pub open spec fn tile_error(tiles: Seq<TileSpec>, i: int) -> Option<ContentError> {
    if tiles[i].id is None {
        Some(ContentError::TileIdMissing)
    } else if exists|j: int| 0 <= j < i && tiles[j].id == tiles[i].id {
        Some(ContentError::DuplicateTile)
    } else if i > 0xffff_ffff {
        Some(ContentError::RegistryFull)
    } else {
        None
    }
}

/// Why the first of the first `n` of `tiles` that cannot be registered
/// cannot be.
pub open spec fn first_error(tiles: Seq<TileSpec>, n: int) -> Option<ContentError>
    decreases n,
{
    if n <= 0 {
        None
    } else {
        match first_error(tiles, n - 1) {
            Some(e) => Some(e),
            None => tile_error(tiles, n - 1),
        }
    }
}

proof fn lemma_first_error_found(tiles: Seq<TileSpec>, i: int, n: int)
    requires
        0 <= i < n,
        first_error(tiles, i) is None,
        tile_error(tiles, i) is Some,
    ensures
        first_error(tiles, n) == tile_error(tiles, i),
    decreases n - i,
{
    if n > i + 1 {
        lemma_first_error_found(tiles, i, n - 1);
    }
}

proof fn lemma_holds_keys(set: TileSet, all: Seq<TileSpec>, n: int)
    requires
        set.wf(),
        0 <= n <= all.len(),
        set.holds(all.take(n)),
    ensures
        set.tile_ids@.len() == n,
        forall|name: TileId|
            set.tiles@.contains_key(name) <==> exists|j: int| 0 <= j < n && all[j].id == Some(name),
{
    assert forall|name: TileId|
        set.tiles@.contains_key(name) <==> exists|j: int| 0 <= j < n && all[j].id == Some(
            name,
        ) by {
        if set.tiles@.contains_key(name) {
            assert(set.tile_ids@.contains(name));
            let k = choose|k: int| 0 <= k < set.tile_ids@.len() && set.tile_ids@[k] == name;
            assert(all.take(n)[k].id == Some(set.tile_ids@[k]));
            assert(all[k].id == Some(name));
        }
        if exists|j: int| 0 <= j < n && all[j].id == Some(name) {
            let j = choose|j: int| 0 <= j < n && all[j].id == Some(name);
            assert(all.take(n)[j].id == Some(set.tile_ids@[j]));
            assert(set.tiles@.contains_key(set.tile_ids@[j]));
        }
    }
}

/// A copy of `bytes`.
pub fn copy_bytes(bytes: &Vec<u8>) -> (copy: Vec<u8>)
    ensures
        copy@ == bytes@,
{
    let mut copy: Vec<u8> = Vec::new();
    let mut i: usize = 0;
    while i < bytes.len()
        invariant
            i <= bytes.len(),
            copy@ == bytes@.take(i as int),
        decreases bytes.len() - i,
    {
        copy.push(bytes[i]);
        assert(copy@ =~= bytes@.take(i as int + 1));
        i += 1;
    }
    assert(bytes@.take(bytes@.len() as int) =~= bytes@);
    copy
}

/// An axis-aligned rectangle. The four numbers are bit patterns of binary64
/// numbers: the corner with the lowest coordinates, the width and the height.
#[derive(Copy, Clone, Debug, PartialEq, Eq, Structural)]
pub struct AABB {
    pub x: u64,
    pub y: u64,
    pub w: u64,
    pub h: u64,
}

/// A rectangle that takes part in collisions with the layers of `mask`.
#[derive(Copy, Clone, Debug, PartialEq, Eq, Structural)]
pub struct Collider {
    pub aabb: AABB,
    pub mask: u32,
}

/// Two colliders interact if and only if their masks share a layer.
pub open spec fn masks_meet(a: u32, b: u32) -> bool {
    a & b != 0
}

impl Collider {
    /// Whether the collider takes part in a query for the layers of `mask`.
    pub fn interacts(&self, mask: u32) -> (r: bool)
        ensures
            r == masks_meet(self.mask, mask),
    {
        self.mask & mask != 0
    }
}

/// A kind of entity. `data` and `data_metatable` are handles of script
/// tables; the two sizes are bit patterns of binary64 numbers.
pub struct EntityType {
    pub colliders: Vec<(u32, Collider)>,
    pub data: u64,
    pub data_metatable: u64,
    pub animations: Vec<(AnimationId, AnimationData)>,
    pub size: (u64, u64),
}

impl EntityType {
    pub open spec fn spec_has_animation(&self, animation: AnimationId) -> bool {
        !lacks_key(self.animations@, animation)
    }

    /// Whether the type has an animation with this name.
    pub fn has_animation(&self, animation: AnimationId) -> (r: bool)
        ensures
            r == self.spec_has_animation(animation),
    {
        find_key(&self.animations, animation).is_some()
    }

    /// What a session is sent of the entity type.
    pub open spec fn content(&self) -> EntityContentView {
        EntityContentView {
            animations: self.animations@.map_values(|a: (AnimationId, AnimationData)| (a.0, a.1@)),
            size: self.size,
        }
    }

    /// What a session is sent of the entity type.
    pub fn content_message(&self) -> (message: EntityContentMessage)
        ensures
            message@ == self.content(),
    {
        let mut animations: Vec<(AnimationId, AnimationData)> = Vec::new();
        let mut i: usize = 0;
        while i < self.animations.len()
            invariant
                i <= self.animations.len(),
                animations@.len() == i,
                forall|k: int|
                    0 <= k < i ==> (#[trigger] animations@[k]).0 == self.animations@[k].0
                        && animations@[k].1@ == self.animations@[k].1@,
            decreases self.animations.len() - i,
        {
            let source = &self.animations[i].1;
            let copy = AnimationData {
                image: copy_bytes(&source.image),
                count: source.count,
                period: source.period,
                looped: source.looped,
                flip: source.flip,
            };
            animations.push((self.animations[i].0, copy));
            i += 1;
        }
        let message = EntityContentMessage { animations, size: self.size };
        assert(message@.animations =~= self.content().animations);
        message
    }

    /// The collider with this name.
    pub fn get_collider(&self, name: u32) -> (r: Option<Collider>)
        ensures
            match r {
                Some(c) => !lacks_key(self.colliders@, name) && c == self.colliders@[first_index(
                    self.colliders@,
                    name,
                )].1,
                None => lacks_key(self.colliders@, name),
            },
    {
        match find_key(&self.colliders, name) {
            Some(i) => Some(self.colliders[i].1),
            None => None,
        }
    }
}

/// The entity types by name, in the order of their registration.
pub struct EntityRegistry {
    pub entities: Vec<(EntityTypeId, EntityType)>,
}

impl EntityRegistry {
    pub open spec fn wf(&self) -> bool {
        distinct_keys(self.entities@)
    }

    pub open spec fn contains(&self, id: EntityTypeId) -> bool {
        !lacks_key(self.entities@, id)
    }

    /// The type registered under `id`.
    pub open spec fn spec_get(&self, id: EntityTypeId) -> EntityType {
        self.entities@[entry_index(self.entities@, id)].1
    }

    /// The registry without entity types.
    pub fn new() -> (registry: EntityRegistry)
        ensures
            registry.wf(),
            registry.entities@.len() == 0,
    {
        EntityRegistry { entities: Vec::new() }
    }

    /// Enters `entity_type` under `id`, in the place of the type that was
    /// registered under `id` before, if there was one.
    pub fn register(&mut self, id: EntityTypeId, entity_type: EntityType)
        requires
            old(self).wf(),
        ensures
            final(self).wf(),
            final(self).contains(id),
            final(self).spec_get(id) == entity_type,
            !old(self).contains(id) ==> final(self).entities@ == old(self).entities@.push(
                (id, entity_type),
            ),
            old(self).contains(id) ==> final(self).entities@ == old(self).entities@.update(
                entry_index(old(self).entities@, id),
                (id, entity_type),
            ),
    {
        match find_key(&self.entities, id) {
            Some(i) => {
                self.entities[i] = (id, entity_type);
                proof {
                    lemma_entry_index(old(self).entities@, id, i as int);
                    assert forall|a: int, b: int| 0 <= a < b < self.entities@.len() implies self.entities@[a].0
                        != self.entities@[b].0 by {
                        assert(self.entities@[a].0 == old(self).entities@[a].0);
                        assert(self.entities@[b].0 == old(self).entities@[b].0);
                    }
                    lemma_entry_index(self.entities@, id, i as int);
                }
            },
            None => {
                self.entities.push((id, entity_type));
                proof {
                    let n = old(self).entities@.len() as int;
                    assert forall|a: int, b: int| 0 <= a < b < self.entities@.len() implies self.entities@[a].0
                        != self.entities@[b].0 by {
                        if a < n {
                            assert(self.entities@[a] == old(self).entities@[a]);
                        }
                        if b < n {
                            assert(self.entities@[b] == old(self).entities@[b]);
                        }
                    }
                    lemma_entry_index(self.entities@, id, n);
                }
            },
        }
    }

    /// The type registered under `id`.
    pub fn get(&self, id: EntityTypeId) -> (r: Option<&EntityType>)
        requires
            self.wf(),
        ensures
            r is Some <==> self.contains(id),
            r is Some ==> *r->0 == self.spec_get(id),
    {
        match find_key(&self.entities, id) {
            Some(i) => {
                proof {
                    lemma_entry_index(self.entities@, id, i as int);
                }
                Some(&self.entities[i].1)
            },
            None => None,
        }
    }
}

/// The handlers of each event, in the order of their registration.
pub struct EventRegistry {
    pub handlers: HashMap<EventId, Vec<u64>>,
}

impl EventRegistry {
    /// The handlers registered for `event`, in the order of registration.
    pub open spec fn handlers_of(&self, event: EventId) -> Seq<u64> {
        if self.handlers@.contains_key(event) {
            self.handlers@[event]@
        } else {
            Seq::empty()
        }
    }

    /// The registry without handlers.
    pub fn new() -> (registry: EventRegistry)
        ensures
            registry.handlers@ == Map::<EventId, Vec<u64>>::empty(),
            forall|event: EventId| registry.handlers_of(event) == Seq::<u64>::empty(),
    {
        EventRegistry { handlers: HashMap::new() }
    }

    /// Adds `handler` behind the handlers that `event` already has.
    pub fn register(&mut self, event: EventId, handler: u64)
        ensures
            final(self).handlers_of(event) == old(self).handlers_of(event).push(handler),
            forall|other: EventId|
                other != event ==> final(self).handlers_of(other) == old(self).handlers_of(other),
    {
        let mut list = match self.handlers.remove(&event) {
            Some(list) => list,
            None => Vec::new(),
        };
        list.push(handler);
        self.handlers.insert(event, list);
    }

    /// The handlers to call for `event`, in the order of the calls.
    pub fn handlers_for(&self, event: EventId) -> (r: Vec<u64>)
        ensures
            r@ == self.handlers_of(event),
    {
        match self.handlers.get(&event) {
            Some(list) => {
                let copy = list.clone();
                assert(copy@ =~= list@);
                copy
            },
            None => Vec::new(),
        }
    }
}

/// Everything that is registered while the server is set up. Tilesets and
/// entity types are kept in the order of their registration, which is the
/// order in which the content bundle lists them.
pub struct InitEnvironment {
    pub tile_sets: Vec<(TilesetId, TileSet)>,
    pub entity_registry: EntityRegistry,
    pub event_handlers: EventRegistry,
}

impl InitEnvironment {
    /// Names are registered once, and every tileset has its tile number 0.
    pub open spec fn wf(&self) -> bool {
        &&& distinct_keys(self.tile_sets@)
        &&& forall|i: int|
            0 <= i < self.tile_sets@.len() ==> (#[trigger] self.tile_sets@[i]).1.wf()
                && self.tile_sets@[i].1.spec_len() > 0
        &&& self.entity_registry.wf()
    }

    pub open spec fn has_tileset(&self, id: TilesetId) -> bool {
        !lacks_key(self.tile_sets@, id)
    }

    /// The tileset registered under `id`.
    pub open spec fn spec_tileset(&self, id: TilesetId) -> TileSet {
        self.tile_sets@[entry_index(self.tile_sets@, id)].1
    }

    /// Nothing is registered.
    pub fn new() -> (env: InitEnvironment)
        ensures
            env.wf(),
            env.tile_sets@.len() == 0,
            env.entity_registry.entities@.len() == 0,
            forall|event: EventId| env.event_handlers.handlers_of(event) == Seq::<u64>::empty(),
    {
        InitEnvironment {
            tile_sets: Vec::new(),
            entity_registry: EntityRegistry::new(),
            event_handlers: EventRegistry::new(),
        }
    }

    /// Registers the tileset `name` with the picture `asset` and the tiles
    /// `default` and `tiles`, in the place of the tileset that was registered
    /// under `name` before, if there was one. Where the definition has no
    /// default tile, a tile with the name `default` and the script table
    /// `blank` stands in its place. A tile without a name, or with the name
    /// of a tile before it, has the whole registration refused.
    pub fn register_tileset(
        &mut self,
        name: TilesetId,
        asset: (Vec<u8>, u8),
        default: Option<TileSpec>,
        blank: u64,
        tiles: &Vec<TileSpec>,
    ) -> (r: Result<(), ContentError>)
        requires
            old(self).wf(),
        ensures
            final(self).wf(),
            final(self).entity_registry == old(self).entity_registry,
            final(self).event_handlers == old(self).event_handlers,
            match r {
                Ok(()) => {
                    &&& first_error(all_tiles(default, blank, tiles@), tiles@.len() as int + 1) is None
                    &&& final(self).has_tileset(name)
                    &&& final(self).spec_tileset(name).holds(all_tiles(default, blank, tiles@))
                    &&& final(self).spec_tileset(name).asset == asset
                    &&& forall|other: TilesetId|
                        other != name ==> final(self).has_tileset(other) == old(self).has_tileset(
                            other,
                        ) && (old(self).has_tileset(other) ==> final(self).spec_tileset(other)
                            == old(self).spec_tileset(other))
                    &&& final(self).tile_sets@.len() == (if old(self).has_tileset(name) {
                        old(self).tile_sets@.len()
                    } else {
                        old(self).tile_sets@.len() + 1
                    })
                    &&& forall|i: int|
                        0 <= i < final(self).tile_sets@.len() ==> (
                        #[trigger] final(self).tile_sets@[i]).0 == (if i < old(
                            self,
                        ).tile_sets@.len() {
                            old(self).tile_sets@[i].0
                        } else {
                            name
                        })
                },
                Err(e) => {
                    &&& first_error(all_tiles(default, blank, tiles@), tiles@.len() as int + 1)
                        == Some(e)
                    &&& final(self).tile_sets == old(self).tile_sets
                },
            },
    {
        let set = match TileSet::build(asset, default, blank, tiles) {
            Ok(set) => set,
            Err(e) => {
                return Err(e);
            },
        };
        match find_key(&self.tile_sets, name) {
            Some(i) => {
                self.tile_sets[i] = (name, set);
                proof {
                    let before = old(self).tile_sets@;
                    let after = self.tile_sets@;
                    lemma_entry_index(before, name, i as int);
                    assert forall|a: int, b: int| 0 <= a < b < after.len() implies after[a].0
                        != after[b].0 by {
                        assert(after[a].0 == before[a].0);
                        assert(after[b].0 == before[b].0);
                    }
                    lemma_entry_index(after, name, i as int);
                    assert forall|k: int| 0 <= k < after.len() implies (#[trigger] after[k]).1.wf()
                        && after[k].1.spec_len() > 0 by {
                        if k != i {
                            assert(after[k] == before[k]);
                        }
                    }
                    assert forall|other: TilesetId| other != name implies self.has_tileset(other)
                        == old(self).has_tileset(other) && (old(self).has_tileset(other)
                        ==> self.spec_tileset(other) == old(self).spec_tileset(other)) by {
                        lemma_other_entry_kept(before, after, i as int, other);
                    }
                }
            },
            None => {
                self.tile_sets.push((name, set));
                proof {
                    let before = old(self).tile_sets@;
                    let after = self.tile_sets@;
                    let n = before.len() as int;
                    assert forall|a: int, b: int| 0 <= a < b < after.len() implies after[a].0
                        != after[b].0 by {
                        assert(after[a] == before[a]);
                        if b < n {
                            assert(after[b] == before[b]);
                        }
                    }
                    lemma_entry_index(after, name, n);
                    assert forall|k: int| 0 <= k < after.len() implies (#[trigger] after[k]).1.wf()
                        && after[k].1.spec_len() > 0 by {
                        if k < n {
                            assert(after[k] == before[k]);
                        }
                    }
                    assert forall|other: TilesetId| other != name implies self.has_tileset(other)
                        == old(self).has_tileset(other) && (old(self).has_tileset(other)
                        ==> self.spec_tileset(other) == old(self).spec_tileset(other)) by {
                        lemma_other_entry_kept(before, after, n, other);
                    }
                }
            },
        }
        Ok(())
    }

    /// Registers the entity type `entity_type` under `id`, in the place of
    /// the type that was registered under `id` before, if there was one.
    pub fn register_entity(&mut self, id: EntityTypeId, entity_type: EntityType)
        requires
            old(self).wf(),
        ensures
            final(self).wf(),
            final(self).entity_registry.contains(id),
            final(self).entity_registry.spec_get(id) == entity_type,
            !old(self).entity_registry.contains(id) ==> final(self).entity_registry.entities@
                == old(self).entity_registry.entities@.push((id, entity_type)),
            old(self).entity_registry.contains(id) ==> final(self).entity_registry.entities@
                == old(self).entity_registry.entities@.update(
                entry_index(old(self).entity_registry.entities@, id),
                (id, entity_type),
            ),
            final(self).tile_sets == old(self).tile_sets,
            final(self).event_handlers == old(self).event_handlers,
    {
        self.entity_registry.register(id, entity_type);
    }

    /// Registers `handler` for the event `event`, behind the handlers that
    /// the event already has.
    pub fn register_event(&mut self, event: EventId, handler: u64)
        requires
            old(self).wf(),
        ensures
            final(self).wf(),
            final(self).event_handlers.handlers_of(event) == old(self).event_handlers.handlers_of(
                event,
            ).push(handler),
            forall|other: EventId|
                other != event ==> final(self).event_handlers.handlers_of(other) == old(
                    self,
                ).event_handlers.handlers_of(other),
            final(self).tile_sets == old(self).tile_sets,
            final(self).entity_registry == old(self).entity_registry,
    {
        self.event_handlers.register(event, handler);
    }

    /// The content bundle with the name `name`.
    pub open spec fn content_view(&self, name: Seq<char>) -> LoadContentView {
        LoadContentView {
            name,
            tilesets: self.tile_sets@.map_values(|t: (TilesetId, TileSet)| (t.0, t.1.content())),
            entities: self.entity_registry.entities@.map_values(
                |e: (EntityTypeId, EntityType)| (e.0, e.1.content()),
            ),
        }
    }

    /// The content bundle that a session is sent when it joins: every
    /// tileset and every entity type, in the order of their registration.
    pub fn content_message(&self, name: &str) -> (message: LoadContentMessage)
        requires
            self.wf(),
        ensures
            message@ == self.content_view(name@),
    {
        let mut tilesets: Vec<(TilesetId, TileSetContentMessage)> = Vec::new();
        let mut i: usize = 0;
        while i < self.tile_sets.len()
            invariant
                i <= self.tile_sets.len(),
                self.wf(),
                tilesets@.len() == i,
                forall|k: int|
                    0 <= k < i ==> (#[trigger] tilesets@[k]).0 == self.tile_sets@[k].0
                        && tilesets@[k].1@ == self.tile_sets@[k].1.content(),
            decreases self.tile_sets.len() - i,
        {
            assert(self.tile_sets@[i as int].1.wf());
            let content = self.tile_sets[i].1.content_message();
            tilesets.push((self.tile_sets[i].0, content));
            i += 1;
        }
        let mut entities: Vec<(EntityTypeId, EntityContentMessage)> = Vec::new();
        let mut j: usize = 0;
        while j < self.entity_registry.entities.len()
            invariant
                j <= self.entity_registry.entities.len(),
                entities@.len() == j,
                forall|k: int|
                    0 <= k < j ==> (#[trigger] entities@[k]).0 == self.entity_registry.entities@[k].0
                        && entities@[k].1@ == self.entity_registry.entities@[k].1.content(),
            decreases self.entity_registry.entities.len() - j,
        {
            let content = self.entity_registry.entities[j].1.content_message();
            entities.push((self.entity_registry.entities[j].0, content));
            j += 1;
        }
        let message = LoadContentMessage { name: name.to_owned(), tilesets, entities };
        proof {
            assert(message@.tilesets =~= self.content_view(name@).tilesets);
            assert(message@.entities =~= self.content_view(name@).entities);
        }
        message
    }

    /// The tileset registered under `id`.
    pub fn tileset(&self, id: TilesetId) -> (r: Option<&TileSet>)
        requires
            self.wf(),
        ensures
            r is Some <==> self.has_tileset(id),
            r is Some ==> *r->0 == self.spec_tileset(id) && r->0.wf() && r->0.spec_len() > 0,
    {
        match find_key(&self.tile_sets, id) {
            Some(i) => {
                proof {
                    lemma_entry_index(self.tile_sets@, id, i as int);
                }
                Some(&self.tile_sets[i].1)
            },
            None => None,
        }
    }
}

/// A change of the entry at `i` alone, which keeps its key or adds it as a
/// new last entry, leaves what is found under every other key as it was.
proof fn lemma_other_entry_kept<T>(
    before: Seq<(u32, T)>,
    after: Seq<(u32, T)>,
    i: int,
    other: u32,
)
    requires
        distinct_keys(before),
        distinct_keys(after),
        0 <= i < after.len(),
        before.len() <= after.len() <= before.len() + 1,
        i < before.len() ==> after.len() == before.len() && after[i].0 == before[i].0,
        after[i].0 != other,
        forall|k: int| 0 <= k < before.len() && k != i ==> after[k] == before[k],
    ensures
        lacks_key(after, other) == lacks_key(before, other),
        !lacks_key(before, other) ==> after[entry_index(after, other)] == before[entry_index(
            before,
            other,
        )],
{
    if lacks_key(before, other) {
        assert forall|k: int| 0 <= k < after.len() implies after[k].0 != other by {
            if k != i {
                assert(after[k] == before[k]);
            }
        }
    } else {
        let j = choose|j: int| 0 <= j < before.len() && before[j].0 == other;
        assert(key_at(before, other, j));
        let k = entry_index(before, other);
        assert(after[k] == before[k]);
        lemma_entry_index(after, other, k);
    }
}

} // verus!
