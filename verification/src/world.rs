//! Chunks, their tile layers, and the worlds that hold them.

use vstd::prelude::*;
use std::collections::HashMap;
use crate::content::{
    distinct_keys, entry_index, find_key, lacks_key, lemma_entry_index, InitEnvironment,
};
use crate::message::layers_view;
use crate::names::{TilesetId, WorldId};
use crate::pos::{ChunkOffset, ChunkPosition, CHUNK_AREA};

verus! {

/// One layer of a chunk: the number of the tile at every offset, and the
/// handle of the script table of each tile that has one.
pub struct ChunkTileLayer {
    pub tiles: Vec<u32>,
    pub data: HashMap<u32, u64>,
}

/// What a layer holds.
pub struct LayerView {
    pub tiles: Seq<u32>,
    pub data: Map<u32, u64>,
}

impl View for ChunkTileLayer {
    type V = LayerView;

    open spec fn view(&self) -> LayerView {
        LayerView { tiles: self.tiles@, data: self.data@ }
    }
}

/// The layer in which every tile is the default tile and no tile has a script
/// table.
pub open spec fn blank_layer() -> LayerView {
    LayerView { tiles: Seq::new(CHUNK_AREA as nat, |i: int| 0u32), data: Map::empty() }
}

/// The number of the tile at the index `index` of the layer of `tileset`: 0,
/// the default tile, where the chunk has no such layer.
pub open spec fn tile_in(layers: Seq<(TilesetId, LayerView)>, tileset: TilesetId, index: int) -> u32 {
    if lacks_key(layers, tileset) {
        0
    } else {
        layers[entry_index(layers, tileset)].1.tiles[index]
    }
}

/// The script table of the tile at the index `index` of the layer of
/// `tileset`.
pub open spec fn data_in(layers: Seq<(TilesetId, LayerView)>, tileset: TilesetId, index: int) -> Option<
    u64,
> {
    if lacks_key(layers, tileset) {
        None
    } else {
        let data = layers[entry_index(layers, tileset)].1.data;
        if data.contains_key(index as u32) {
            Some(data[index as u32])
        } else {
            None
        }
    }
}

/// The layers after the tile `tile` was put at `index` in the layer of
/// `tileset`: the layer is made if the chunk had none, and the script table
/// of the tile that was there is dropped.
pub open spec fn written(
    layers: Seq<(TilesetId, LayerView)>,
    tileset: TilesetId,
    index: int,
    tile: u32,
) -> Seq<(TilesetId, LayerView)> {
    if lacks_key(layers, tileset) {
        layers.push(
            (tileset, LayerView { tiles: blank_layer().tiles.update(index, tile), data: Map::empty() }),
        )
    } else {
        let i = entry_index(layers, tileset);
        layers.update(
            i,
            (
                tileset,
                LayerView {
                    tiles: layers[i].1.tiles.update(index, tile),
                    data: layers[i].1.data.remove(index as u32),
                },
            ),
        )
    }
}

/// The layers after the tile at `index` in the layer of `tileset` was given
/// the script table `fresh` unless it had one: the layer is made if the
/// chunk had none.
pub open spec fn with_data(
    layers: Seq<(TilesetId, LayerView)>,
    tileset: TilesetId,
    index: int,
    fresh: u64,
) -> Seq<(TilesetId, LayerView)> {
    if lacks_key(layers, tileset) {
        layers.push(
            (
                tileset,
                LayerView {
                    tiles: blank_layer().tiles,
                    data: Map::<u32, u64>::empty().insert(index as u32, fresh),
                },
            ),
        )
    } else {
        let i = entry_index(layers, tileset);
        if layers[i].1.data.contains_key(index as u32) {
            layers
        } else {
            layers.update(
                i,
                (
                    tileset,
                    LayerView {
                        tiles: layers[i].1.tiles,
                        data: layers[i].1.data.insert(index as u32, fresh),
                    },
                ),
            )
        }
    }
}

impl ChunkTileLayer {
    /// The layer has a tile at every offset of the chunk, and script tables
    /// only at offsets of the chunk.
    pub open spec fn wf(&self) -> bool {
        &&& self.tiles@.len() == CHUNK_AREA
        &&& forall|k: u32| #[trigger] self.data@.contains_key(k) ==> k < CHUNK_AREA
    }

    /// The layer in which every tile is the default tile and no tile has a
    /// script table.
    pub open spec fn is_blank(&self) -> bool {
        &&& self.tiles@ == Seq::new(CHUNK_AREA as nat, |i: int| 0u32)
        &&& self.data@ == Map::<u32, u64>::empty()
    }

    /// The layer of default tiles.
    pub fn new() -> (layer: ChunkTileLayer)
        ensures
            layer.wf(),
            layer.is_blank(),
    {
        let tiles: Vec<u32> = vec![0u32; 1024];
        assert(tiles@ =~= Seq::new(CHUNK_AREA as nat, |i: int| 0u32));
        ChunkTileLayer { tiles, data: HashMap::new() }
    }

    /// The number of the tile at `offset`.
    pub fn get(&self, offset: ChunkOffset) -> (tile: u32)
        requires
            self.wf(),
            offset.wf(),
        ensures
            tile == self.tiles@[offset.spec_index()],
    {
        self.tiles[offset.index()]
    }

    /// Puts the tile with the number `tile` at `offset`. The script table of
    /// the tile that was there is dropped from the layer and handed back.
    pub fn set(&mut self, offset: ChunkOffset, tile: u32) -> (dropped: Option<u64>)
        requires
            old(self).wf(),
            offset.wf(),
        ensures
            final(self).wf(),
            final(self).tiles@ == old(self).tiles@.update(offset.spec_index(), tile),
            final(self).data@ == old(self).data@.remove(offset.spec_index() as u32),
            dropped == (if old(self).data@.contains_key(offset.spec_index() as u32) {
                Some(old(self).data@[offset.spec_index() as u32])
            } else {
                None
            }),
    {
        let index = offset.index();
        self.tiles[index] = tile;
        let key = index as u32;
        self.data.remove(&key)
    }

    /// The script table of the tile at `offset`, if it has one.
    pub fn get_data(&self, offset: ChunkOffset) -> (table: Option<u64>)
        requires
            self.wf(),
            offset.wf(),
        ensures
            table == (if self.data@.contains_key(offset.spec_index() as u32) {
                Some(self.data@[offset.spec_index() as u32])
            } else {
                None
            }),
    {
        let key = offset.index() as u32;
        match self.data.get(&key) {
            Some(table) => Some(*table),
            None => None,
        }
    }

    /// The script table of the tile at `offset`; if the tile has none yet,
    /// `fresh` becomes its table.
    pub fn get_data_or_insert(&mut self, offset: ChunkOffset, fresh: u64) -> (table: u64)
        requires
            old(self).wf(),
            offset.wf(),
        ensures
            final(self).wf(),
            final(self).tiles@ == old(self).tiles@,
            old(self).data@.contains_key(offset.spec_index() as u32) ==> table == old(
                self,
            ).data@[offset.spec_index() as u32] && final(self).data@ == old(self).data@,
            !old(self).data@.contains_key(offset.spec_index() as u32) ==> table == fresh
                && final(self).data@ == old(self).data@.insert(offset.spec_index() as u32, fresh),
    {
        match self.get_data(offset) {
            Some(table) => table,
            None => {
                let key = offset.index() as u32;
                self.data.insert(key, fresh);
                fresh
            },
        }
    }
}

/// The tiles of each layer.
pub open spec fn tiles_of(layers: Seq<(TilesetId, LayerView)>) -> Seq<(TilesetId, Seq<u32>)> {
    layers.map_values(|l: (TilesetId, LayerView)| (l.0, l.1.tiles))
}

/// A list without duplicates keeps every entry but `id` when `id` is taken
/// out, and has no duplicates afterwards.
pub proof fn lemma_without(list: Seq<u128>, id: u128)
    requires
        list.no_duplicates(),
    ensures
        without(list, id).no_duplicates(),
        forall|x: u128| #[trigger] without(list, id).contains(x) <==> list.contains(x) && x != id,
{
    if list.contains(id) {
        let k = list.index_of(id);
        let rest = list.remove(k);
        assert forall|x: u128| #[trigger] rest.contains(x) <==> list.contains(x) && x != id by {
            if rest.contains(x) {
                let j = choose|j: int| 0 <= j < rest.len() && rest[j] == x;
                if j < k {
                    assert(list[j] == x);
                } else {
                    assert(list[j + 1] == x);
                }
            }
            if list.contains(x) && x != id {
                let j = choose|j: int| 0 <= j < list.len() && list[j] == x;
                if j < k {
                    assert(rest[j] == x);
                } else {
                    assert(rest[j - 1] == x);
                }
            }
        }
    }
}

/// A copy of `list`.
pub fn copy_ids(list: &Vec<u128>) -> (copy: Vec<u128>)
    ensures
        copy@ == list@,
{
    let mut copy: Vec<u128> = Vec::new();
    let mut i: usize = 0;
    while i < list.len()
        invariant
            i <= list.len(),
            copy@ == list@.take(i as int),
        decreases list.len() - i,
    {
        copy.push(list[i]);
        assert(copy@ =~= list@.take(i as int + 1));
        i += 1;
    }
    assert(list@.take(list@.len() as int) =~= list@);
    copy
}

/// A copy of `tiles`.
pub fn copy_tiles(tiles: &Vec<u32>) -> (copy: Vec<u32>)
    ensures
        copy@ == tiles@,
{
    let mut copy: Vec<u32> = Vec::new();
    let mut i: usize = 0;
    while i < tiles.len()
        invariant
            i <= tiles.len(),
            copy@ == tiles@.take(i as int),
        decreases tiles.len() - i,
    {
        copy.push(tiles[i]);
        assert(copy@ =~= tiles@.take(i as int + 1));
        i += 1;
    }
    assert(tiles@.take(tiles@.len() as int) =~= tiles@);
    copy
}

/// The list `list` without its entry `id`.
pub open spec fn without(list: Seq<u128>, id: u128) -> Seq<u128> {
    if list.contains(id) {
        list.remove(list.index_of(id))
    } else {
        list
    }
}

/// The entries of `a` that are not in `b`, in the order of `a`.
pub open spec fn only_in(a: Seq<u128>, b: Seq<u128>) -> Seq<u128> {
    a.filter(|v: u128| !b.contains(v))
}

/// The entries of `a` that are in `b` too, in the order of `a`.
pub open spec fn in_both(a: Seq<u128>, b: Seq<u128>) -> Seq<u128> {
    a.filter(|v: u128| b.contains(v))
}

/// Taking one more entry of `a` into account adds it to one of the two
/// parts of `a`.
pub proof fn lemma_parts_step(a: Seq<u128>, b: Seq<u128>, i: int)
    requires
        0 <= i < a.len(),
    ensures
        only_in(a.take(i + 1), b) == (if b.contains(a[i]) {
            only_in(a.take(i), b)
        } else {
            only_in(a.take(i), b).push(a[i])
        }),
        in_both(a.take(i + 1), b) == (if b.contains(a[i]) {
            in_both(a.take(i), b).push(a[i])
        } else {
            in_both(a.take(i), b)
        }),
{
    assert(a.take(i + 1) =~= a.take(i).push(a[i]));
    a.take(i).lemma_filter_push(a[i], |v: u128| !b.contains(v));
    a.take(i).lemma_filter_push(a[i], |v: u128| b.contains(v));
}

/// Whether `id` is in `list`.
pub fn list_contains(list: &Vec<u128>, id: u128) -> (b: bool)
    ensures
        b == list@.contains(id),
{
    let mut i: usize = 0;
    while i < list.len()
        invariant
            i <= list.len(),
            forall|j: int| 0 <= j < i ==> list@[j] != id,
        decreases list.len() - i,
    {
        if list[i] == id {
            return true;
        }
        i += 1;
    }
    false
}

/// Takes `id` out of `list`.
pub fn list_remove(list: &mut Vec<u128>, id: u128)
    requires
        old(list)@.no_duplicates(),
    ensures
        final(list)@ == without(old(list)@, id),
        final(list)@.no_duplicates(),
        forall|x: u128| final(list)@.contains(x) <==> old(list)@.contains(x) && x != id,
{
    let mut i: usize = 0;
    while i < list.len()
        invariant
            i <= list.len(),
            list@ == old(list)@,
            list@.no_duplicates(),
            forall|j: int| 0 <= j < i ==> list@[j] != id,
        decreases list.len() - i,
    {
        if list[i] == id {
            proof {
                let k = old(list)@.index_of(id);
                assert(old(list)@[i as int] == id);
                assert(old(list)@.contains(id));
                assert(0 <= k < old(list)@.len() && old(list)@[k] == id);
                assert(k == i);
            }
            list.remove(i);
            proof {
                let before = old(list)@;
                assert forall|x: u128| list@.contains(x) <==> before.contains(x) && x != id by {
                    if list@.contains(x) {
                        let j = choose|j: int| 0 <= j < list@.len() && list@[j] == x;
                        if j < i {
                            assert(before[j] == x);
                        } else {
                            assert(before[j + 1] == x);
                        }
                    }
                    if before.contains(x) && x != id {
                        let j = choose|j: int| 0 <= j < before.len() && before[j] == x;
                        assert(j != i);
                        if j < i {
                            assert(list@[j] == x);
                        } else {
                            assert(list@[j - 1] == x);
                        }
                    }
                }
            }
            return ;
        }
        i += 1;
    }
    proof {
        assert(!old(list)@.contains(id));
    }
}

/// A square of 32 by 32 tiles: its layers by tileset, the entities that
/// stand on it and the sessions that watch it. Each of the three is a list
/// without duplicates, in the order in which its entries came: a chunk is
/// sent, and its viewers are told, in that order, so that what goes out is
/// fixed by the state.
pub struct Chunk {
    pub tile_layers: Vec<(TilesetId, ChunkTileLayer)>,
    pub entities: Vec<u128>,
    pub viewers: Vec<u128>,
}

impl Chunk {
    /// One layer for a tileset at most, every layer complete, and no entity
    /// or viewer listed twice.
    pub open spec fn wf(&self) -> bool {
        &&& distinct_keys(self.tile_layers@)
        &&& forall|i: int| 0 <= i < self.tile_layers@.len() ==> (#[trigger] self.tile_layers@[i]).1.wf()
        &&& self.entities@.no_duplicates()
        &&& self.viewers@.no_duplicates()
    }

    /// Every layer belongs to a registered tileset, and every tile of it is
    /// one of the tiles of that tileset.
    pub open spec fn tiles_known(&self, content: &InitEnvironment) -> bool {
        &&& forall|i: int|
            0 <= i < self.tile_layers@.len() ==> content.has_tileset(
                (#[trigger] self.tile_layers@[i]).0,
            )
        &&& forall|i: int, k: int|
            0 <= i < self.tile_layers@.len() && 0 <= k < CHUNK_AREA ==> (
            #[trigger] self.tile_layers@[i].1.tiles@[k]) < content.spec_tileset(
                self.tile_layers@[i].0,
            ).spec_len()
    }

    /// Every layer of the chunk is a layer of `before` with the same tiles
    /// but for the tile `tile`, or a new layer of `tileset` with default
    /// tiles but for the tile `tile`.
    pub open spec fn grown_from(&self, before: &Chunk, tileset: TilesetId, tile: u32) -> bool {
        forall|i: int, k: int|
            0 <= i < self.tile_layers@.len() && 0 <= k < CHUNK_AREA ==> {
                let now = #[trigger] self.tile_layers@[i].1.tiles@[k];
                if i < before.tile_layers@.len() {
                    self.tile_layers@[i].0 == before.tile_layers@[i].0 && (now
                        == before.tile_layers@[i].1.tiles@[k] || (now == tile
                        && self.tile_layers@[i].0 == tileset))
                } else {
                    self.tile_layers@[i].0 == tileset && (now == 0 || now == tile)
                }
            }
    }

    /// The chunk has no layer, no entity and no viewer.
    pub open spec fn is_blank(&self) -> bool {
        &&& self.tile_layers@.len() == 0
        &&& self.entities@.len() == 0
        &&& self.viewers@.len() == 0
    }

    /// What the layers hold, by tileset.
    pub open spec fn layer_views(&self) -> Seq<(TilesetId, LayerView)> {
        self.tile_layers@.map_values(|l: (TilesetId, ChunkTileLayer)| (l.0, l.1@))
    }

    /// The chunk in which nothing was changed or placed yet.
    pub fn new() -> (chunk: Chunk)
        ensures
            chunk.wf(),
            chunk.is_blank(),
    {
        Chunk { tile_layers: Vec::new(), entities: Vec::new(), viewers: Vec::new() }
    }

    /// The number of the tile at `offset` in the layer of `tileset`.
    pub fn tile_at(&self, tileset: TilesetId, offset: ChunkOffset) -> (tile: u32)
        requires
            self.wf(),
            offset.wf(),
        ensures
            tile == tile_in(self.layer_views(), tileset, offset.spec_index()),
    {
        proof {
            self.lemma_layer_keys();
        }
        match find_key(&self.tile_layers, tileset) {
            Some(i) => {
                proof {
                    lemma_entry_index(self.layer_views(), tileset, i as int);
                }
                self.tile_layers[i].1.get(offset)
            },
            None => 0,
        }
    }

    /// The script table of the tile at `offset` in the layer of `tileset`.
    pub fn data_at(&self, tileset: TilesetId, offset: ChunkOffset) -> (table: Option<u64>)
        requires
            self.wf(),
            offset.wf(),
        ensures
            table == data_in(self.layer_views(), tileset, offset.spec_index()),
    {
        proof {
            self.lemma_layer_keys();
        }
        match find_key(&self.tile_layers, tileset) {
            Some(i) => {
                proof {
                    lemma_entry_index(self.layer_views(), tileset, i as int);
                }
                self.tile_layers[i].1.get_data(offset)
            },
            None => None,
        }
    }

    /// Puts the tile with the number `tile` at `offset` in the layer of
    /// `tileset`, and hands back the script table that the tile there had.
    pub fn set_tile(&mut self, tileset: TilesetId, offset: ChunkOffset, tile: u32) -> (dropped:
        Option<u64>)
        requires
            old(self).wf(),
            offset.wf(),
        ensures
            final(self).wf(),
            final(self).layer_views() == written(
                old(self).layer_views(),
                tileset,
                offset.spec_index(),
                tile,
            ),
            dropped == data_in(old(self).layer_views(), tileset, offset.spec_index()),
            final(self).entities == old(self).entities,
            final(self).viewers == old(self).viewers,
            final(self).grown_from(old(self), tileset, tile),
    {
        proof {
            self.lemma_layer_keys();
        }
        match find_key(&self.tile_layers, tileset) {
            Some(i) => {
                proof {
                    lemma_entry_index(old(self).layer_views(), tileset, i as int);
                }
                let entry = &mut self.tile_layers[i];
                let dropped = entry.1.set(offset, tile);
                proof {
                    assert(self.layer_views() =~= written(
                        old(self).layer_views(),
                        tileset,
                        offset.spec_index(),
                        tile,
                    ));
                    assert forall|a: int, b: int|
                        0 <= a < b < self.tile_layers@.len() implies self.tile_layers@[a].0
                        != self.tile_layers@[b].0 by {
                        assert(self.tile_layers@[a].0 == old(self).tile_layers@[a].0);
                        assert(self.tile_layers@[b].0 == old(self).tile_layers@[b].0);
                    }
                    assert forall|a: int| 0 <= a < self.tile_layers@.len() implies (
                    #[trigger] self.tile_layers@[a]).1.wf() by {
                        if a != i {
                            assert(self.tile_layers@[a] == old(self).tile_layers@[a]);
                        }
                    }
                }
                dropped
            },
            None => {
                let mut layer = ChunkTileLayer::new();
                layer.set(offset, tile);
                self.tile_layers.push((tileset, layer));
                proof {
                    assert(layer.data@ =~= Map::<u32, u64>::empty());
                    assert(self.layer_views() =~= written(
                        old(self).layer_views(),
                        tileset,
                        offset.spec_index(),
                        tile,
                    ));
                    let n = old(self).tile_layers@.len() as int;
                    assert forall|a: int, b: int|
                        0 <= a < b < self.tile_layers@.len() implies self.tile_layers@[a].0
                        != self.tile_layers@[b].0 by {
                        assert(self.tile_layers@[a] == old(self).tile_layers@[a]);
                        if b < n {
                            assert(self.tile_layers@[b] == old(self).tile_layers@[b]);
                        }
                    }
                    assert forall|a: int| 0 <= a < self.tile_layers@.len() implies (
                    #[trigger] self.tile_layers@[a]).1.wf() by {
                        if a < n {
                            assert(self.tile_layers@[a] == old(self).tile_layers@[a]);
                        }
                    }
                }
                None
            },
        }
    }

    /// The script table of the tile at `offset` in the layer of `tileset`;
    /// if the tile has none yet, `fresh` becomes its table.
    pub fn data_or_insert(&mut self, tileset: TilesetId, offset: ChunkOffset, fresh: u64) -> (table:
        u64)
        requires
            old(self).wf(),
            offset.wf(),
        ensures
            final(self).wf(),
            final(self).layer_views() == with_data(
                old(self).layer_views(),
                tileset,
                offset.spec_index(),
                fresh,
            ),
            table == (match data_in(old(self).layer_views(), tileset, offset.spec_index()) {
                Some(t) => t,
                None => fresh,
            }),
            final(self).entities == old(self).entities,
            final(self).viewers == old(self).viewers,
            final(self).grown_from(old(self), tileset, 0),
    {
        proof {
            self.lemma_layer_keys();
        }
        match find_key(&self.tile_layers, tileset) {
            Some(i) => {
                proof {
                    lemma_entry_index(old(self).layer_views(), tileset, i as int);
                }
                let entry = &mut self.tile_layers[i];
                let table = entry.1.get_data_or_insert(offset, fresh);
                proof {
                    assert(self.layer_views() =~= with_data(
                        old(self).layer_views(),
                        tileset,
                        offset.spec_index(),
                        fresh,
                    ));
                    assert forall|a: int, b: int|
                        0 <= a < b < self.tile_layers@.len() implies self.tile_layers@[a].0
                        != self.tile_layers@[b].0 by {
                        assert(self.tile_layers@[a].0 == old(self).tile_layers@[a].0);
                        assert(self.tile_layers@[b].0 == old(self).tile_layers@[b].0);
                    }
                    assert forall|a: int| 0 <= a < self.tile_layers@.len() implies (
                    #[trigger] self.tile_layers@[a]).1.wf() by {
                        if a != i {
                            assert(self.tile_layers@[a] == old(self).tile_layers@[a]);
                        }
                    }
                }
                table
            },
            None => {
                let mut layer = ChunkTileLayer::new();
                layer.get_data_or_insert(offset, fresh);
                self.tile_layers.push((tileset, layer));
                proof {
                    assert(self.layer_views() =~= with_data(
                        old(self).layer_views(),
                        tileset,
                        offset.spec_index(),
                        fresh,
                    ));
                    let n = old(self).tile_layers@.len() as int;
                    assert forall|a: int, b: int|
                        0 <= a < b < self.tile_layers@.len() implies self.tile_layers@[a].0
                        != self.tile_layers@[b].0 by {
                        assert(self.tile_layers@[a] == old(self).tile_layers@[a]);
                        if b < n {
                            assert(self.tile_layers@[b] == old(self).tile_layers@[b]);
                        }
                    }
                    assert forall|a: int| 0 <= a < self.tile_layers@.len() implies (
                    #[trigger] self.tile_layers@[a]).1.wf() by {
                        if a < n {
                            assert(self.tile_layers@[a] == old(self).tile_layers@[a]);
                        }
                    }
                }
                fresh
            },
        }
    }

    /// The tiles of every layer, as a session is sent them.
    pub fn snapshot(&self) -> (layers: Vec<(TilesetId, Vec<u32>)>)
        ensures
            layers_view(layers@) == tiles_of(self.layer_views()),
    {
        let mut layers: Vec<(TilesetId, Vec<u32>)> = Vec::new();
        let mut i: usize = 0;
        while i < self.tile_layers.len()
            invariant
                i <= self.tile_layers.len(),
                layers_view(layers@) == tiles_of(self.layer_views()).take(i as int),
            decreases self.tile_layers.len() - i,
        {
            let ghost before = layers@;
            let tiles = copy_tiles(&self.tile_layers[i].1.tiles);
            layers.push((self.tile_layers[i].0, tiles));
            proof {
                let target = tiles_of(self.layer_views());
                assert(layers_view(before).len() == i);
                assert forall|k: int| 0 <= k < i implies layers_view(layers@)[k] == target[k] by {
                    assert(layers@[k] == before[k]);
                    assert(layers_view(before)[k] == target.take(i as int)[k]);
                }
                assert(layers_view(layers@)[i as int] == target[i as int]);
                assert(layers_view(layers@) =~= target.take(i as int + 1));
            }
            i += 1;
        }
        assert(tiles_of(self.layer_views()).take(self.tile_layers@.len() as int) =~= tiles_of(
            self.layer_views(),
        ));
        layers
    }

    /// The layers are found under the same keys as what they hold.
    pub proof fn lemma_layer_keys(&self)
        ensures
            self.layer_views().len() == self.tile_layers@.len(),
            forall|i: int|
                0 <= i < self.tile_layers@.len() ==> (#[trigger] self.layer_views()[i]).0
                    == self.tile_layers@[i].0 && self.layer_views()[i].1 == self.tile_layers@[i].1@,
            distinct_keys(self.tile_layers@) ==> distinct_keys(self.layer_views()),
            forall|key: TilesetId|
                lacks_key(self.tile_layers@, key) <==> lacks_key(self.layer_views(), key),
    {
        assert forall|key: TilesetId|
            lacks_key(self.tile_layers@, key) <==> lacks_key(self.layer_views(), key) by {
            if lacks_key(self.tile_layers@, key) {
                assert forall|i: int| 0 <= i < self.layer_views().len() implies self.layer_views()[i].0
                    != key by {
                    assert(self.tile_layers@[i].0 != key);
                }
            }
            if lacks_key(self.layer_views(), key) {
                assert forall|i: int| 0 <= i < self.tile_layers@.len() implies self.tile_layers@[i].0
                    != key by {
                    assert(self.layer_views()[i].0 != key);
                }
            }
        }
    }
}

/// A chunk that keeps its layers keeps tiles of registered tilesets.
pub proof fn lemma_tiles_known_kept(before: Chunk, after: Chunk, content: &InitEnvironment)
    requires
        before.tiles_known(content),
        after.tile_layers@ == before.tile_layers@,
    ensures
        after.tiles_known(content),
{
}

/// A chunk that gains or changes a layer of a registered tileset by a tile
/// of that tileset keeps tiles of registered tilesets.
pub proof fn lemma_tiles_known_grown(
    before: Chunk,
    after: Chunk,
    content: &InitEnvironment,
    tileset: TilesetId,
    tile: u32,
)
    requires
        before.tiles_known(content),
        after.grown_from(&before, tileset, tile),
        content.has_tileset(tileset),
        tile < content.spec_tileset(tileset).spec_len(),
    ensures
        after.tiles_known(content),
{
    assert forall|i: int| 0 <= i < after.tile_layers@.len() implies content.has_tileset(
        (#[trigger] after.tile_layers@[i]).0,
    ) by {
        let first_tile = after.tile_layers@[i].1.tiles@[0];
        if i < before.tile_layers@.len() {
            assert(content.has_tileset(before.tile_layers@[i].0));
        } else {
            assert(first_tile == 0 || first_tile == tile);
        }
    }
    assert forall|i: int, k: int|
        0 <= i < after.tile_layers@.len() && 0 <= k < CHUNK_AREA implies (
    #[trigger] after.tile_layers@[i].1.tiles@[k]) < content.spec_tileset(
        after.tile_layers@[i].0,
    ).spec_len() by {
        if i < before.tile_layers@.len() {
            assert(before.tile_layers@[i].1.tiles@[k] < content.spec_tileset(
                before.tile_layers@[i].0,
            ).spec_len());
        }
    }
}

/// The place of a chunk: its world and its coordinates there.
#[derive(Copy, Clone, Debug, PartialEq, Eq, Structural)]
pub struct ChunkRef {
    pub world: WorldId,
    pub position: ChunkPosition,
}

/// The key under which a world keeps the chunk at `position`.
pub open spec fn chunk_key(position: ChunkPosition) -> u32 {
    ((position.x + 32768) * 65536 + (position.y + 32768)) as u32
}

/// The key under which a world keeps the chunk at `position`.
pub fn key_of(position: ChunkPosition) -> (key: u32)
    ensures
        key == chunk_key(position),
{
    let x: u32 = (position.x as i32 + 32768) as u32;
    let y: u32 = (position.y as i32 + 32768) as u32;
    x * 65536 + y
}

/// Chunks at different coordinates have different keys.
pub proof fn lemma_chunk_key_injective(a: ChunkPosition, b: ChunkPosition)
    ensures
        chunk_key(a) == chunk_key(b) <==> a == b,
{
}

/// A world: the chunks that were reached so far, by their coordinates.
pub struct World {
    pub chunks: HashMap<u32, Chunk>,
}

impl World {
    /// The world in which no chunk was reached yet.
    pub fn new() -> (world: World)
        ensures
            world.chunks@ == Map::<u32, Chunk>::empty(),
    {
        World { chunks: HashMap::new() }
    }

    pub open spec fn has_chunk(&self, position: ChunkPosition) -> bool {
        self.chunks@.contains_key(chunk_key(position))
    }

    pub open spec fn chunk(&self, position: ChunkPosition) -> Chunk {
        self.chunks@[chunk_key(position)]
    }
}

} // verus!
