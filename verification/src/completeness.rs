//! Replication completeness: what a session was sent is enough to rebuild
//! the part of the world that it watches.

use vstd::prelude::*;
use crate::client::{add_all, remove_all, set_in, shown, ClientView};
use crate::content::{
    distinct_keys, first_index, key_at, lacks_key, lemma_entry_index, lemma_first_index,
};
use crate::entity::EntityAnimation;
use crate::interest::{in_view, lemma_window_at, lemma_window_covers, window_at, window_index};
use crate::message::{to_each, MessageView, OutboundView};
use crate::names::{EntityTypeId, TilesetId, WorldId};
use crate::ordering::{
    lemma_chunk_mentions, lemma_parts, lemma_viewers_once, lemma_window_messages_to, mention, sent_since,
    shows, Mention,
};
use crate::session::WINDOW_AREA;
use crate::world::{lemma_without, without};
use crate::pos::{Position, TilePosition, CHUNK_AREA};
use crate::server::{lemma_same_elsewhere, Server};
use crate::world::{
    chunk_key, in_both, lemma_chunk_key_injective, only_in, tile_in, tiles_of, with_data,
    written, ChunkRef, LayerView,
};

verus! {

/// The number of the tile at `index` in the first layer of `tileset`, as a
/// session holds it: 0, the default tile, where it holds no such layer.
pub open spec fn held_tile(layers: Seq<(TilesetId, Seq<u32>)>, tileset: TilesetId, index: int) -> u32 {
    if lacks_key(layers, tileset) {
        0
    } else {
        let tiles = layers[first_index(layers, tileset)].1;
        if 0 <= index < tiles.len() {
            tiles[index]
        } else {
            0
        }
    }
}

/// Every layer has a tile for every offset of a chunk.
pub open spec fn full_layers(layers: Seq<(TilesetId, Seq<u32>)>) -> bool {
    forall|i: int| 0 <= i < layers.len() ==> (#[trigger] layers[i]).1.len() == CHUNK_AREA
}

/// What the session `c` knows once it has taken in, in their order, the
/// messages of `log` that go to it.
pub open spec fn take_in(view: ClientView, log: Seq<OutboundView>, c: u128) -> ClientView
    decreases log.len(),
{
    if log.len() == 0 {
        view
    } else {
        let earlier = take_in(view, log.drop_last(), c);
        if log.last().to == c {
            earlier.apply(log.last().message)
        } else {
            earlier
        }
    }
}

impl Server {
    /// What the session holds of the chunk at `q` is what the chunk holds:
    /// the same tile at every offset of every layer.
    pub open spec fn chunk_mirrored(&self, q: ChunkRef, view: ClientView) -> bool {
        let key = chunk_key(q.position);
        &&& view.chunks.contains_key(key)
        &&& full_layers(view.chunks[key])
        &&& forall|tileset: TilesetId, index: int|
            0 <= index < CHUNK_AREA ==> #[trigger] held_tile(view.chunks[key], tileset, index)
                == tile_in(self.layers(q), tileset, index)
    }

    /// `view` is enough to rebuild what the session `c` watches: it holds
    /// every chunk of the window of the session with the tiles that the
    /// chunk has, and every entity that stands on a chunk of the window.
    pub open spec fn mirrored(&self, c: u128, view: ClientView) -> bool {
        &&& forall|q: ChunkRef| #[trigger]
            in_view(self.clients@[c].loaded, q) ==> self.chunk_mirrored(q, view)
        &&& forall|e: u128| #[trigger] self.knows(c, e) ==> view.entities.contains_key(e)
    }
}

/// Messages are taken in one batch after the other.
pub proof fn lemma_take_in_concat(
    view: ClientView,
    first: Seq<OutboundView>,
    second: Seq<OutboundView>,
    c: u128,
)
    ensures
        take_in(view, first + second, c) == take_in(take_in(view, first, c), second, c),
    decreases second.len(),
{
    if second.len() == 0 {
        assert(first + second =~= first);
    } else {
        assert((first + second).drop_last() =~= first + second.drop_last());
        assert((first + second).last() == second.last());
        lemma_take_in_concat(view, first, second.drop_last(), c);
    }
}

/// Of one message to each session of a list without duplicates, a session of
/// the list takes in the message, and any other nothing.
pub proof fn lemma_take_in_to_each(
    view: ClientView,
    recipients: Seq<u128>,
    message: MessageView,
    c: u128,
)
    requires
        recipients.no_duplicates(),
    ensures
        take_in(view, to_each(recipients, message), c) == (if recipients.contains(c) {
            view.apply(message)
        } else {
            view
        }),
    decreases recipients.len(),
{
    let log = to_each(recipients, message);
    if recipients.len() > 0 {
        let shorter = recipients.drop_last();
        assert(log.drop_last() =~= to_each(shorter, message));
        assert(log.last() == OutboundView { to: recipients.last(), message });
        lemma_take_in_to_each(view, shorter, message, c);
        if recipients.last() == c {
            assert(recipients[recipients.len() - 1] == c);
            if shorter.contains(c) {
                let k = choose|k: int| 0 <= k < shorter.len() && shorter[k] == c;
                assert(recipients[k] == c);
            }
        } else {
            if recipients.contains(c) {
                let k = choose|k: int| 0 <= k < recipients.len() && recipients[k] == c;
                assert(shorter[k] == c);
            }
            if shorter.contains(c) {
                let k = choose|k: int| 0 <= k < shorter.len() && shorter[k] == c;
                assert(recipients[k] == c);
            }
        }
    }
}

/// Messages to other sessions leave what a session knows as it is.
pub proof fn lemma_take_in_others(view: ClientView, log: Seq<OutboundView>, c: u128)
    requires
        forall|i: int| 0 <= i < log.len() ==> (#[trigger] log[i]).to != c,
    ensures
        take_in(view, log, c) == view,
    decreases log.len(),
{
    if log.len() > 0 {
        assert forall|i: int| 0 <= i < log.drop_last().len() implies (#[trigger] log.drop_last()[i]).to
            != c by {
            assert(log.drop_last()[i] == log[i]);
        }
        lemma_take_in_others(view, log.drop_last(), c);
        assert(log.last() == log[log.len() - 1]);
    }
}

/// Where the chunk at `at` keeps its viewers and layers and every other
/// chunk is as it was, every chunk has the viewers and the layers it had.
proof fn lemma_chunks_kept(before: &Server, after: &Server, at: ChunkRef)
    requires
        after.chunks().remove(at) == before.chunks().remove(at),
        after.viewers(at) == before.viewers(at),
    ensures
        forall|q: ChunkRef| #[trigger] after.viewers(q) == before.viewers(q),
        forall|q: ChunkRef| q != at ==> #[trigger] after.layers(q) == before.layers(q),
{
    lemma_same_elsewhere(before.chunks(), after.chunks(), at);
    assert forall|q: ChunkRef| #[trigger] after.viewers(q) == before.viewers(q) by {
        if q != at {
            assert(after.chunks().contains_key(q) <==> before.chunks().contains_key(q));
        }
    }
    assert forall|q: ChunkRef| q != at implies #[trigger] after.layers(q) == before.layers(q) by {
        assert(after.chunks().contains_key(q) <==> before.chunks().contains_key(q));
    }
}

/// What a session knows is still enough when the world keeps its tiles and
/// windows, the session keeps or gains chunks' worth of nothing, and it
/// holds every entity it is to know.
proof fn lemma_mirrored_by_parts(
    before: &Server,
    after: &Server,
    c: u128,
    view: ClientView,
    later: ClientView,
)
    requires
        before.mirrored(c, view),
        after.clients@[c].loaded == before.clients@[c].loaded,
        later.chunks == view.chunks,
        forall|q: ChunkRef, tileset: TilesetId, index: int|
            0 <= index < CHUNK_AREA ==> #[trigger] tile_in(after.layers(q), tileset, index)
                == tile_in(before.layers(q), tileset, index),
        forall|e: u128| #[trigger] after.knows(c, e) ==> later.entities.contains_key(e),
    ensures
        after.mirrored(c, later),
{
    assert forall|q: ChunkRef| #[trigger]
        in_view(after.clients@[c].loaded, q) implies after.chunk_mirrored(q, later) by {
        assert(before.chunk_mirrored(q, view));
        let key = chunk_key(q.position);
        assert forall|tileset: TilesetId, index: int| 0 <= index < CHUNK_AREA implies #[trigger] held_tile(
            later.chunks[key],
            tileset,
            index,
        ) == tile_in(after.layers(q), tileset, index) by {
            assert(held_tile(view.chunks[key], tileset, index) == tile_in(
                before.layers(q),
                tileset,
                index,
            ));
            assert(tile_in(after.layers(q), tileset, index) == tile_in(
                before.layers(q),
                tileset,
                index,
            ));
        }
    }
}

/// Completeness when an entity is made: a session that watches its chunk is
/// shown it.
pub proof fn lemma_spawn_complete(
    before: &Server,
    after: &Server,
    uuid: u128,
    type_id: EntityTypeId,
    position: Position,
    c: u128,
    view: ClientView,
)
    requires
        before.wf(),
        before.spawned(after, uuid, type_id, position),
        before.mirrored(c, view),
    ensures
        after.mirrored(c, take_in(view, sent_since(before, after), c)),
{
    let entity = before.newborn(uuid, type_id, position);
    let at = entity.place();
    let message = MessageView::AddEntity(entity.add_message(before.ticks_passed));
    let later = take_in(view, sent_since(before, after), c);
    assert(sent_since(before, after) =~= to_each(before.viewers(at), message));
    if before.chunks().contains_key(at) {
        assert(before.chunks()[at].wf());
    }
    lemma_take_in_to_each(view, before.viewers(at), message, c);
    lemma_chunks_kept(before, after, at);
    assert forall|e: u128| #[trigger] after.knows(c, e) implies later.entities.contains_key(e) by {
        if e != uuid {
            assert(after.viewers(before.entities@[e].place()) == before.viewers(
                before.entities@[e].place(),
            ));
            assert(before.knows(c, e));
        }
    }
    assert forall|q: ChunkRef, tileset: TilesetId, index: int|
        0 <= index < CHUNK_AREA implies #[trigger] tile_in(after.layers(q), tileset, index)
        == tile_in(before.layers(q), tileset, index) by {
        if q != at {
            assert(after.layers(q) == before.layers(q));
        }
    }
    lemma_mirrored_by_parts(before, after, c, view, later);
}

/// Completeness when an entity is taken out: the sessions forget only that
/// entity.
pub proof fn lemma_remove_complete(
    before: &Server,
    after: &Server,
    uuid: u128,
    c: u128,
    view: ClientView,
)
    requires
        before.wf(),
        before.despawned(after, uuid),
        before.mirrored(c, view),
    ensures
        after.mirrored(c, take_in(view, sent_since(before, after), c)),
{
    let at = before.entities@[uuid].place();
    let message = MessageView::RemoveEntity(uuid);
    let later = take_in(view, sent_since(before, after), c);
    assert(sent_since(before, after) =~= to_each(before.viewers(at), message));
    assert(before.chunks()[at].wf());
    lemma_take_in_to_each(view, before.viewers(at), message, c);
    lemma_chunks_kept(before, after, at);
    assert forall|e: u128| #[trigger] after.knows(c, e) implies later.entities.contains_key(e) by {
        assert(after.viewers(before.entities@[e].place()) == before.viewers(
            before.entities@[e].place(),
        ));
        assert(before.knows(c, e));
    }
    assert forall|q: ChunkRef, tileset: TilesetId, index: int|
        0 <= index < CHUNK_AREA implies #[trigger] tile_in(after.layers(q), tileset, index)
        == tile_in(before.layers(q), tileset, index) by {
        if q != at {
            assert(after.layers(q) == before.layers(q));
        }
    }
    lemma_mirrored_by_parts(before, after, c, view, later);
}

/// Completeness when the animation of an entity changes: no session forgets
/// an entity.
pub proof fn lemma_animation_complete(
    before: &Server,
    after: &Server,
    uuid: u128,
    running: EntityAnimation,
    c: u128,
    view: ClientView,
)
    requires
        before.wf(),
        before.reanimated(after, uuid, running),
        before.mirrored(c, view),
    ensures
        after.mirrored(c, take_in(view, sent_since(before, after), c)),
{
    let at = before.entities@[uuid].place();
    let message = MessageView::UpdateEntityAnimation(
        uuid,
        crate::message::RunningAnimation {
            id: running.animation,
            time: running.spec_running_for(before.ticks_passed),
        },
    );
    let later = take_in(view, sent_since(before, after), c);
    assert(sent_since(before, after) =~= to_each(before.viewers(at), message));
    assert(before.chunks()[at].wf());
    lemma_take_in_to_each(view, before.viewers(at), message, c);
    assert forall|e: u128| #[trigger] after.knows(c, e) implies later.entities.contains_key(e) by {
        assert(after.viewers(before.entities@[e].place()) == before.viewers(
            before.entities@[e].place(),
        ));
        assert(before.knows(c, e));
    }
    assert forall|q: ChunkRef, tileset: TilesetId, index: int|
        0 <= index < CHUNK_AREA implies #[trigger] tile_in(after.layers(q), tileset, index)
        == tile_in(before.layers(q), tileset, index) by {
        assert(after.layers(q) == before.layers(q));
    }
    lemma_mirrored_by_parts(before, after, c, view, later);
}

/// Every layer of a chunk has a tile for every offset.
pub open spec fn sized(layers: Seq<(TilesetId, LayerView)>) -> bool {
    forall|i: int| 0 <= i < layers.len() ==> (#[trigger] layers[i]).1.tiles.len() == CHUNK_AREA
}

/// The layers of a chunk of a consistent state are found by their tilesets,
/// and each has a tile for every offset.
pub proof fn lemma_layers_shape(server: &Server, q: ChunkRef)
    requires
        server.wf(),
    ensures
        distinct_keys(server.layers(q)),
        sized(server.layers(q)),
{
    if server.chunks().contains_key(q) {
        let chunk = server.chunks()[q];
        assert(chunk.wf());
        chunk.lemma_layer_keys();
        assert forall|i: int| 0 <= i < server.layers(q).len() implies (#[trigger] server.layers(
            q,
        )[i]).1.tiles.len() == CHUNK_AREA by {
            assert(chunk.tile_layers@[i].1.wf());
        }
    }
}

/// Where a key is found at all, it is found at a first index.
pub proof fn lemma_first_exists<T>(entries: Seq<(u32, T)>, key: u32)
    requires
        !lacks_key(entries, key),
    ensures
        key_at(entries, key, first_index(entries, key)),
        forall|j: int| 0 <= j < first_index(entries, key) ==> entries[j].0 != key,
    decreases entries.len(),
{
    let some = choose|i: int| 0 <= i < entries.len() && entries[i].0 == key;
    if entries[0].0 == key {
        lemma_first_index(entries, key, 0);
    } else {
        let rest = entries.drop_first();
        assert(rest[some - 1].0 == key);
        lemma_first_exists(rest, key);
        let k = first_index(rest, key);
        assert(entries[k + 1] == rest[k]);
        assert forall|j: int| 0 <= j < k + 1 implies entries[j].0 != key by {
            if j > 0 {
                assert(entries[j] == rest[j - 1]);
            }
        }
        lemma_first_index(entries, key, k + 1);
    }
}

/// A tile that a session puts into the layers it holds is the tile it holds
/// at that place afterwards, and every other tile it holds stays.
pub proof fn lemma_set_in_tiles(
    layers: Seq<(TilesetId, Seq<u32>)>,
    tileset: TilesetId,
    index: int,
    tile: u32,
)
    requires
        full_layers(layers),
        0 <= index < CHUNK_AREA,
    ensures
        full_layers(set_in(layers, tileset, index, tile)),
        forall|other: TilesetId, k: int|
            0 <= k < CHUNK_AREA ==> #[trigger] held_tile(
                set_in(layers, tileset, index, tile),
                other,
                k,
            ) == (if other == tileset && k == index {
                tile
            } else {
                held_tile(layers, other, k)
            }),
{
    let after = set_in(layers, tileset, index, tile);
    if lacks_key(layers, tileset) {
        let n = layers.len() as int;
        assert forall|j: int| 0 <= j < n implies after[j] == layers[j] by {}
        lemma_first_index(after, tileset, n);
        assert forall|other: TilesetId, k: int| 0 <= k < CHUNK_AREA implies #[trigger] held_tile(
            after,
            other,
            k,
        ) == (if other == tileset && k == index {
            tile
        } else {
            held_tile(layers, other, k)
        }) by {
            if other != tileset {
                if lacks_key(layers, other) {
                    assert forall|j: int| 0 <= j < after.len() implies after[j].0 != other by {
                        if j < n {
                            assert(after[j] == layers[j]);
                        }
                    }
                } else {
                    lemma_first_exists(layers, other);
                    let i = first_index(layers, other);
                    assert(after[i] == layers[i]);
                    assert forall|j: int| 0 <= j < i implies after[j].0 != other by {
                        assert(after[j] == layers[j]);
                    }
                    lemma_first_index(after, other, i);
                }
            }
        }
    } else {
        lemma_first_exists(layers, tileset);
        let i = first_index(layers, tileset);
        assert(layers[i].1.len() == CHUNK_AREA);
        assert forall|j: int| 0 <= j < layers.len() implies (#[trigger] after[j]).0
            == layers[j].0 by {}
        assert forall|other: TilesetId, k: int| 0 <= k < CHUNK_AREA implies #[trigger] held_tile(
            after,
            other,
            k,
        ) == (if other == tileset && k == index {
            tile
        } else {
            held_tile(layers, other, k)
        }) by {
            if lacks_key(layers, other) {
                assert forall|j: int| 0 <= j < after.len() implies after[j].0 != other by {
                    assert(after[j].0 == layers[j].0);
                }
            } else {
                lemma_first_exists(layers, other);
                let f = first_index(layers, other);
                assert(after[f].0 == other);
                assert forall|j: int| 0 <= j < f implies after[j].0 != other by {
                    assert(after[j].0 == layers[j].0);
                }
                lemma_first_index(after, other, f);
                if other != tileset {
                    assert(f != i);
                    assert(after[f] == layers[f]);
                }
            }
        }
    }
}

/// What a session holds when it is sent the layers of a chunk is what the
/// chunk holds.
pub proof fn lemma_snapshot_tiles(layers: Seq<(TilesetId, LayerView)>)
    requires
        distinct_keys(layers),
        sized(layers),
    ensures
        full_layers(tiles_of(layers)),
        forall|tileset: TilesetId, k: int|
            0 <= k < CHUNK_AREA ==> #[trigger] held_tile(tiles_of(layers), tileset, k) == tile_in(
                layers,
                tileset,
                k,
            ),
{
    let sent = tiles_of(layers);
    assert forall|i: int| 0 <= i < sent.len() implies (#[trigger] sent[i]).1.len()
        == CHUNK_AREA by {
        assert(layers[i].1.tiles.len() == CHUNK_AREA);
    }
    assert forall|tileset: TilesetId, k: int| 0 <= k < CHUNK_AREA implies #[trigger] held_tile(
        sent,
        tileset,
        k,
    ) == tile_in(layers, tileset, k) by {
        if lacks_key(layers, tileset) {
            assert forall|j: int| 0 <= j < sent.len() implies sent[j].0 != tileset by {
                assert(layers[j].0 != tileset);
            }
        } else {
            let some = choose|i: int| 0 <= i < layers.len() && layers[i].0 == tileset;
            lemma_entry_index(layers, tileset, some);
            assert(sent[some].0 == tileset);
            assert forall|j: int| 0 <= j < some implies sent[j].0 != tileset by {
                assert(layers[j].0 != layers[some].0);
            }
            lemma_first_index(sent, tileset, some);
        }
    }
}

/// Writing a tile into the layers of a chunk and sending the layers is the
/// same as sending them and letting the session put the tile in.
pub proof fn lemma_written_is_set_in(
    layers: Seq<(TilesetId, LayerView)>,
    tileset: TilesetId,
    index: int,
    tile: u32,
)
    requires
        distinct_keys(layers),
        sized(layers),
        0 <= index < CHUNK_AREA,
    ensures
        tiles_of(written(layers, tileset, index, tile)) == set_in(
            tiles_of(layers),
            tileset,
            index,
            tile,
        ),
        distinct_keys(written(layers, tileset, index, tile)),
        sized(written(layers, tileset, index, tile)),
{
    let sent = tiles_of(layers);
    let after = written(layers, tileset, index, tile);
    if lacks_key(layers, tileset) {
        assert forall|j: int| 0 <= j < sent.len() implies sent[j].0 != tileset by {
            assert(layers[j].0 != tileset);
        }
        assert(tiles_of(after) =~= set_in(sent, tileset, index, tile));
        assert forall|a: int, b: int| 0 <= a < b < after.len() implies after[a].0 != after[b].0 by {
            assert(after[a] == layers[a]);
            if b < layers.len() {
                assert(after[b] == layers[b]);
            }
        }
        assert forall|i: int| 0 <= i < after.len() implies (#[trigger] after[i]).1.tiles.len()
            == CHUNK_AREA by {
            if i < layers.len() {
                assert(after[i] == layers[i]);
            }
        }
    } else {
        let some = choose|i: int| 0 <= i < layers.len() && layers[i].0 == tileset;
        lemma_entry_index(layers, tileset, some);
        assert(sent[some].0 == tileset);
        assert forall|j: int| 0 <= j < some implies sent[j].0 != tileset by {
            assert(layers[j].0 != layers[some].0);
        }
        lemma_first_index(sent, tileset, some);
        assert(layers[some].1.tiles.len() == CHUNK_AREA);
        assert(tiles_of(after) =~= set_in(sent, tileset, index, tile));
        assert forall|a: int, b: int| 0 <= a < b < after.len() implies after[a].0 != after[b].0 by {
            assert(after[a].0 == layers[a].0);
            assert(after[b].0 == layers[b].0);
        }
        assert forall|i: int| 0 <= i < after.len() implies (#[trigger] after[i]).1.tiles.len()
            == CHUNK_AREA by {
            if i != some {
                assert(after[i] == layers[i]);
            }
        }
    }
}

/// Giving a tile a script table changes no tile.
pub proof fn lemma_with_data_tiles(
    layers: Seq<(TilesetId, LayerView)>,
    tileset: TilesetId,
    index: int,
    fresh: u64,
)
    requires
        distinct_keys(layers),
        0 <= index < CHUNK_AREA,
    ensures
        forall|other: TilesetId, k: int|
            0 <= k < CHUNK_AREA ==> #[trigger] tile_in(
                with_data(layers, tileset, index, fresh),
                other,
                k,
            ) == tile_in(layers, other, k),
{
    let after = with_data(layers, tileset, index, fresh);
    assert forall|other: TilesetId, k: int| 0 <= k < CHUNK_AREA implies #[trigger] tile_in(
        after,
        other,
        k,
    ) == tile_in(layers, other, k) by {
        if lacks_key(layers, tileset) {
            let n = layers.len() as int;
            assert forall|a: int, b: int| 0 <= a < b < after.len() implies after[a].0
                != after[b].0 by {
                assert(after[a] == layers[a]);
                if b < n {
                    assert(after[b] == layers[b]);
                }
            }
            if other == tileset {
                lemma_entry_index(after, tileset, n);
            } else if lacks_key(layers, other) {
                assert forall|j: int| 0 <= j < after.len() implies after[j].0 != other by {
                    if j < n {
                        assert(after[j] == layers[j]);
                    }
                }
            } else {
                let some = choose|i: int| 0 <= i < layers.len() && layers[i].0 == other;
                lemma_entry_index(layers, other, some);
                assert(after[some] == layers[some]);
                lemma_entry_index(after, other, some);
            }
        } else {
            let i = choose|i: int| 0 <= i < layers.len() && layers[i].0 == tileset;
            lemma_entry_index(layers, tileset, i);
            assert forall|j: int| 0 <= j < after.len() implies (#[trigger] after[j]).0
                == layers[j].0 && after[j].1.tiles == layers[j].1.tiles by {}
            assert forall|a: int, b: int| 0 <= a < b < after.len() implies after[a].0
                != after[b].0 by {
                assert(after[a].0 == layers[a].0);
                assert(after[b].0 == layers[b].0);
            }
            if lacks_key(layers, other) {
                assert forall|j: int| 0 <= j < after.len() implies after[j].0 != other by {
                    assert(after[j].0 == layers[j].0);
                }
            } else {
                let some = choose|i: int| 0 <= i < layers.len() && layers[i].0 == other;
                lemma_entry_index(layers, other, some);
                assert(after[some].0 == other);
                lemma_entry_index(after, other, some);
            }
        }
    }
}

/// Completeness where nothing is sent, no window, viewer or entity changes
/// and every tile stays: what a session knows is still enough.
pub proof fn lemma_quiet_complete(before: &Server, after: &Server, c: u128, view: ClientView)
    requires
        before.mirrored(c, view),
        after.log() == before.log(),
        after.clients@[c].loaded == before.clients@[c].loaded,
        after.entities@ == before.entities@,
        forall|q: ChunkRef| #[trigger] after.viewers(q) == before.viewers(q),
        forall|q: ChunkRef, tileset: TilesetId, index: int|
            0 <= index < CHUNK_AREA ==> #[trigger] tile_in(after.layers(q), tileset, index)
                == tile_in(before.layers(q), tileset, index),
    ensures
        after.mirrored(c, take_in(view, sent_since(before, after), c)),
{
    assert(sent_since(before, after) =~= Seq::<OutboundView>::empty());
    assert forall|e: u128| #[trigger] after.knows(c, e) implies view.entities.contains_key(e) by {
        assert(after.viewers(before.entities@[e].place()) == before.viewers(
            before.entities@[e].place(),
        ));
        assert(before.knows(c, e));
    }
    lemma_mirrored_by_parts(before, after, c, view, view);
}

/// Completeness when an entity moves: a session that comes to watch it is
/// shown it, and a session that watches it before and after keeps it.
pub proof fn lemma_move_complete(
    before: &Server,
    after: &Server,
    uuid: u128,
    position: Position,
    c: u128,
    view: ClientView,
)
    requires
        before.wf(),
        before.moved(after, uuid, position),
        before.mirrored(c, view),
    ensures
        after.mirrored(c, take_in(view, sent_since(before, after), c)),
{
    let entity = before.entities@[uuid];
    let from = entity.place();
    let to = ChunkRef { world: position.world, position: position.spec_chunk() };
    let coordinates = crate::pos::Vec2 { x: position.x, y: position.y };
    let update = MessageView::UpdateEntityPosition(uuid, coordinates);
    let later = take_in(view, sent_since(before, after), c);
    lemma_viewers_once(before, from);
    lemma_viewers_once(before, to);
    if from == to {
        assert(sent_since(before, after) =~= to_each(before.viewers(from), update));
        lemma_take_in_to_each(view, before.viewers(from), update, c);
        assert forall|q: ChunkRef| #[trigger] after.viewers(q) == before.viewers(q) by {}
        assert forall|q: ChunkRef| #[trigger] after.layers(q) == before.layers(q) by {}
    } else {
        let old_viewers = before.viewers(from);
        let new_viewers = before.viewers(to);
        let show = MessageView::AddEntity(entity.add_message(before.ticks_passed));
        let hide = MessageView::RemoveEntity(uuid);
        let first = to_each(only_in(new_viewers, old_viewers), show);
        let second = to_each(in_both(new_viewers, old_viewers), update);
        let third = to_each(only_in(old_viewers, new_viewers), hide);
        assert(sent_since(before, after) =~= first + second + third);
        lemma_parts(new_viewers, old_viewers);
        lemma_parts(old_viewers, new_viewers);
        lemma_take_in_concat(view, first + second, third, c);
        lemma_take_in_concat(view, first, second, c);
        lemma_take_in_to_each(view, only_in(new_viewers, old_viewers), show, c);
        let v1 = take_in(view, first, c);
        lemma_take_in_to_each(v1, in_both(new_viewers, old_viewers), update, c);
        let v2 = take_in(v1, second, c);
        lemma_take_in_to_each(v2, only_in(old_viewers, new_viewers), hide, c);
        assert(later.chunks == view.chunks);
        lemma_same_elsewhere(before.chunks().remove(from), after.chunks().remove(from), to);
        assert forall|q: ChunkRef| q != from && q != to implies (after.chunks().contains_key(q)
            <==> before.chunks().contains_key(q)) && (after.chunks().contains_key(q)
            ==> after.chunks()[q] == before.chunks()[q]) by {
            assert(after.chunks().remove(from).contains_key(q) <==> after.chunks().contains_key(q));
            assert(before.chunks().remove(from).contains_key(q) <==> before.chunks().contains_key(
                q,
            ));
            assert(after.chunks().remove(from)[q] == after.chunks()[q]);
            assert(before.chunks().remove(from)[q] == before.chunks()[q]);
        }
        assert forall|q: ChunkRef| #[trigger] after.viewers(q) == before.viewers(q) by {}
        assert forall|q: ChunkRef| #[trigger] after.layers(q) == before.layers(q) by {}
    }
    assert(later.chunks == view.chunks);
    assert forall|e: u128| #[trigger] after.knows(c, e) implies later.entities.contains_key(e) by {
        if e != uuid {
            assert(after.viewers(before.entities@[e].place()) == before.viewers(
                before.entities@[e].place(),
            ));
            assert(before.knows(c, e));
        } else {
            assert(after.entities@[uuid].place() == to);
            assert(after.viewers(to) == before.viewers(to));
            if before.viewers(from).contains(c) {
                assert(before.knows(c, uuid));
            }
        }
    }
    assert forall|q: ChunkRef, tileset: TilesetId, index: int|
        0 <= index < CHUNK_AREA implies #[trigger] tile_in(after.layers(q), tileset, index)
        == tile_in(before.layers(q), tileset, index) by {
        assert(after.layers(q) == before.layers(q));
    }
    lemma_mirrored_by_parts(before, after, c, view, later);
}

/// Completeness when a tile is written: a session that watches the chunk
/// puts the same tile at the same place.
pub proof fn lemma_tile_complete(
    before: &Server,
    after: &Server,
    position: TilePosition,
    world: WorldId,
    tileset: TilesetId,
    number: u32,
    c: u128,
    view: ClientView,
)
    requires
        before.wf(),
        before.clients@.contains_key(c),
        before.tile_written(after, position, world, tileset, number),
        before.mirrored(c, view),
    ensures
        after.mirrored(c, take_in(view, sent_since(before, after), c)),
{
    let at = ChunkRef { world, position: position.spec_chunk() };
    let index = position.spec_offset().spec_index();
    let key = chunk_key(at.position);
    let message = MessageView::SetTile(position, tileset, number);
    let later = take_in(view, sent_since(before, after), c);
    let loaded = before.clients@[c].loaded;
    assert(0 <= index < CHUNK_AREA);
    assert(sent_since(before, after) =~= to_each(before.viewers(at), message));
    lemma_viewers_once(before, at);
    lemma_take_in_to_each(view, before.viewers(at), message, c);
    lemma_chunks_kept(before, after, at);
    lemma_layers_shape(before, at);
    lemma_written_is_set_in(before.layers(at), tileset, index, number);
    lemma_snapshot_tiles(before.layers(at));
    lemma_snapshot_tiles(after.layers(at));
    crate::invariants::lemma_viewers_exact(before, at, c);
    assert forall|e: u128| #[trigger] after.knows(c, e) implies later.entities.contains_key(e) by {
        assert(after.viewers(before.entities@[e].place()) == before.viewers(
            before.entities@[e].place(),
        ));
        assert(before.knows(c, e));
    }
    assert forall|q: ChunkRef| #[trigger]
        in_view(after.clients@[c].loaded, q) implies after.chunk_mirrored(q, later) by {
        assert(before.chunk_mirrored(q, view));
        let k = chunk_key(q.position);
        if before.viewers(at).contains(c) {
            assert(in_view(loaded, at));
            assert(before.chunk_mirrored(at, view));
            lemma_set_in_tiles(view.chunks[key], tileset, index, number);
            if q != at {
                lemma_chunk_key_injective(q.position, at.position);
                assert(later.chunks[k] == view.chunks[k]);
                assert(after.layers(q) == before.layers(q));
                assert forall|ts: TilesetId, i: int| 0 <= i < CHUNK_AREA implies #[trigger] held_tile(
                    later.chunks[k],
                    ts,
                    i,
                ) == tile_in(after.layers(q), ts, i) by {
                    assert(held_tile(view.chunks[k], ts, i) == tile_in(before.layers(q), ts, i));
                }
            } else {
                assert forall|ts: TilesetId, i: int| 0 <= i < CHUNK_AREA implies #[trigger] held_tile(
                    later.chunks[k],
                    ts,
                    i,
                ) == tile_in(after.layers(q), ts, i) by {
                    assert(held_tile(view.chunks[key], ts, i) == tile_in(before.layers(at), ts, i));
                    assert(held_tile(tiles_of(before.layers(at)), ts, i) == tile_in(
                        before.layers(at),
                        ts,
                        i,
                    ));
                    assert(held_tile(tiles_of(after.layers(at)), ts, i) == tile_in(
                        after.layers(at),
                        ts,
                        i,
                    ));
                    lemma_set_in_tiles(tiles_of(before.layers(at)), tileset, index, number);
                    assert(held_tile(
                        set_in(tiles_of(before.layers(at)), tileset, index, number),
                        ts,
                        i,
                    ) == (if ts == tileset && i == index {
                        number
                    } else {
                        held_tile(tiles_of(before.layers(at)), ts, i)
                    }));
                    assert(held_tile(set_in(view.chunks[key], tileset, index, number), ts, i) == (
                    if ts == tileset && i == index {
                        number
                    } else {
                        held_tile(view.chunks[key], ts, i)
                    }));
                }
            }
        } else {
            assert(q != at);
            assert(after.layers(q) == before.layers(q));
            assert forall|ts: TilesetId, i: int| 0 <= i < CHUNK_AREA implies #[trigger] held_tile(
                later.chunks[k],
                ts,
                i,
            ) == tile_in(after.layers(q), ts, i) by {
                assert(held_tile(view.chunks[k], ts, i) == tile_in(before.layers(q), ts, i));
            }
        }
    }
}

/// Forgetting a list of entities forgets no other entity.
proof fn lemma_remove_all_keeps(entities: Map<u128, crate::client::ClientEntity>, ids: Seq<u128>, e: u128)
    requires
        !ids.contains(e),
    ensures
        remove_all(entities, ids).contains_key(e) <==> entities.contains_key(e),
    decreases ids.len(),
{
    if ids.len() > 0 {
        assert(ids.last() == ids[ids.len() - 1]);
        assert(ids.contains(ids.last()));
        assert(!ids.drop_last().contains(e)) by {
            if ids.drop_last().contains(e) {
                let k = choose|k: int| 0 <= k < ids.drop_last().len() && ids.drop_last()[k] == e;
                assert(ids[k] == e);
            }
        }
        lemma_remove_all_keeps(entities, ids.drop_last(), e);
    }
}

/// Being shown a list of entities keeps every entity and adds those of the
/// list.
proof fn lemma_add_all_holds(
    entities: Map<u128, crate::client::ClientEntity>,
    messages: Seq<crate::message::EntityAddMessage>,
    e: u128,
)
    requires
        entities.contains_key(e) || shows(messages, e),
    ensures
        add_all(entities, messages).contains_key(e),
    decreases messages.len(),
{
    if messages.len() > 0 {
        if messages.last().uuid != e {
            if shows(messages, e) {
                let k = choose|k: int| 0 <= k < messages.len() && (#[trigger] messages[k]).uuid == e;
                assert(messages.drop_last()[k].uuid == e);
            }
            lemma_add_all_holds(entities, messages.drop_last(), e);
        }
    }
}

/// Two different chunks of one window have different keys.
proof fn lemma_window_keys(centre: Option<ChunkRef>, a: ChunkRef, b: ChunkRef)
    requires
        in_view(centre, a),
        in_view(centre, b),
        a != b,
    ensures
        chunk_key(a.position) != chunk_key(b.position),
{
    lemma_chunk_key_injective(a.position, b.position);
}

/// What a session holds once it has taken in the unloads of a moving
/// window: of its chunks, those that stay in the window, as it held them;
/// of its entities, all but those on the chunks that left.
proof fn lemma_unloads_take_in(
    server: &Server,
    client: u128,
    seen: Option<ChunkRef>,
    wanted: Option<ChunkRef>,
    n: nat,
    view: ClientView,
)
    requires
        server.wf(),
        n <= WINDOW_AREA,
    ensures
        ({
            let v = take_in(view, server.unloads(client, seen, wanted, n), client);
            &&& forall|key: u32| #[trigger]
                v.chunks.contains_key(key) ==> view.chunks.contains_key(key) && v.chunks[key]
                    == view.chunks[key]
            &&& forall|q: ChunkRef|
                in_view(seen, q) && in_view(wanted, q) && view.chunks.contains_key(
                    chunk_key(q.position),
                ) ==> v.chunks.contains_key(#[trigger] chunk_key(q.position))
            &&& forall|e: u128|
                view.entities.contains_key(e) && !(server.entities@.contains_key(e) && in_view(
                    seen,
                    server.entities@[e].place(),
                ) && !in_view(wanted, server.entities@[e].place())) ==> #[trigger] v.entities.contains_key(
                    e,
                )
        }),
    decreases n,
{
    if n == 0 || seen is None {
    } else {
        let rest = server.unloads(client, seen, wanted, (n - 1) as nat);
        let q = window_at(seen->0, n - 1);
        lemma_unloads_take_in(server, client, seen, wanted, (n - 1) as nat, view);
        if in_view(seen, q) {
            lemma_window_at(seen->0, n - 1);
        }
        let prev = take_in(view, rest, client);
        if in_view(seen, q) && !in_view(wanted, q) {
            let message = server.unload_message(q);
            let log = rest.push(OutboundView { to: client, message });
            assert(log.drop_last() =~= rest);
            let v = take_in(view, log, client);
            assert(v == prev.apply(message));
            assert forall|p: ChunkRef|
                in_view(seen, p) && in_view(wanted, p) && view.chunks.contains_key(
                    chunk_key(p.position),
                ) implies v.chunks.contains_key(#[trigger] chunk_key(p.position)) by {
                lemma_window_keys(seen, p, q);
                assert(prev.chunks.contains_key(chunk_key(p.position)));
            }
            assert forall|e: u128|
                view.entities.contains_key(e) && !(server.entities@.contains_key(e) && in_view(
                    seen,
                    server.entities@[e].place(),
                ) && !in_view(wanted, server.entities@[e].place())) implies #[trigger] v.entities.contains_key(
                e,
            ) by {
                lemma_chunk_mentions(server, q, e);
                lemma_remove_all_keeps(prev.entities, server.residents(q), e);
                assert(prev.entities.contains_key(e));
            }
        }
    }
}

/// What a session holds once it has taken in the loads of a moving window:
/// every chunk that entered the window, with the tiles the chunk has, every
/// chunk it held that stays in the window, every entity on a chunk that
/// entered, and every entity it held.
proof fn lemma_loads_take_in(
    server: &Server,
    client: u128,
    seen: Option<ChunkRef>,
    wanted: Option<ChunkRef>,
    n: nat,
    view: ClientView,
)
    requires
        server.wf(),
        n <= WINDOW_AREA,
    ensures
        ({
            let v = take_in(view, server.loads(client, seen, wanted, n), client);
            &&& forall|q: ChunkRef|
                in_view(wanted, q) && !in_view(seen, q) && window_index(wanted->0, q) < n
                    ==> v.chunks.contains_key(#[trigger] chunk_key(q.position))
                    && v.chunks[chunk_key(q.position)] == tiles_of(server.layers(q))
            &&& forall|q: ChunkRef|
                in_view(wanted, q) && in_view(seen, q) && view.chunks.contains_key(
                    chunk_key(q.position),
                ) ==> v.chunks.contains_key(#[trigger] chunk_key(q.position))
                    && v.chunks[chunk_key(q.position)] == view.chunks[chunk_key(q.position)]
            &&& forall|e: u128|
                view.entities.contains_key(e) ==> #[trigger] v.entities.contains_key(e)
            &&& forall|e: u128|
                server.entities@.contains_key(e) && in_view(wanted, server.entities@[e].place())
                    && !in_view(seen, server.entities@[e].place()) && window_index(
                    wanted->0,
                    server.entities@[e].place(),
                ) < n ==> #[trigger] v.entities.contains_key(e)
        }),
    decreases n,
{
    if n == 0 || wanted is None {
    } else {
        let rest = server.loads(client, seen, wanted, (n - 1) as nat);
        let q = window_at(wanted->0, n - 1);
        lemma_loads_take_in(server, client, seen, wanted, (n - 1) as nat, view);
        if in_view(wanted, q) {
            lemma_window_at(wanted->0, n - 1);
        }
        let prev = take_in(view, rest, client);
        assert forall|p: ChunkRef| in_view(wanted, p) && window_index(wanted->0, p) == n
            - 1 implies p == q by {
            lemma_window_covers(wanted->0, p);
        }
        if in_view(wanted, q) && !in_view(seen, q) {
            let message = server.load_message(q);
            let shown_now = server.add_messages_of(server.residents(q));
            let log = rest.push(OutboundView { to: client, message });
            assert(log.drop_last() =~= rest);
            let v = take_in(view, log, client);
            assert(v == prev.apply(message));
            assert(v.chunks == prev.chunks.insert(
                chunk_key(q.position),
                tiles_of(server.layers(q)),
            ));
            assert(v.entities == add_all(prev.entities, shown_now));
            assert forall|p: ChunkRef|
                in_view(wanted, p) && !in_view(seen, p) && window_index(wanted->0, p)
                    < n implies v.chunks.contains_key(#[trigger] chunk_key(p.position))
                && v.chunks[chunk_key(p.position)] == tiles_of(server.layers(p)) by {
                if p != q {
                    lemma_window_keys(wanted, p, q);
                    assert(prev.chunks.contains_key(chunk_key(p.position)));
                }
            }
            assert forall|p: ChunkRef|
                in_view(wanted, p) && in_view(seen, p) && view.chunks.contains_key(
                    chunk_key(p.position),
                ) implies v.chunks.contains_key(#[trigger] chunk_key(p.position))
                && v.chunks[chunk_key(p.position)] == view.chunks[chunk_key(p.position)] by {
                lemma_window_keys(wanted, p, q);
                assert(prev.chunks.contains_key(chunk_key(p.position)));
            }
            assert forall|e: u128| view.entities.contains_key(e) implies #[trigger] v.entities.contains_key(
                e,
            ) by {
                assert(prev.entities.contains_key(e));
                lemma_add_all_holds(prev.entities, shown_now, e);
            }
            assert forall|e: u128|
                server.entities@.contains_key(e) && in_view(wanted, server.entities@[e].place())
                    && !in_view(seen, server.entities@[e].place()) && window_index(
                    wanted->0,
                    server.entities@[e].place(),
                ) < n implies #[trigger] v.entities.contains_key(e) by {
                let home = server.entities@[e].place();
                if home == q {
                    lemma_chunk_mentions(server, q, e);
                    assert(mention(message, e) == Mention::Shows);
                    assert(shows(shown_now, e));
                } else {
                    assert(prev.entities.contains_key(e));
                }
                lemma_add_all_holds(prev.entities, shown_now, e);
            }
        }
    }
}

/// Being told where the camera looks changes nothing of what a session
/// knows of the world.
proof fn lemma_take_in_info(view: ClientView, info: Seq<OutboundView>, c: u128)
    requires
        forall|i: int| 0 <= i < info.len() ==> (#[trigger] info[i]).message is CameraInfo,
    ensures
        take_in(view, info, c) == view,
    decreases info.len(),
{
    if info.len() > 0 {
        assert forall|i: int| 0 <= i < info.drop_last().len() implies (
        #[trigger] info.drop_last()[i]).message is CameraInfo by {
            assert(info.drop_last()[i] == info[i]);
        }
        lemma_take_in_info(view, info.drop_last(), c);
        assert(info.last() == info[info.len() - 1]);
    }
}

/// Completeness when the window of a session moves: the session holds every
/// chunk of the new window with the tiles that the chunk has, and every
/// entity that stands on a chunk of the new window; what the other sessions
/// hold stays enough.
pub proof fn lemma_camera_complete(
    before: &Server,
    after: &Server,
    client: u128,
    wanted: Option<ChunkRef>,
    info: Seq<OutboundView>,
    c: u128,
    view: ClientView,
)
    requires
        before.wf(),
        before.clients@.contains_key(client),
        before.clients@.contains_key(c),
        before.interest_moved(after, client, before.clients@[client].loaded, wanted, info),
        after.clients@[c].loaded == (if c == client {
            wanted
        } else {
            before.clients@[c].loaded
        }),
        forall|i: int|
            0 <= i < info.len() ==> (#[trigger] info[i]).to == client
                && info[i].message is CameraInfo,
        before.mirrored(c, view),
    ensures
        after.mirrored(c, take_in(view, sent_since(before, after), c)),
{
    let seen = before.clients@[client].loaded;
    let unloads = before.unloads(client, seen, wanted, WINDOW_AREA as nat);
    let loads = before.loads(client, seen, wanted, WINDOW_AREA as nat);
    let later = take_in(view, sent_since(before, after), c);
    assert(sent_since(before, after) =~= unloads + loads + info);
    lemma_window_messages_to(before, client, seen, wanted, WINDOW_AREA as nat);
    lemma_take_in_concat(view, unloads + loads, info, c);
    lemma_take_in_concat(view, unloads, loads, c);
    let v1 = take_in(view, unloads, c);
    let v2 = take_in(v1, loads, c);
    lemma_take_in_info(v2, info, c);
    assert(later == v2);
    assert forall|e: u128| #[trigger] after.knows(c, e) implies before.entities@.contains_key(e)
        && in_view(after.clients@[c].loaded, before.entities@[e].place()) && (c != client
        ==> before.knows(c, e)) by {
        let home = before.entities@[e].place();
        let list = before.viewers(home);
        lemma_viewers_once(before, home);
        crate::invariants::lemma_viewers_exact(before, home, c);
        lemma_without(list, client);
        assert(after.viewers(home) == before.viewers_after(client, seen, wanted, home));
        if list.push(client).contains(c) && c != client {
            let k = choose|k: int| 0 <= k < list.push(client).len() && list.push(client)[k] == c;
            assert(list[k] == c);
        }
    }
    if c != client {
        lemma_take_in_others(view, unloads, c);
        lemma_take_in_others(view, loads, c);
        assert forall|q: ChunkRef, tileset: TilesetId, index: int|
            0 <= index < CHUNK_AREA implies #[trigger] tile_in(after.layers(q), tileset, index)
            == tile_in(before.layers(q), tileset, index) by {
            assert(after.layers(q) == before.layers(q));
        }
        lemma_mirrored_by_parts(before, after, c, view, later);
    } else {
        lemma_unloads_take_in(before, client, seen, wanted, WINDOW_AREA as nat, view);
        lemma_loads_take_in(before, client, seen, wanted, WINDOW_AREA as nat, v1);
        assert forall|q: ChunkRef| #[trigger] in_view(wanted, q) implies after.chunk_mirrored(
            q,
            later,
        ) by {
            let key = chunk_key(q.position);
            assert(after.layers(q) == before.layers(q));
            lemma_window_covers(wanted->0, q);
            if in_view(seen, q) {
                assert(before.chunk_mirrored(q, view));
                assert(v1.chunks.contains_key(chunk_key(q.position)));
                assert(v1.chunks[key] == view.chunks[key]);
                assert(v2.chunks.contains_key(chunk_key(q.position)));
                assert(v2.chunks[key] == v1.chunks[key]);
                assert forall|ts: TilesetId, i: int| 0 <= i < CHUNK_AREA implies #[trigger] held_tile(
                    later.chunks[key],
                    ts,
                    i,
                ) == tile_in(after.layers(q), ts, i) by {
                    assert(held_tile(view.chunks[key], ts, i) == tile_in(before.layers(q), ts, i));
                }
            } else {
                assert(v2.chunks.contains_key(chunk_key(q.position)));
                assert(v2.chunks[key] == tiles_of(before.layers(q)));
                lemma_layers_shape(before, q);
                lemma_snapshot_tiles(before.layers(q));
            }
        }
        assert forall|e: u128| #[trigger] after.knows(c, e) implies later.entities.contains_key(
            e,
        ) by {
            let home = before.entities@[e].place();
            if in_view(seen, home) {
                crate::invariants::lemma_viewers_exact(before, home, client);
                assert(before.knows(client, e));
                assert(view.entities.contains_key(e));
                assert(v1.entities.contains_key(e));
                assert(v2.entities.contains_key(e));
            } else {
                lemma_window_covers(wanted->0, home);
                assert(v2.entities.contains_key(e));
            }
        }
    }
}

/// Completeness at the start: a session that has just joined watches
/// nothing, so that what it knows, though it is nothing, is enough.
pub proof fn lemma_fresh_complete(server: &Server, c: u128, view: ClientView)
    requires
        server.wf(),
        server.clients@.contains_key(c),
        server.clients@[c].loaded is None,
    ensures
        server.mirrored(c, view),
        forall|e: u128| !server.knows(c, e),
{
    assert forall|e: u128| !server.knows(c, e) by {
        if server.knows(c, e) {
            crate::invariants::lemma_viewers_exact(server, server.entities@[e].place(), c);
        }
    }
}

} // verus!
