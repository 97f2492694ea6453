//! What holds of every consistent state of the server.

use vstd::prelude::*;
use crate::content::{lacks_key, lemma_entry_index};
use crate::interest::{in_view, near};
use crate::names::TilesetId;
use crate::pos::CHUNK_AREA;
use crate::world::tile_in;
use crate::pos::{chunk_coord, tile_in_range, floored};
use crate::server::Server;
use crate::session::ClientCameraType;
use crate::world::ChunkRef;

verus! {

/// Chunk residency: every entity stands on exactly one chunk, it is listed
/// there once, and that chunk is the one under its position: its coordinates
/// are the chunk coordinates of the tile under the position, the floor of
/// the tile coordinates divided by the chunk size where that fits in 16
/// bits.
pub proof fn lemma_residency(server: &Server, id: u128)
    requires
        server.wf(),
        server.entities@.contains_key(id),
    ensures
        ({
            let entity = server.entities@[id];
            let home = entity.place();
            &&& home.world == entity.position.world
            &&& home.position.x == chunk_coord(floored(entity.position.x))
            &&& home.position.y == chunk_coord(floored(entity.position.y))
            &&& tile_in_range(floored(entity.position.x)) ==> home.position.x == floored(
                entity.position.x,
            ) / 32
            &&& tile_in_range(floored(entity.position.y)) ==> home.position.y == floored(
                entity.position.y,
            ) / 32
            &&& server.chunks().contains_key(home)
            &&& server.residents(home).contains(id)
            &&& server.residents(home).no_duplicates()
            &&& forall|q: ChunkRef| server.residents(q).contains(id) ==> q == home
        }),
{
    let entity = server.entities@[id];
    let home = entity.place();
    crate::pos::lemma_floored_range(entity.position.x);
    crate::pos::lemma_floored_range(entity.position.y);
    assert(server.chunks()[home].wf());
    assert forall|q: ChunkRef| server.residents(q).contains(id) implies q == home by {
        assert(server.chunks().contains_key(q));
        assert(server.chunks()[q].entities@.contains(id));
    }
}

/// Whatever stands on a chunk is an entity that exists.
pub proof fn lemma_residents_exist(server: &Server, q: ChunkRef, id: u128)
    requires
        server.wf(),
        server.residents(q).contains(id),
    ensures
        server.entities@.contains_key(id),
        server.entities@[id].place() == q,
{
    assert(server.chunks().contains_key(q));
    assert(server.chunks()[q].entities@.contains(id));
}

/// Viewer interest: the sessions that watch a chunk are exactly the sessions
/// whose window holds the chunk, each listed once; and a chunk in the window
/// of a session exists.
pub proof fn lemma_viewers_exact(server: &Server, q: ChunkRef, client: u128)
    requires
        server.wf(),
    ensures
        server.viewers(q).contains(client) <==> server.clients@.contains_key(client) && in_view(
            server.clients@[client].loaded,
            q,
        ),
        server.viewers(q).contains(client) ==> server.chunks().contains_key(q),
        server.viewers(q).no_duplicates(),
{
    if server.chunks().contains_key(q) {
        assert(server.chunks()[q].wf());
        if server.chunks()[q].viewers@.contains(client) {
            assert(in_view(server.clients@[client].loaded, q));
        }
    }
    if server.clients@.contains_key(client) && in_view(server.clients@[client].loaded, q) {
        assert(server.chunks()[q].viewers@.contains(client));
    }
}

/// The window of a session whose camera is bound to a point lies around the
/// chunk under that point; a session whose camera is off has no window.
pub proof fn lemma_window_follows_camera(server: &Server, client: u128)
    requires
        server.wf(),
        server.clients@.contains_key(client),
    ensures
        match server.clients@[client].camera {
            ClientCameraType::Off => server.clients@[client].loaded is None,
            ClientCameraType::Position(position) => server.clients@[client].loaded == Some(
                ChunkRef { world: position.world, position: position.spec_chunk() },
            ),
            ClientCameraType::Entity(_) => true,
        },
{
    assert(server.clients@[client].window_settled());
}

/// The window is the square of the chunks at a distance of at most four from
/// the centre along both axes, whatever the centre.
pub proof fn lemma_window_is_square(centre: ChunkRef, q: ChunkRef)
    ensures
        in_view(Some(centre), q) <==> q.world == centre.world && -4 <= q.position.x
            - centre.position.x <= 4 && -4 <= q.position.y - centre.position.y <= 4,
{
    assert(near(centre.position.x as int, q.position.x as int) <==> -4 <= q.position.x
        - centre.position.x <= 4);
    assert(near(centre.position.y as int, q.position.y as int) <==> -4 <= q.position.y
        - centre.position.y <= 4);
}

/// Viewer interest, by distance: a session watches a chunk exactly if the
/// chunk lies in the world of the session's window and at most four chunks
/// from the centre of the window along both axes.
pub proof fn lemma_viewers_by_distance(server: &Server, q: ChunkRef, client: u128)
    requires
        server.wf(),
        server.clients@.contains_key(client),
    ensures
        server.viewers(q).contains(client) <==> {
            let loaded = server.clients@[client].loaded;
            &&& loaded is Some
            &&& q.world == loaded->0.world
            &&& -4 <= q.position.x - loaded->0.position.x <= 4
            &&& -4 <= q.position.y - loaded->0.position.y <= 4
        },
{
    lemma_viewers_exact(server, q, client);
}

/// Every tile is a tile of its tileset: at every place of every chunk, the
/// layer of a registered tileset holds the number of one of the tiles of
/// that tileset; where nothing was written, that is the number 0, the
/// default tile.
pub proof fn lemma_tiles_are_known(server: &Server, q: ChunkRef, tileset: TilesetId, index: int)
    requires
        server.wf(),
        server.content.has_tileset(tileset),
        0 <= index < CHUNK_AREA,
    ensures
        tile_in(server.layers(q), tileset, index) < server.content.spec_tileset(tileset).spec_len(),
        server.content.spec_tileset(tileset).spec_by_id(tile_in(server.layers(q), tileset, index))
            is Some,
        lacks_key(server.layers(q), tileset) ==> tile_in(server.layers(q), tileset, index) == 0,
{
    let sets = server.content.tile_sets@;
    let some = choose|i: int| 0 <= i < sets.len() && sets[i].0 == tileset;
    lemma_entry_index(sets, tileset, some);
    assert(sets[some].1.spec_len() > 0);
    if !lacks_key(server.layers(q), tileset) {
        let chunk = server.chunks()[q];
        assert(chunk.wf() && chunk.tiles_known(&server.content));
        chunk.lemma_layer_keys();
        let layers = server.layers(q);
        let i = choose|i: int| 0 <= i < layers.len() && layers[i].0 == tileset;
        lemma_entry_index(layers, tileset, i);
        assert(layers[i].1.tiles == chunk.tile_layers@[i].1.tiles@);
        assert(chunk.tile_layers@[i].1.tiles@[index] < server.content.spec_tileset(
            chunk.tile_layers@[i].0,
        ).spec_len());
    }
}

} // verus!
