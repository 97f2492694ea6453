//! Interest management: which session watches which chunk, and what a session
//! is sent when its camera moves.

use vstd::prelude::*;
use std::collections::HashMap;
use crate::entity::Entity;
use crate::interest::{
    in_view, lemma_window_covers, sees, window_at, window_chunk, window_index, window_positions,
};
use crate::message::{EntityAddMessage, MessageS2C, MessageView, OutboundView};
use crate::names::{WorldId, NO_NAME};
use crate::pos::{ChunkPosition, Position, Vec2};
use crate::scheduler::{slot, Task};
use crate::server::{Server, WorldError};
use crate::session::{Client, ClientCameraType, WINDOW_AREA};
use crate::world::{copy_ids, lemma_without, list_remove, tiles_of, without, ChunkRef};

verus! {

impl ClientCameraType {
    /// The point that the camera looks at: none for a camera that is off or
    /// that follows an entity that is gone.
    pub open spec fn spec_position(self, entities: Map<u128, Entity>) -> Option<Position> {
        match self {
            ClientCameraType::Off => None,
            ClientCameraType::Position(position) => Some(position),
            ClientCameraType::Entity(id) => if entities.contains_key(id) {
                Some(entities[id].position)
            } else {
                None
            },
        }
    }

    /// The chunk that the camera looks at.
    pub open spec fn spec_centre(self, entities: Map<u128, Entity>) -> Option<ChunkRef> {
        match self.spec_position(entities) {
            Some(position) => Some(
                ChunkRef { world: position.world, position: position.spec_chunk() },
            ),
            None => None,
        }
    }

    /// The point that the camera looks at.
    pub fn get_position(&self, entities: &HashMap<u128, Entity>) -> (r: Option<Position>)
        ensures
            r == self.spec_position(entities@),
    {
        match self {
            ClientCameraType::Off => None,
            ClientCameraType::Position(position) => Some(*position),
            ClientCameraType::Entity(id) => match entities.get(id) {
                Some(entity) => Some(entity.position),
                None => None,
            },
        }
    }

    /// The chunk that the camera looks at.
    pub fn centre(&self, entities: &HashMap<u128, Entity>) -> (r: Option<ChunkRef>)
        ensures
            r == self.spec_centre(entities@),
    {
        match self.get_position(entities) {
            Some(position) => Some(ChunkRef { world: position.world, position: position.chunk() }),
            None => None,
        }
    }

    /// The world of the camera and the chunks of its window, in the order in
    /// which the window is walked: the empty name and no chunk for a camera
    /// that looks at nothing.
    pub fn get_loaded_chunks(&self, entities: &HashMap<u128, Entity>) -> (r: (
        WorldId,
        Vec<ChunkPosition>,
    ))
        ensures
            match self.spec_centre(entities@) {
                Some(centre) => r.0 == centre.world && r.1@ == window_positions(
                    centre,
                    WINDOW_AREA as nat,
                ),
                None => r.0 == NO_NAME && r.1@.len() == 0,
            },
    {
        let mut chunks: Vec<ChunkPosition> = Vec::new();
        match self.centre(entities) {
            Some(centre) => {
                let mut j: usize = 0;
                while j < WINDOW_AREA
                    invariant
                        j <= WINDOW_AREA,
                        chunks@ == window_positions(centre, j as nat),
                    decreases WINDOW_AREA - j,
                {
                    match window_chunk(centre, j) {
                        Some(q) => {
                            chunks.push(q.position);
                        },
                        None => {},
                    }
                    j += 1;
                }
                (centre.world, chunks)
            },
            None => (NO_NAME, chunks),
        }
    }
}

impl Client {
    /// Starts a tick of the session `client` of `server`. A camera that
    /// follows an entity is bound anew, so that the window of the session is
    /// the window around the chunk on which the entity stands now: the
    /// session is sent an unload for each chunk that leaves the window and a
    /// load for each chunk that enters it. Then the input of the last tick is
    /// forgotten and `frames`, the frames that arrived since, are taken in in
    /// their order. A session whose transport is `disconnected` is closed
    /// from now on. The clock does not move.
    pub fn tick(
        server: &mut Server,
        client: u128,
        frames: &Vec<crate::message::MessageC2S>,
        disconnected: bool,
    ) -> (r: Result<(), WorldError>)
        requires
            old(server).wf(),
        ensures
            final(server).wf(),
            match r {
                Ok(()) => {
                    let before = old(server).clients@[client];
                    let after = final(server).clients@[client];
                    &&& old(server).clients@.contains_key(client)
                    &&& final(server).clients@.contains_key(client)
                    &&& final(server).clients@.remove(client) == old(server).clients@.remove(client)
                    &&& after.id == client
                    &&& after.camera == before.camera
                    &&& after.closed == (before.closed || disconnected)
                    &&& after.player_input.reflects(frames@)
                    &&& final(server).ticks_passed == old(server).ticks_passed
                    &&& forall|q: ChunkRef| #[trigger]
                        final(server).viewers(q).contains(client) <==> in_view(after.loaded, q)
                    &&& before.camera is Entity ==> {
                        &&& after.loaded == before.camera.spec_centre(old(server).entities@)
                        &&& old(server).interest_moved(
                            final(server),
                            client,
                            before.loaded,
                            after.loaded,
                            old(server).camera_info(client, before.camera),
                        )
                    }
                    &&& !(before.camera is Entity) ==> {
                        &&& after.loaded == before.loaded
                        &&& final(server).worlds == old(server).worlds
                        &&& final(server).entities == old(server).entities
                        &&& final(server).content == old(server).content
                        &&& final(server).ticks_passed == old(server).ticks_passed
                        &&& final(server).task_queue == old(server).task_queue
                        &&& final(server).outbound == old(server).outbound
                    }
                },
                Err(e) => {
                    &&& *final(server) == *old(server)
                    &&& e == WorldError::UnknownClient
                    &&& !old(server).clients@.contains_key(client)
                },
            },
    {
        let camera = match server.clients.get(&client) {
            Some(session) => session.camera,
            None => {
                return Err(WorldError::UnknownClient);
            },
        };
        match camera {
            ClientCameraType::Entity(_) => {
                let _ = server.set_camera(client, camera);
            },
            _ => {},
        }
        let ghost moved = *server;
        let mut session = server.clients.remove(&client).unwrap();
        session.read_input(frames, disconnected);
        server.clients.insert(client, session);
        proof {
            assert(server.clients@.remove(client) =~= moved.clients@.remove(client));
            assert(moved.clients@.remove(client) =~= old(server).clients@.remove(client));
            assert(server.clients@.remove(client) =~= old(server).clients@.remove(client));
            assert forall|c: u128| c != client implies (#[trigger] server.clients@.contains_key(c)
                <==> moved.clients@.contains_key(c)) && (server.clients@.contains_key(c)
                ==> server.clients@[c] == moved.clients@[c]) by {
                assert(server.clients@.remove(client).contains_key(c) <==> server.clients@.contains_key(
                    c,
                ));
                assert(moved.clients@.remove(client).contains_key(c)
                    <==> moved.clients@.contains_key(c));
                assert(server.clients@.remove(client)[c] == server.clients@[c]);
                assert(moved.clients@.remove(client)[c] == moved.clients@[c]);
            }
            assert forall|c: u128, q: ChunkRef|
                (server.clients@.contains_key(c) && in_view(server.clients@[c].loaded, q)) <==> (
                moved.clients@.contains_key(c) && in_view(moved.clients@[c].loaded, q)) by {
                if c != client {
                    assert(server.clients@.contains_key(c) <==> moved.clients@.contains_key(c));
                }
            }
            assert forall|c: u128| #[trigger] server.clients@.contains_key(c) implies server.clients@[c].id
                == c && server.clients@[c].window_settled() by {
                assert(moved.clients@.contains_key(c));
            }
            lemma_wf_sessions(&moved, server);
            assert forall|q: ChunkRef| #[trigger]
                server.viewers(q).contains(client) <==> in_view(
                    server.clients@[client].loaded,
                    q,
                ) by {
                crate::invariants::lemma_viewers_exact(server, q, client);
            }
            if camera is Entity {
                lemma_interest_carries(
                    old(server),
                    &moved,
                    server,
                    client,
                    old(server).clients@[client].loaded,
                    camera.spec_centre(old(server).entities@),
                    old(server).camera_info(client, camera),
                );
            }
        }
        Ok(())
    }
}

impl Server {
    /// What a session is told when the chunk at `q` leaves its window.
    pub open spec fn unload_message(&self, q: ChunkRef) -> MessageView {
        MessageView::UnloadChunk(q.position, self.residents(q))
    }

    /// What a session that has not seen the entities `ids` is told of them.
    pub open spec fn add_messages_of(&self, ids: Seq<u128>) -> Seq<EntityAddMessage> {
        ids.map_values(|id: u128| self.entities@[id].add_message(self.ticks_passed))
    }

    /// What a session is told when the chunk at `q` enters its window: the
    /// tiles of every layer and every entity that stands on the chunk.
    pub open spec fn load_message(&self, q: ChunkRef) -> MessageView {
        MessageView::LoadChunk(
            q.position,
            tiles_of(self.layers(q)),
            self.add_messages_of(self.residents(q)),
        )
    }

    /// What `client` is told of the chunks among the first `n` places of the
    /// walk around `seen`, as the window moves to `wanted`: each chunk of the
    /// old window that is not in the new window is unloaded.
    pub open spec fn unloads(
        &self,
        client: u128,
        seen: Option<ChunkRef>,
        wanted: Option<ChunkRef>,
        n: nat,
    ) -> Seq<OutboundView>
        decreases n,
    {
        if n == 0 || seen is None {
            Seq::empty()
        } else {
            let rest = self.unloads(client, seen, wanted, (n - 1) as nat);
            let q = window_at(seen->0, n - 1);
            if !in_view(seen, q) || in_view(wanted, q) {
                rest
            } else {
                rest.push(OutboundView { to: client, message: self.unload_message(q) })
            }
        }
    }

    /// What `client` is told of the chunks among the first `n` places of the
    /// walk around `wanted`, as the window moves there from `seen`: each
    /// chunk of the new window that was not in the old window is loaded.
    pub open spec fn loads(
        &self,
        client: u128,
        seen: Option<ChunkRef>,
        wanted: Option<ChunkRef>,
        n: nat,
    ) -> Seq<OutboundView>
        decreases n,
    {
        if n == 0 || wanted is None {
            Seq::empty()
        } else {
            let rest = self.loads(client, seen, wanted, (n - 1) as nat);
            let q = window_at(wanted->0, n - 1);
            if !in_view(wanted, q) || in_view(seen, q) {
                rest
            } else {
                rest.push(OutboundView { to: client, message: self.load_message(q) })
            }
        }
    }

    /// The waiting tasks once the chunks of the window around `wanted` among
    /// the first `n` places of the walk have been reached.
    pub open spec fn announced(&self, wanted: Option<ChunkRef>, n: nat) -> Seq<Task>
        decreases n,
    {
        if n == 0 || wanted is None {
            self.task_queue@
        } else {
            let rest = self.announced(wanted, (n - 1) as nat);
            let q = window_at(wanted->0, n - 1);
            if !in_view(wanted, q) || self.chunks().contains_key(q) {
                rest
            } else {
                rest.insert(slot(rest, self.ticks_passed), self.announcement(q))
            }
        }
    }

    /// What `client` is told of where its camera `camera` looks.
    pub open spec fn camera_info(&self, client: u128, camera: ClientCameraType) -> Seq<OutboundView> {
        match camera.spec_position(self.entities@) {
            Some(position) => seq![
                OutboundView {
                    to: client,
                    message: MessageView::CameraInfo(Vec2 { x: position.x, y: position.y }),
                },
            ],
            None => Seq::empty(),
        }
    }

    /// The sessions that watch the chunk at `q` once the window of `client`
    /// has moved from `seen` to `wanted`.
    pub open spec fn viewers_after(
        &self,
        client: u128,
        seen: Option<ChunkRef>,
        wanted: Option<ChunkRef>,
        q: ChunkRef,
    ) -> Seq<u128> {
        if in_view(seen, q) && !in_view(wanted, q) {
            without(self.viewers(q), client)
        } else if in_view(wanted, q) && !in_view(seen, q) {
            self.viewers(q).push(client)
        } else {
            self.viewers(q)
        }
    }

    /// `after` is this state once the window of `client` has moved from
    /// `seen` to `wanted` and `info` was sent behind the chunks: every chunk
    /// of the new window exists, the session watches exactly the chunks of
    /// the new window, and it was sent the chunks that left and the chunks
    /// that entered.
    pub open spec fn interest_moved(
        &self,
        after: &Server,
        client: u128,
        seen: Option<ChunkRef>,
        wanted: Option<ChunkRef>,
        info: Seq<OutboundView>,
    ) -> bool {
        &&& after.entities@ == self.entities@
        &&& after.content == self.content
        &&& after.ticks_passed == self.ticks_passed
        &&& forall|q: ChunkRef| #[trigger]
            after.chunks().contains_key(q) <==> self.chunks().contains_key(q) || in_view(wanted, q)
        &&& forall|q: ChunkRef| #[trigger] after.layers(q) == self.layers(q)
        &&& forall|q: ChunkRef| #[trigger] after.residents(q) == self.residents(q)
        &&& forall|q: ChunkRef| #[trigger]
            after.viewers(q) == self.viewers_after(client, seen, wanted, q)
        &&& after.log() == self.log() + self.unloads(client, seen, wanted, WINDOW_AREA as nat)
            + self.loads(client, seen, wanted, WINDOW_AREA as nat) + info
        &&& after.task_queue@ == self.announced(wanted, WINDOW_AREA as nat)
    }

    /// What a session that has not seen the entities `ids` is told of them.
    fn add_messages(&self, ids: &Vec<u128>) -> (r: Vec<EntityAddMessage>)
        requires
            forall|i: int| 0 <= i < ids@.len() ==> self.entities@.contains_key(ids@[i]),
        ensures
            r@ == self.add_messages_of(ids@),
    {
        let mut messages: Vec<EntityAddMessage> = Vec::new();
        let mut i: usize = 0;
        while i < ids.len()
            invariant
                i <= ids.len(),
                forall|k: int| 0 <= k < ids@.len() ==> self.entities@.contains_key(ids@[k]),
                messages@ == self.add_messages_of(ids@).take(i as int),
            decreases ids.len() - i,
        {
            let entity = *self.entities.get(&ids[i]).unwrap();
            messages.push(entity.create_add_message(self.ticks_passed));
            assert(messages@ =~= self.add_messages_of(ids@).take(i as int + 1));
            i += 1;
        }
        assert(self.add_messages_of(ids@).take(ids@.len() as int) =~= self.add_messages_of(ids@));
        messages
    }

    /// Takes `client` off the chunks of the window around `seen` that are
    /// not in the window around `wanted`, and tells it so.
    fn unload_window(&mut self, client: u128, seen: Option<ChunkRef>, wanted: Option<ChunkRef>)
        requires
            old(self).chunks_wf(),
            forall|q: ChunkRef| in_view(seen, q) ==> old(self).chunks().contains_key(q),
        ensures
            final(self).chunks_wf(),
            forall|q: ChunkRef| #[trigger]
                final(self).chunks().contains_key(q) <==> old(self).chunks().contains_key(q),
            forall|q: ChunkRef| #[trigger] final(self).layers(q) == old(self).layers(q),
            forall|q: ChunkRef| #[trigger] final(self).residents(q) == old(self).residents(q),
            forall|q: ChunkRef| #[trigger]
                final(self).viewers(q) == (if in_view(seen, q) && !in_view(wanted, q) {
                    without(old(self).viewers(q), client)
                } else {
                    old(self).viewers(q)
                }),
            final(self).log() == old(self).log() + old(self).unloads(
                client,
                seen,
                wanted,
                WINDOW_AREA as nat,
            ),
            final(self).content == old(self).content,
            final(self).entities == old(self).entities,
            final(self).clients == old(self).clients,
            final(self).ticks_passed == old(self).ticks_passed,
            final(self).task_queue == old(self).task_queue,
    {
        let centre = match seen {
            Some(centre) => centre,
            None => {
                proof {
                    assert(self.log() =~= old(self).log() + old(self).unloads(
                        client,
                        seen,
                        wanted,
                        WINDOW_AREA as nat,
                    ));
                }
                return ;
            },
        };
        let mut j: usize = 0;
        proof {
            assert(self.log() =~= old(self).log() + old(self).unloads(client, seen, wanted, 0));
        }
        while j < WINDOW_AREA
            invariant
                j <= WINDOW_AREA,
                seen == Some(centre),
                old(self).chunks_wf(),
                forall|q: ChunkRef| in_view(seen, q) ==> old(self).chunks().contains_key(q),
                self.chunks_wf(),
                forall|q: ChunkRef| #[trigger]
                    self.chunks().contains_key(q) <==> old(self).chunks().contains_key(q),
                forall|q: ChunkRef| #[trigger] self.layers(q) == old(self).layers(q),
                forall|q: ChunkRef| #[trigger] self.residents(q) == old(self).residents(q),
                forall|q: ChunkRef| #[trigger]
                    self.viewers(q) == (if in_view(seen, q) && !in_view(wanted, q) && window_index(
                        centre,
                        q,
                    ) < j {
                        without(old(self).viewers(q), client)
                    } else {
                        old(self).viewers(q)
                    }),
                self.log() == old(self).log() + old(self).unloads(client, seen, wanted, j as nat),
                self.content == old(self).content,
                self.entities == old(self).entities,
                self.clients == old(self).clients,
                self.ticks_passed == old(self).ticks_passed,
                self.task_queue == old(self).task_queue,
            decreases WINDOW_AREA - j,
        {
            let q = match window_chunk(centre, j) {
                Some(q) => q,
                None => {
                    proof {
                        assert forall|p: ChunkRef| in_view(seen, p) implies window_index(centre, p)
                            != j by {
                            lemma_window_covers(centre, p);
                        }
                    }
                    j += 1;
                    continue ;
                },
            };
            let ghost before = *self;
            proof {
                assert(before.viewers(q) == old(self).viewers(q));
                assert(before.residents(q) == old(self).residents(q));
                assert(before.chunks().contains_key(q));
                assert forall|p: ChunkRef| in_view(seen, p) && window_index(centre, p) == j implies p
                    == q by {
                    lemma_window_covers(centre, p);
                }
            }
            if !sees(wanted, q) {
                let mut chunk = self.take_chunk(q);
                list_remove(&mut chunk.viewers, client);
                let ids = copy_ids(&chunk.entities);
                self.send(client, MessageS2C::UnloadChunk(q.position, ids));
                self.put_chunk(q, chunk);
                proof {
                    assert(self.chunks() =~= before.chunks().insert(q, chunk));
                    assert(self.log() =~= old(self).log() + old(self).unloads(
                        client,
                        seen,
                        wanted,
                        (j + 1) as nat,
                    ));
                    assert forall|p: ChunkRef| #[trigger]
                        self.chunks().contains_key(p) implies self.chunks()[p].wf()
                        && self.chunks()[p].tiles_known(&self.content) by {
                        assert(before.chunks().contains_key(p));
                        crate::world::lemma_tiles_known_kept(
                            before.chunks()[p],
                            self.chunks()[p],
                            &self.content,
                        );
                    }
                    assert forall|p: ChunkRef| #[trigger]
                        self.chunks().contains_key(p) <==> old(self).chunks().contains_key(p) by {
                        assert(before.chunks().contains_key(p) <==> old(self).chunks().contains_key(
                            p,
                        ));
                    }
                    assert forall|p: ChunkRef| #[trigger] self.layers(p) == old(self).layers(p) by {
                        assert(before.layers(p) == old(self).layers(p));
                    }
                    assert forall|p: ChunkRef| #[trigger] self.residents(p) == old(self).residents(
                        p,
                    ) by {
                        assert(before.residents(p) == old(self).residents(p));
                    }
                    assert forall|p: ChunkRef| #[trigger]
                        self.viewers(p) == (if in_view(seen, p) && !in_view(wanted, p)
                            && window_index(centre, p) < j + 1 {
                            without(old(self).viewers(p), client)
                        } else {
                            old(self).viewers(p)
                        }) by {
                        assert(before.viewers(p) == (if in_view(seen, p) && !in_view(wanted, p)
                            && window_index(centre, p) < j {
                            without(old(self).viewers(p), client)
                        } else {
                            old(self).viewers(p)
                        }));
                    }
                }
            } else {
                proof {
                    assert(self.log() =~= old(self).log() + old(self).unloads(
                        client,
                        seen,
                        wanted,
                        (j + 1) as nat,
                    ));
                }
            }
            j += 1;
        }
        proof {
            assert forall|q: ChunkRef| #[trigger]
                self.viewers(q) == (if in_view(seen, q) && !in_view(wanted, q) {
                    without(old(self).viewers(q), client)
                } else {
                    old(self).viewers(q)
                }) by {
                if in_view(seen, q) {
                    lemma_window_covers(centre, q);
                }
            }
        }
    }

    /// Puts `client` on the chunks of the window around `wanted` that are
    /// not in the window around `seen`, and sends it each of them.
    fn load_window(
        &mut self,
        client: u128,
        seen: Option<ChunkRef>,
        wanted: Option<ChunkRef>,
        Ghost(origin): Ghost<Server>,
    )
        requires
            old(self).chunks_wf(),
            old(self).task_queue.wf(),
            origin.residents_wf(),
            old(self).entities@ == origin.entities@,
            old(self).ticks_passed == origin.ticks_passed,
            old(self).task_queue@ == origin.task_queue@,
            forall|q: ChunkRef| #[trigger]
                old(self).chunks().contains_key(q) <==> origin.chunks().contains_key(q),
            forall|q: ChunkRef| #[trigger] old(self).layers(q) == origin.layers(q),
            forall|q: ChunkRef| #[trigger] old(self).residents(q) == origin.residents(q),
            forall|q: ChunkRef| in_view(seen, q) ==> origin.chunks().contains_key(q),
            forall|q: ChunkRef|
                in_view(wanted, q) && !in_view(seen, q) ==> !(#[trigger] old(self).viewers(
                    q,
                )).contains(client),
        ensures
            final(self).chunks_wf(),
            final(self).task_queue.wf(),
            forall|q: ChunkRef| #[trigger]
                final(self).chunks().contains_key(q) <==> old(self).chunks().contains_key(q)
                    || in_view(wanted, q),
            forall|q: ChunkRef| #[trigger] final(self).layers(q) == old(self).layers(q),
            forall|q: ChunkRef| #[trigger] final(self).residents(q) == old(self).residents(q),
            forall|q: ChunkRef| #[trigger]
                final(self).viewers(q) == (if in_view(wanted, q) && !in_view(seen, q) {
                    old(self).viewers(q).push(client)
                } else {
                    old(self).viewers(q)
                }),
            final(self).log() == old(self).log() + origin.loads(
                client,
                seen,
                wanted,
                WINDOW_AREA as nat,
            ),
            final(self).task_queue@ == origin.announced(wanted, WINDOW_AREA as nat),
            final(self).content == old(self).content,
            final(self).entities == old(self).entities,
            final(self).clients == old(self).clients,
            final(self).ticks_passed == old(self).ticks_passed,
    {
        let centre = match wanted {
            Some(centre) => centre,
            None => {
                proof {
                    assert(self.log() =~= old(self).log() + origin.loads(
                        client,
                        seen,
                        wanted,
                        WINDOW_AREA as nat,
                    ));
                }
                return ;
            },
        };
        let mut j: usize = 0;
        proof {
            assert(self.log() =~= old(self).log() + origin.loads(client, seen, wanted, 0));
        }
        while j < WINDOW_AREA
            invariant
                j <= WINDOW_AREA,
                wanted == Some(centre),
                origin.residents_wf(),
                old(self).entities@ == origin.entities@,
                old(self).ticks_passed == origin.ticks_passed,
                forall|q: ChunkRef| #[trigger]
                    old(self).chunks().contains_key(q) <==> origin.chunks().contains_key(q),
                forall|q: ChunkRef| #[trigger] old(self).layers(q) == origin.layers(q),
                forall|q: ChunkRef| #[trigger] old(self).residents(q) == origin.residents(q),
                forall|q: ChunkRef| in_view(seen, q) ==> origin.chunks().contains_key(q),
                forall|q: ChunkRef|
                    in_view(wanted, q) && !in_view(seen, q) ==> !(#[trigger] old(self).viewers(
                        q,
                    )).contains(client),
                self.chunks_wf(),
                self.task_queue.wf(),
                forall|q: ChunkRef| #[trigger]
                    self.chunks().contains_key(q) <==> old(self).chunks().contains_key(q) || (
                    in_view(wanted, q) && window_index(centre, q) < j),
                forall|q: ChunkRef| #[trigger] self.layers(q) == old(self).layers(q),
                forall|q: ChunkRef| #[trigger] self.residents(q) == old(self).residents(q),
                forall|q: ChunkRef| #[trigger]
                    self.viewers(q) == (if in_view(wanted, q) && !in_view(seen, q) && window_index(
                        centre,
                        q,
                    ) < j {
                        old(self).viewers(q).push(client)
                    } else {
                        old(self).viewers(q)
                    }),
                self.log() == old(self).log() + origin.loads(client, seen, wanted, j as nat),
                self.task_queue@ == origin.announced(wanted, j as nat),
                self.content == old(self).content,
                self.entities == old(self).entities,
                self.clients == old(self).clients,
                self.ticks_passed == old(self).ticks_passed,
            decreases WINDOW_AREA - j,
        {
            let q = match window_chunk(centre, j) {
                Some(q) => q,
                None => {
                    proof {
                        assert forall|p: ChunkRef| in_view(wanted, p) implies window_index(
                            centre,
                            p,
                        ) != j by {
                            lemma_window_covers(centre, p);
                        }
                    }
                    j += 1;
                    continue ;
                },
            };
            let ghost before = *self;
            proof {
                assert(before.viewers(q) == old(self).viewers(q));
                assert(before.residents(q) == origin.residents(q)) by {
                    assert(before.residents(q) == old(self).residents(q));
                    assert(old(self).residents(q) == origin.residents(q));
                }
                assert(before.layers(q) == origin.layers(q)) by {
                    assert(before.layers(q) == old(self).layers(q));
                    assert(old(self).layers(q) == origin.layers(q));
                }
                assert(before.chunks().contains_key(q) <==> origin.chunks().contains_key(q)) by {
                    assert(old(self).chunks().contains_key(q) <==> origin.chunks().contains_key(q));
                }
                assert forall|p: ChunkRef| in_view(wanted, p) && window_index(centre, p)
                    == j implies p == q by {
                    lemma_window_covers(centre, p);
                }
            }
            if !sees(seen, q) {
                self.reach(q);
                let ghost reached = *self;
                let mut chunk = self.take_chunk(q);
                proof {
                    assert(chunk.viewers@ == before.viewers(q));
                    assert(chunk.entities@ == origin.residents(q));
                    assert forall|i: int| 0 <= i < chunk.entities@.len() implies self.entities@.contains_key(
                        chunk.entities@[i],
                    ) by {
                        if origin.chunks().contains_key(q) {
                            assert(origin.chunks()[q].entities@.contains(chunk.entities@[i]));
                        }
                    }
                }
                chunk.viewers.push(client);
                let layers = chunk.snapshot();
                let entities = self.add_messages(&chunk.entities);
                proof {
                    assert(self.add_messages_of(chunk.entities@) =~= origin.add_messages_of(
                        origin.residents(q),
                    ));
                    assert(chunk.layer_views() == origin.layers(q));
                }
                self.send(client, MessageS2C::LoadChunk(q.position, layers, entities));
                self.put_chunk(q, chunk);
                proof {
                    assert(self.chunks() =~= reached.chunks().insert(q, chunk));
                    crate::server::lemma_same_elsewhere(before.chunks(), reached.chunks(), q);
                    assert(self.log() =~= old(self).log() + origin.loads(
                        client,
                        seen,
                        wanted,
                        (j + 1) as nat,
                    ));
                    assert(self.task_queue@ == origin.announced(wanted, (j + 1) as nat));
                    assert forall|p: ChunkRef| #[trigger]
                        self.chunks().contains_key(p) implies self.chunks()[p].wf()
                        && self.chunks()[p].tiles_known(&self.content) by {
                        if p != q {
                            assert(before.chunks().contains_key(p));
                            assert(before.chunks()[p].tiles_known(&before.content));
                        } else {
                            if before.chunks().contains_key(q) {
                                assert(before.chunks()[q].wf());
                                assert(before.chunks()[q].tiles_known(&before.content));
                            }
                            assert(reached.chunks()[q].wf());
                            crate::world::lemma_tiles_known_kept(
                                reached.chunks()[q],
                                self.chunks()[q],
                                &self.content,
                            );
                        }
                    }
                    assert forall|p: ChunkRef| #[trigger]
                        self.chunks().contains_key(p) <==> old(self).chunks().contains_key(p) || (
                        in_view(wanted, p) && window_index(centre, p) < j + 1) by {
                        assert(before.chunks().contains_key(p) <==> old(self).chunks().contains_key(
                            p,
                        ) || (in_view(wanted, p) && window_index(centre, p) < j));
                    }
                    assert forall|p: ChunkRef| #[trigger] self.layers(p) == old(self).layers(p) by {
                        assert(before.layers(p) == old(self).layers(p));
                    }
                    assert forall|p: ChunkRef| #[trigger] self.residents(p) == old(self).residents(
                        p,
                    ) by {
                        assert(before.residents(p) == old(self).residents(p));
                    }
                    assert forall|p: ChunkRef| #[trigger]
                        self.viewers(p) == (if in_view(wanted, p) && !in_view(seen, p)
                            && window_index(centre, p) < j + 1 {
                            old(self).viewers(p).push(client)
                        } else {
                            old(self).viewers(p)
                        }) by {
                        assert(before.viewers(p) == (if in_view(wanted, p) && !in_view(seen, p)
                            && window_index(centre, p) < j {
                            old(self).viewers(p).push(client)
                        } else {
                            old(self).viewers(p)
                        }));
                    }
                }
            } else {
                proof {
                    assert(origin.chunks().contains_key(q));
                    assert(self.log() =~= old(self).log() + origin.loads(
                        client,
                        seen,
                        wanted,
                        (j + 1) as nat,
                    ));
                    assert(self.task_queue@ == origin.announced(wanted, (j + 1) as nat));
                    assert forall|p: ChunkRef| #[trigger]
                        self.chunks().contains_key(p) <==> old(self).chunks().contains_key(p) || (
                        in_view(wanted, p) && window_index(centre, p) < j + 1) by {}
                }
            }
            j += 1;
        }
        proof {
            assert forall|q: ChunkRef| #[trigger]
                self.chunks().contains_key(q) <==> old(self).chunks().contains_key(q) || in_view(
                    wanted,
                    q,
                ) by {
                if in_view(wanted, q) {
                    lemma_window_covers(centre, q);
                }
            }
            assert forall|q: ChunkRef| #[trigger]
                self.viewers(q) == (if in_view(wanted, q) && !in_view(seen, q) {
                    old(self).viewers(q).push(client)
                } else {
                    old(self).viewers(q)
                }) by {
                if in_view(wanted, q) {
                    lemma_window_covers(centre, q);
                }
            }
        }
    }

    /// Binds the camera of `client` to `new_camera`. The window of the
    /// session moves to the chunk that the camera looks at: the session is
    /// sent an unload for each chunk that leaves the window and a load for
    /// each chunk that enters it, then the point that the camera looks at.
    pub fn set_camera(&mut self, client: u128, new_camera: ClientCameraType) -> (r: Result<
        (),
        WorldError,
    >)
        requires
            old(self).wf(),
        ensures
            final(self).wf(),
            match r {
                Ok(()) => {
                    let before = old(self).clients@[client];
                    let wanted = new_camera.spec_centre(old(self).entities@);
                    &&& old(self).clients@.contains_key(client)
                    &&& final(self).clients@ == old(self).clients@.insert(
                        client,
                        Client { camera: new_camera, loaded: wanted, ..before },
                    )
                    &&& old(self).interest_moved(
                        final(self),
                        client,
                        before.loaded,
                        wanted,
                        old(self).camera_info(client, new_camera),
                    )
                    &&& forall|q: ChunkRef| #[trigger]
                        final(self).viewers(q).contains(client) <==> in_view(wanted, q)
                },
                Err(e) => {
                    &&& *final(self) == *old(self)
                    &&& e == WorldError::UnknownClient
                    &&& !old(self).clients@.contains_key(client)
                },
            },
    {
        let seen = match self.clients.get(&client) {
            Some(session) => session.loaded,
            None => {
                return Err(WorldError::UnknownClient);
            },
        };
        let position = new_camera.get_position(&self.entities);
        let wanted = new_camera.centre(&self.entities);
        proof {
            assert forall|q: ChunkRef| in_view(seen, q) implies old(self).chunks().contains_key(
                q,
            ) by {
                assert(in_view(old(self).clients@[client].loaded, q));
            }
        }
        self.unload_window(client, seen, wanted);
        let ghost unloaded = *self;
        proof {
            assert forall|q: ChunkRef| in_view(wanted, q) && !in_view(seen, q) implies !(
            #[trigger] unloaded.viewers(q)).contains(client) by {
                assert(unloaded.viewers(q) == old(self).viewers(q));
                if old(self).chunks().contains_key(q) && old(self).chunks()[q].viewers@.contains(
                    client,
                ) {
                    assert(in_view(old(self).clients@[client].loaded, q));
                }
            }
        }
        self.load_window(client, seen, wanted, Ghost(*old(self)));
        let ghost loaded = *self;
        match position {
            Some(point) => {
                self.send(client, MessageS2C::CameraInfo(point.coordinates()));
            },
            None => {},
        }
        let ghost before = old(self).clients@[client];
        let mut session = self.clients.remove(&client).unwrap();
        session.camera = new_camera;
        session.loaded = wanted;
        self.clients.insert(client, session);
        proof {
            assert(self.clients@ =~= old(self).clients@.insert(
                client,
                Client { camera: new_camera, loaded: wanted, ..before },
            ));
            assert(self.log() =~= old(self).log() + old(self).unloads(
                client,
                seen,
                wanted,
                WINDOW_AREA as nat,
            ) + old(self).loads(client, seen, wanted, WINDOW_AREA as nat) + old(self).camera_info(
                client,
                new_camera,
            ));
            assert(self.chunks() == loaded.chunks());
            assert forall|q: ChunkRef| #[trigger]
                self.chunks().contains_key(q) <==> old(self).chunks().contains_key(q) || in_view(
                    wanted,
                    q,
                ) by {
                assert(unloaded.chunks().contains_key(q) <==> old(self).chunks().contains_key(q));
                assert(loaded.chunks().contains_key(q) <==> unloaded.chunks().contains_key(q)
                    || in_view(wanted, q));
            }
            assert forall|q: ChunkRef| #[trigger] self.layers(q) == old(self).layers(q) by {
                assert(unloaded.layers(q) == old(self).layers(q));
                assert(loaded.layers(q) == unloaded.layers(q));
            }
            assert forall|q: ChunkRef| #[trigger] self.residents(q) == old(self).residents(q) by {
                assert(unloaded.residents(q) == old(self).residents(q));
                assert(loaded.residents(q) == unloaded.residents(q));
            }
            assert forall|q: ChunkRef| #[trigger]
                self.viewers(q) == old(self).viewers_after(client, seen, wanted, q) by {
                assert(loaded.viewers(q) == (if in_view(wanted, q) && !in_view(seen, q) {
                    unloaded.viewers(q).push(client)
                } else {
                    unloaded.viewers(q)
                }));
                assert(unloaded.viewers(q) == (if in_view(seen, q) && !in_view(wanted, q) {
                    without(old(self).viewers(q), client)
                } else {
                    old(self).viewers(q)
                }));
            }
            assert(self.clients@.remove(client) =~= old(self).clients@.remove(client));
            lemma_wf_after_camera(old(self), self, client, wanted);
            assert forall|q: ChunkRef| #[trigger]
                self.viewers(q).contains(client) <==> in_view(wanted, q) by {
                crate::invariants::lemma_viewers_exact(self, q, client);
            }
        }
        Ok(())
    }

    /// Takes in the session `id`, which starts out without a camera and
    /// without input.
    pub fn join_with_id(&mut self, id: u128) -> (r: Result<(), WorldError>)
        requires
            old(self).wf(),
        ensures
            final(self).wf(),
            match r {
                Ok(()) => {
                    &&& !old(self).clients@.contains_key(id)
                    &&& final(self).clients@.contains_key(id)
                    &&& final(self).clients@.remove(id) == old(self).clients@
                    &&& final(self).clients@[id].id == id
                    &&& final(self).clients@[id].camera == ClientCameraType::Off
                    &&& final(self).clients@[id].loaded is None
                    &&& !final(self).clients@[id].closed
                    &&& final(self).clients@[id].player_input.is_blank()
                    &&& final(self).worlds == old(self).worlds
                    &&& final(self).content == old(self).content
                    &&& final(self).entities == old(self).entities
                    &&& final(self).ticks_passed == old(self).ticks_passed
                    &&& final(self).task_queue == old(self).task_queue
                    &&& final(self).outbound == old(self).outbound
                },
                Err(e) => {
                    &&& *final(self) == *old(self)
                    &&& e == WorldError::IdInUse
                    &&& old(self).clients@.contains_key(id)
                },
            },
    {
        if self.clients.contains_key(&id) {
            return Err(WorldError::IdInUse);
        }
        self.clients.insert(id, Client::new(id));
        proof {
            assert(self.clients@.remove(id) =~= old(self).clients@);
            assert forall|c: u128| #[trigger] self.clients@.contains_key(c) implies self.clients@[c].id
                == c && self.clients@[c].window_settled() by {
                if c != id {
                    assert(old(self).clients@.contains_key(c));
                }
            }
            lemma_wf_sessions(old(self), self);
        }
        Ok(())
    }

    /// Lets the session `client` go: it is sent an unload for every chunk of
    /// its window, watches no chunk any more, and is handed back.
    pub fn leave(&mut self, client: u128) -> (r: Result<Client, WorldError>)
        requires
            old(self).wf(),
        ensures
            final(self).wf(),
            match r {
                Ok(session) => {
                    let before = old(self).clients@[client];
                    &&& old(self).clients@.contains_key(client)
                    &&& session == (Client {
                        camera: ClientCameraType::Off,
                        loaded: None,
                        ..before
                    })
                    &&& final(self).clients@ == old(self).clients@.remove(client)
                    &&& old(self).interest_moved(
                        final(self),
                        client,
                        before.loaded,
                        None,
                        Seq::empty(),
                    )
                },
                Err(e) => {
                    &&& *final(self) == *old(self)
                    &&& e == WorldError::UnknownClient
                    &&& !old(self).clients@.contains_key(client)
                },
            },
    {
        match self.set_camera(client, ClientCameraType::Off) {
            Ok(()) => {},
            Err(e) => {
                return Err(e);
            },
        }
        let ghost moved = *self;
        let session = self.clients.remove(&client).unwrap();
        proof {
            assert(self.clients@ =~= old(self).clients@.remove(client));
            assert(old(self).camera_info(client, ClientCameraType::Off) =~= Seq::<
                OutboundView,
            >::empty());
            lemma_interest_carries(
                old(self),
                &moved,
                self,
                client,
                old(self).clients@[client].loaded,
                None,
                Seq::empty(),
            );
            assert forall|c: u128, q: ChunkRef|
                (self.clients@.contains_key(c) && in_view(self.clients@[c].loaded, q)) <==> (
                moved.clients@.contains_key(c) && in_view(moved.clients@[c].loaded, q)) by {}
            assert forall|c: u128| #[trigger] self.clients@.contains_key(c) implies self.clients@[c].id
                == c && self.clients@[c].window_settled() by {
                assert(moved.clients@.contains_key(c));
            }
            lemma_wf_sessions(&moved, self);
        }
        Ok(session)
    }

    /// Whether the session `client` is closed.
    pub fn is_closed(&self, client: u128) -> (r: Option<bool>)
        ensures
            r == (if self.clients@.contains_key(client) {
                Some(self.clients@[client].closed)
            } else {
                None
            }),
    {
        match self.clients.get(&client) {
            Some(session) => Some(session.closed),
            None => None,
        }
    }
}

/// A consistent state stays consistent when the window of one session moves.
pub(crate) proof fn lemma_wf_after_camera(
    before: &Server,
    after: &Server,
    client: u128,
    wanted: Option<ChunkRef>,
)
    requires
        before.wf(),
        before.clients@.contains_key(client),
        after.clients@.contains_key(client),
        after.clients@.remove(client) == before.clients@.remove(client),
        after.clients@[client].id == client,
        after.clients@[client].loaded == wanted,
        after.clients@[client].window_settled(),
        after.chunks_wf(),
        after.task_queue.wf(),
        after.entities@ == before.entities@,
        after.content == before.content,
        after.ticks_passed == before.ticks_passed,
        forall|q: ChunkRef| #[trigger]
            after.chunks().contains_key(q) <==> before.chunks().contains_key(q) || in_view(wanted, q),
        forall|q: ChunkRef| #[trigger] after.residents(q) == before.residents(q),
        forall|q: ChunkRef| #[trigger]
            after.viewers(q) == before.viewers_after(
                client,
                before.clients@[client].loaded,
                wanted,
                q,
            ),
    ensures
        after.wf(),
{
    let seen = before.clients@[client].loaded;
    assert forall|c: u128| c != client implies (#[trigger] after.clients@.contains_key(c)
        <==> before.clients@.contains_key(c)) && (after.clients@.contains_key(c)
        ==> after.clients@[c] == before.clients@[c]) by {
        assert(after.clients@.remove(client).contains_key(c) <==> after.clients@.contains_key(c));
        assert(before.clients@.remove(client).contains_key(c) <==> before.clients@.contains_key(c));
        assert(after.clients@.remove(client)[c] == after.clients@[c]);
        assert(before.clients@.remove(client)[c] == before.clients@[c]);
    }
    assert forall|q: ChunkRef| before.chunks().contains_key(q) implies (
    #[trigger] before.viewers(q)).no_duplicates() by {
        assert(before.chunks()[q].wf());
    }
    assert(after.entities_wf()) by {
        assert forall|id: u128| #[trigger] after.entities@.contains_key(id) implies ({
            let e = after.entities@[id];
            &&& e.uuid == id
            &&& !e.removed
            &&& after.content.entity_registry.contains(e.type_id)
            &&& e.animation.begin_time <= after.ticks_passed
            &&& after.chunks().contains_key(e.place())
            &&& after.chunks()[e.place()].entities@.contains(id)
        }) by {
            assert(before.entities@.contains_key(id));
            let q = before.entities@[id].place();
            assert(before.chunks().contains_key(q));
            assert(after.chunks().contains_key(q));
            assert(after.residents(q) == before.residents(q));
        }
    }
    assert(after.residents_wf()) by {
        assert forall|q: ChunkRef, id: u128|
            after.chunks().contains_key(q) && #[trigger] after.chunks()[q].entities@.contains(
                id,
            ) implies after.entities@.contains_key(id) && after.entities@[id].place() == q by {
            assert(after.residents(q) == before.residents(q));
            assert(before.residents(q).contains(id));
            assert(before.chunks().contains_key(q));
            assert(before.chunks()[q].entities@.contains(id));
        }
    }
    assert(after.clients_wf()) by {
        assert forall|c: u128| #[trigger] after.clients@.contains_key(c) implies after.clients@[c].id
            == c && after.clients@[c].window_settled() by {
            if c != client {
                assert(before.clients@.contains_key(c));
            }
        }
    }
    assert(after.windows_wf()) by {
        assert forall|c: u128, q: ChunkRef|
            after.clients@.contains_key(c) && #[trigger] in_view(
                after.clients@[c].loaded,
                q,
            ) implies after.chunks().contains_key(q) && after.chunks()[q].viewers@.contains(c) by {
            assert(after.viewers(q) == before.viewers_after(client, seen, wanted, q));
            if c == client {
                assert(after.chunks().contains_key(q));
                if in_view(seen, q) {
                    assert(in_view(before.clients@[client].loaded, q));
                    assert(before.chunks()[q].viewers@.contains(client));
                } else {
                    let list = before.viewers(q);
                    assert(list.push(client)[list.len() as int] == client);
                }
            } else {
                assert(before.clients@.contains_key(c));
                assert(in_view(before.clients@[c].loaded, q));
                assert(before.chunks().contains_key(q));
                assert(before.chunks()[q].viewers@.contains(c));
                let list = before.viewers(q);
                lemma_without(list, client);
                let k = choose|k: int| 0 <= k < list.len() && list[k] == c;
                assert(list.push(client)[k] == c);
            }
        }
    }
    assert(after.viewers_wf()) by {
        assert forall|q: ChunkRef, c: u128|
            after.chunks().contains_key(q) && #[trigger] after.chunks()[q].viewers@.contains(
                c,
            ) implies after.clients@.contains_key(c) && in_view(after.clients@[c].loaded, q) by {
            assert(after.viewers(q) == before.viewers_after(client, seen, wanted, q));
            let list = before.viewers(q);
            if before.chunks().contains_key(q) {
                lemma_without(list, client);
            }
            if list.contains(c) {
                assert(before.chunks()[q].viewers@.contains(c));
                assert(before.clients@.contains_key(c));
                assert(in_view(before.clients@[c].loaded, q));
            } else {
                let grown = list.push(client);
                let k = choose|k: int| 0 <= k < grown.len() && grown[k] == c;
                if k < list.len() {
                    assert(list[k] == c);
                }
            }
        }
    }
}

/// A consistent state stays consistent when sessions come, go or change, as
/// long as every session keeps its window.
pub(crate) proof fn lemma_wf_sessions(before: &Server, after: &Server)
    requires
        before.wf(),
        after.chunks() == before.chunks(),
        after.entities@ == before.entities@,
        after.content == before.content,
        after.ticks_passed == before.ticks_passed,
        after.task_queue.wf(),
        forall|c: u128| #[trigger]
            after.clients@.contains_key(c) ==> after.clients@[c].id == c
                && after.clients@[c].window_settled(),
        forall|c: u128, q: ChunkRef|
            (after.clients@.contains_key(c) && in_view(after.clients@[c].loaded, q)) <==> (
            before.clients@.contains_key(c) && in_view(before.clients@[c].loaded, q)),
    ensures
        after.wf(),
{
    assert(before.chunks_wf());
    assert(before.entities_wf());
    assert(before.residents_wf());
    assert(after.windows_wf()) by {
        assert forall|c: u128, q: ChunkRef|
            after.clients@.contains_key(c) && #[trigger] in_view(
                after.clients@[c].loaded,
                q,
            ) implies after.chunks().contains_key(q) && after.chunks()[q].viewers@.contains(c) by {
            assert(before.clients@.contains_key(c) && in_view(before.clients@[c].loaded, q));
        }
    }
    assert(after.viewers_wf()) by {
        assert forall|q: ChunkRef, c: u128|
            after.chunks().contains_key(q) && #[trigger] after.chunks()[q].viewers@.contains(
                c,
            ) implies after.clients@.contains_key(c) && in_view(after.clients@[c].loaded, q) by {
            assert(before.chunks()[q].viewers@.contains(c));
            assert(before.clients@.contains_key(c) && in_view(before.clients@[c].loaded, q));
        }
    }
}

/// What holds of a state after the window of a session has moved holds of
/// every state with the same world, clock, tasks and outbound messages.
pub(crate) proof fn lemma_interest_carries(
    before: &Server,
    moved: &Server,
    after: &Server,
    client: u128,
    seen: Option<ChunkRef>,
    wanted: Option<ChunkRef>,
    info: Seq<OutboundView>,
)
    requires
        before.interest_moved(moved, client, seen, wanted, info),
        after.chunks() == moved.chunks(),
        after.entities@ == moved.entities@,
        after.content == moved.content,
        after.ticks_passed == moved.ticks_passed,
        after.task_queue@ == moved.task_queue@,
        after.log() == moved.log(),
    ensures
        before.interest_moved(after, client, seen, wanted, info),
{
    assert forall|q: ChunkRef| #[trigger]
        after.chunks().contains_key(q) <==> before.chunks().contains_key(q) || in_view(wanted, q) by {
        assert(moved.chunks().contains_key(q) <==> before.chunks().contains_key(q) || in_view(
            wanted,
            q,
        ));
    }
    assert forall|q: ChunkRef| #[trigger] after.layers(q) == before.layers(q) by {
        assert(moved.layers(q) == before.layers(q));
    }
    assert forall|q: ChunkRef| #[trigger] after.residents(q) == before.residents(q) by {
        assert(moved.residents(q) == before.residents(q));
    }
    assert forall|q: ChunkRef| #[trigger]
        after.viewers(q) == before.viewers_after(client, seen, wanted, q) by {
        assert(moved.viewers(q) == before.viewers_after(client, seen, wanted, q));
    }
}

} // verus!
