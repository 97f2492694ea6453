//! The server: every world, entity and session, the clock, the waiting
//! tasks and the messages on their way out.

use vstd::prelude::*;
use std::collections::HashMap;
use crate::content::{InitEnvironment, TileType};
use crate::entity::{Entity, EntityAnimation};
use crate::interest::in_view;
use crate::message::{
    outbound_view, to_each, MessageS2C, MessageView, Notice, Outbound, OutboundView, RunningAnimation,
};
use crate::names::{AnimationId, EntityTypeId, TileId, TilesetId, WorldId, DEFAULT_NAME};
use crate::pos::{ChunkPosition, Position, TilePosition, Vec2};
use crate::scheduler::{
    action_of, clock_after, queue_after, slot, Task, TaskAction, TaskQueue, TickAction, TickEvent,
};
use crate::session::Client;
use crate::world::{
    data_in, in_both, key_of, lemma_parts_step, list_contains, list_remove, only_in, tile_in, with_data,
    without, written, Chunk, ChunkRef, LayerView, World,
};

verus! {

/// Why an operation on the world was refused.
#[derive(Copy, Clone, Debug, PartialEq, Eq, Structural)]
pub enum WorldError {
    /// No entity type is registered under the name.
    UnknownEntityType,
    /// The identifier belongs to an entity or session that exists.
    IdInUse,
    /// No entity has the identifier.
    UnknownEntity,
    /// The entity's type has no animation of the name.
    UnknownAnimation,
    /// The animation would have begun before tick 0.
    TimeBeforeStart,
    /// No session has the identifier.
    UnknownClient,
    /// No tileset is registered under the name.
    UnknownTileset,
    /// The tileset has no tile of the name or number.
    UnknownTile,
    /// The text is not an identifier.
    MalformedUuid,
    /// The entity's type has no collider of the name.
    UnknownCollider,
}

/// The chunks of `worlds`, by their places.
pub open spec fn chunk_map(worlds: Map<WorldId, World>) -> Map<ChunkRef, Chunk> {
    Map::new(
        |r: ChunkRef| worlds.contains_key(r.world) && worlds[r.world].has_chunk(r.position),
        |r: ChunkRef| worlds[r.world].chunk(r.position),
    )
}

/// The state of the server. The messages on their way out are kept in one
/// queue for all sessions, oldest first; the messages of one session leave
/// in the order in which they entered.
pub struct Server {
    pub worlds: HashMap<WorldId, World>,
    pub content: InitEnvironment,
    pub entities: HashMap<u128, Entity>,
    pub clients: HashMap<u128, Client>,
    pub ticks_passed: u32,
    pub task_queue: TaskQueue,
    pub outbound: Vec<Outbound>,
}

impl Server {
    /// Every chunk that was reached so far, by its place.
    pub open spec fn chunks(&self) -> Map<ChunkRef, Chunk> {
        chunk_map(self.worlds@)
    }

    /// The messages on their way out, oldest first.
    pub open spec fn log(&self) -> Seq<OutboundView> {
        outbound_view(self.outbound@)
    }

    /// The sessions that watch the chunk at `r`.
    pub open spec fn viewers(&self, r: ChunkRef) -> Seq<u128> {
        if self.chunks().contains_key(r) {
            self.chunks()[r].viewers@
        } else {
            Seq::empty()
        }
    }

    /// The entities that stand on the chunk at `r`.
    pub open spec fn residents(&self, r: ChunkRef) -> Seq<u128> {
        if self.chunks().contains_key(r) {
            self.chunks()[r].entities@
        } else {
            Seq::empty()
        }
    }

    /// The layers of the chunk at `r`.
    pub open spec fn layers(&self, r: ChunkRef) -> Seq<(TilesetId, LayerView)> {
        if self.chunks().contains_key(r) {
            self.chunks()[r].layer_views()
        } else {
            Seq::empty()
        }
    }

    /// The task that announces the chunk at `r`.
    pub open spec fn announcement(&self, r: ChunkRef) -> Task {
        Task { run_on: self.ticks_passed, task: TaskAction::LoadChunk(r.world, r.position) }
    }

    /// The waiting tasks once the chunk at `r` has been reached: a chunk that
    /// is reached for the first time is announced by a task for the current
    /// tick.
    pub open spec fn reached(&self, r: ChunkRef) -> Seq<Task> {
        if self.chunks().contains_key(r) {
            self.task_queue@
        } else {
            self.task_queue@.insert(
                slot(self.task_queue@, self.ticks_passed),
                self.announcement(r),
            )
        }
    }

    /// The entity that `spawn_with_id` makes.
    pub open spec fn newborn(&self, uuid: u128, type_id: EntityTypeId, position: Position) -> Entity {
        Entity {
            type_id,
            uuid,
            position,
            removed: false,
            animation: EntityAnimation { begin_time: self.ticks_passed, animation: DEFAULT_NAME },
            data_metatable: self.content.entity_registry.spec_get(type_id).data_metatable,
        }
    }

    /// `after` is this state once the entity `uuid` of the type `type_id`
    /// was made at `position`.
    pub open spec fn spawned(
        &self,
        after: &Server,
        uuid: u128,
        type_id: EntityTypeId,
        position: Position,
    ) -> bool {
        let entity = self.newborn(uuid, type_id, position);
        let at = entity.place();
        &&& self.content.entity_registry.contains(type_id)
        &&& !self.entities@.contains_key(uuid)
        &&& after.entities@ == self.entities@.insert(uuid, entity)
        &&& after.chunks().contains_key(at)
        &&& after.chunks().remove(at) == self.chunks().remove(at)
        &&& after.residents(at) == self.residents(at).push(uuid)
        &&& after.viewers(at) == self.viewers(at)
        &&& after.layers(at) == self.layers(at)
        &&& after.log() == self.log() + to_each(
            self.viewers(at),
            MessageView::AddEntity(entity.add_message(self.ticks_passed)),
        )
        &&& after.task_queue@ == self.reached(at)
        &&& after.clients == self.clients
        &&& after.content == self.content
        &&& after.ticks_passed == self.ticks_passed
    }

    /// `after` is this state once the entity `uuid` was taken out of the
    /// world.
    pub open spec fn despawned(&self, after: &Server, uuid: u128) -> bool {
        let at = self.entities@[uuid].place();
        &&& self.entities@.contains_key(uuid)
        &&& after.entities@ == self.entities@.remove(uuid)
        &&& after.chunks().contains_key(at)
        &&& after.chunks().remove(at) == self.chunks().remove(at)
        &&& after.residents(at) == without(self.residents(at), uuid)
        &&& after.viewers(at) == self.viewers(at)
        &&& after.layers(at) == self.layers(at)
        &&& after.log() == self.log() + to_each(self.viewers(at), MessageView::RemoveEntity(uuid))
        &&& after.task_queue == self.task_queue
        &&& after.clients == self.clients
        &&& after.content == self.content
        &&& after.ticks_passed == self.ticks_passed
    }

    /// `after` is this state once the entity `uuid` was moved to `position`.
    pub open spec fn moved(&self, after: &Server, uuid: u128, position: Position) -> bool {
        let before = self.entities@[uuid];
        let from = before.place();
        let to = ChunkRef { world: position.world, position: position.spec_chunk() };
        let coordinates = Vec2 { x: position.x, y: position.y };
        &&& self.entities@.contains_key(uuid)
        &&& after.entities@ == self.entities@.insert(uuid, Entity { position, ..before })
        &&& after.clients == self.clients
        &&& after.content == self.content
        &&& after.ticks_passed == self.ticks_passed
        &&& from == to ==> {
            &&& after.chunks() == self.chunks()
            &&& after.task_queue@ == self.task_queue@
            &&& after.log() == self.log() + to_each(
                self.viewers(from),
                MessageView::UpdateEntityPosition(uuid, coordinates),
            )
        }
        &&& from != to ==> {
            &&& after.chunks().contains_key(to)
            &&& after.chunks().remove(from).remove(to) == self.chunks().remove(from).remove(to)
            &&& after.residents(from) == without(self.residents(from), uuid)
            &&& after.viewers(from) == self.viewers(from)
            &&& after.layers(from) == self.layers(from)
            &&& after.residents(to) == self.residents(to).push(uuid)
            &&& after.viewers(to) == self.viewers(to)
            &&& after.layers(to) == self.layers(to)
            &&& after.task_queue@ == self.reached(to)
            &&& after.log() == self.log() + to_each(
                only_in(self.viewers(to), self.viewers(from)),
                MessageView::AddEntity(before.add_message(self.ticks_passed)),
            ) + to_each(
                in_both(self.viewers(to), self.viewers(from)),
                MessageView::UpdateEntityPosition(uuid, coordinates),
            ) + to_each(
                only_in(self.viewers(from), self.viewers(to)),
                MessageView::RemoveEntity(uuid),
            )
        }
    }

    /// `after` is this state once the animation of the entity `uuid` became
    /// `running`.
    pub open spec fn reanimated(&self, after: &Server, uuid: u128, running: EntityAnimation) -> bool {
        let before = self.entities@[uuid];
        &&& self.entities@.contains_key(uuid)
        &&& after.entities@ == self.entities@.insert(uuid, Entity { animation: running, ..before })
        &&& after.log() == self.log() + to_each(
            self.viewers(before.place()),
            MessageView::UpdateEntityAnimation(
                uuid,
                RunningAnimation {
                    id: running.animation,
                    time: running.spec_running_for(self.ticks_passed),
                },
            ),
        )
        &&& after.chunks() == self.chunks()
        &&& after.task_queue == self.task_queue
        &&& after.clients == self.clients
        &&& after.content == self.content
        &&& after.ticks_passed == self.ticks_passed
    }

    /// `after` is this state once the tile with the number `number` of
    /// `tileset` was put at `position` of `world`.
    pub open spec fn tile_written(
        &self,
        after: &Server,
        position: TilePosition,
        world: WorldId,
        tileset: TilesetId,
        number: u32,
    ) -> bool {
        let at = ChunkRef { world, position: position.spec_chunk() };
        let index = position.spec_offset().spec_index();
        &&& after.chunks().contains_key(at)
        &&& after.chunks().remove(at) == self.chunks().remove(at)
        &&& after.layers(at) == written(self.layers(at), tileset, index, number)
        &&& after.residents(at) == self.residents(at)
        &&& after.viewers(at) == self.viewers(at)
        &&& after.log() == self.log() + to_each(
            self.viewers(at),
            MessageView::SetTile(position, tileset, number),
        )
        &&& after.task_queue@ == self.reached(at)
        &&& after.entities == self.entities
        &&& after.clients == self.clients
        &&& after.content == self.content
        &&& after.ticks_passed == self.ticks_passed
    }

    /// Every chunk is well formed, and its tiles are tiles of registered
    /// tilesets.
    pub open spec fn chunks_wf(&self) -> bool {
        forall|r: ChunkRef| #[trigger]
            self.chunks().contains_key(r) ==> self.chunks()[r].wf() && self.chunks()[r].tiles_known(
                &self.content,
            )
    }

    /// Every entity is registered under its own identifier, has a registered
    /// type and an animation that began in the past, and stands on the chunk
    /// under its position.
    pub open spec fn entities_wf(&self) -> bool {
        forall|id: u128| #[trigger]
            self.entities@.contains_key(id) ==> {
                let e = self.entities@[id];
                &&& e.uuid == id
                &&& !e.removed
                &&& self.content.entity_registry.contains(e.type_id)
                &&& e.animation.begin_time <= self.ticks_passed
                &&& self.chunks().contains_key(e.place())
                &&& self.chunks()[e.place()].entities@.contains(id)
            }
    }

    /// Whatever stands on a chunk is an entity whose position lies on that
    /// chunk.
    pub open spec fn residents_wf(&self) -> bool {
        forall|r: ChunkRef, id: u128|
            self.chunks().contains_key(r) && #[trigger] self.chunks()[r].entities@.contains(id)
                ==> self.entities@.contains_key(id) && self.entities@[id].place() == r
    }

    /// Every session is registered under its own identifier, and the window
    /// of a session whose camera does not follow an entity lies around the
    /// point that the camera looks at.
    pub open spec fn clients_wf(&self) -> bool {
        forall|c: u128| #[trigger]
            self.clients@.contains_key(c) ==> self.clients@[c].id == c
                && self.clients@[c].window_settled()
    }

    /// A session watches every chunk of its window.
    pub open spec fn windows_wf(&self) -> bool {
        forall|c: u128, r: ChunkRef|
            self.clients@.contains_key(c) && #[trigger] in_view(self.clients@[c].loaded, r)
                ==> self.chunks().contains_key(r) && self.chunks()[r].viewers@.contains(c)
    }

    /// Whoever watches a chunk is a session whose window holds that chunk.
    pub open spec fn viewers_wf(&self) -> bool {
        forall|r: ChunkRef, c: u128|
            self.chunks().contains_key(r) && #[trigger] self.chunks()[r].viewers@.contains(c)
                ==> self.clients@.contains_key(c) && in_view(self.clients@[c].loaded, r)
    }

    /// The state is consistent.
    pub open spec fn wf(&self) -> bool {
        &&& self.content.wf()
        &&& self.task_queue.wf()
        &&& self.chunks_wf()
        &&& self.entities_wf()
        &&& self.residents_wf()
        &&& self.clients_wf()
        &&& self.windows_wf()
        &&& self.viewers_wf()
    }

    /// The server at tick 0, with the content of `content` and nothing else.
    pub fn new(content: InitEnvironment) -> (server: Server)
        requires
            content.wf(),
        ensures
            server.wf(),
            server.content == content,
            server.chunks() == Map::<ChunkRef, Chunk>::empty(),
            server.entities@ == Map::<u128, Entity>::empty(),
            server.clients@ == Map::<u128, Client>::empty(),
            server.ticks_passed == 0,
            server.task_queue@ == Seq::<Task>::empty(),
            server.log() == Seq::<OutboundView>::empty(),
    {
        let server = Server {
            worlds: HashMap::new(),
            content,
            entities: HashMap::new(),
            clients: HashMap::new(),
            ticks_passed: 0,
            task_queue: TaskQueue::new(),
            outbound: Vec::new(),
        };
        assert(server.chunks() =~= Map::<ChunkRef, Chunk>::empty());
        assert(server.log() =~= Seq::<OutboundView>::empty());
        server
    }

    /// Whether the chunk at `r` was reached before.
    pub fn has_chunk(&self, r: ChunkRef) -> (b: bool)
        ensures
            b == self.chunks().contains_key(r),
    {
        match self.worlds.get(&r.world) {
            Some(world) => world.chunks.contains_key(&key_of(r.position)),
            None => false,
        }
    }

    /// Takes the chunk at `r` out of its world.
    pub(crate) fn take_chunk(&mut self, r: ChunkRef) -> (chunk: Chunk)
        requires
            old(self).chunks().contains_key(r),
        ensures
            chunk == old(self).chunks()[r],
            final(self).chunks() == old(self).chunks().remove(r),
            final(self).content == old(self).content,
            final(self).entities == old(self).entities,
            final(self).clients == old(self).clients,
            final(self).ticks_passed == old(self).ticks_passed,
            final(self).task_queue == old(self).task_queue,
            final(self).outbound == old(self).outbound,
    {
        let mut world = self.worlds.remove(&r.world).unwrap();
        let key = key_of(r.position);
        let chunk = world.chunks.remove(&key).unwrap();
        self.worlds.insert(r.world, world);
        proof {
            assert forall|q: ChunkRef| self.chunks().contains_key(q) <==> old(
                self,
            ).chunks().remove(r).contains_key(q) by {
                crate::world::lemma_chunk_key_injective(q.position, r.position);
            }
            assert forall|q: ChunkRef| self.chunks().contains_key(q) implies self.chunks()[q]
                == old(self).chunks().remove(r)[q] by {
                crate::world::lemma_chunk_key_injective(q.position, r.position);
            }
            assert(self.chunks() =~= old(self).chunks().remove(r));
        }
        chunk
    }

    /// Puts `chunk` at `r`.
    pub(crate) fn put_chunk(&mut self, r: ChunkRef, chunk: Chunk)
        ensures
            final(self).chunks() == old(self).chunks().insert(r, chunk),
            final(self).content == old(self).content,
            final(self).entities == old(self).entities,
            final(self).clients == old(self).clients,
            final(self).ticks_passed == old(self).ticks_passed,
            final(self).task_queue == old(self).task_queue,
            final(self).outbound == old(self).outbound,
    {
        let mut world = match self.worlds.remove(&r.world) {
            Some(world) => world,
            None => World::new(),
        };
        let key = key_of(r.position);
        world.chunks.insert(key, chunk);
        self.worlds.insert(r.world, world);
        proof {
            assert forall|q: ChunkRef| self.chunks().contains_key(q) <==> old(
                self,
            ).chunks().insert(r, chunk).contains_key(q) by {
                crate::world::lemma_chunk_key_injective(q.position, r.position);
            }
            assert forall|q: ChunkRef| self.chunks().contains_key(q) implies self.chunks()[q]
                == old(self).chunks().insert(r, chunk)[q] by {
                crate::world::lemma_chunk_key_injective(q.position, r.position);
            }
            assert(self.chunks() =~= old(self).chunks().insert(r, chunk));
        }
    }

    /// Puts `message` behind the messages on their way out.
    pub(crate) fn send(&mut self, to: u128, message: MessageS2C)
        ensures
            final(self).log() == old(self).log().push(OutboundView { to, message: message@ }),
            final(self).worlds == old(self).worlds,
            final(self).content == old(self).content,
            final(self).entities == old(self).entities,
            final(self).clients == old(self).clients,
            final(self).ticks_passed == old(self).ticks_passed,
            final(self).task_queue == old(self).task_queue,
    {
        self.outbound.push(Outbound { to, message });
        assert(self.log() =~= old(self).log().push(OutboundView { to, message: message@ }));
    }

    /// Sends `notice` to each of `recipients`, in their order.
    pub(crate) fn broadcast(&mut self, recipients: &Vec<u128>, notice: Notice)
        ensures
            final(self).log() == old(self).log() + to_each(recipients@, notice@),
            final(self).worlds == old(self).worlds,
            final(self).content == old(self).content,
            final(self).entities == old(self).entities,
            final(self).clients == old(self).clients,
            final(self).ticks_passed == old(self).ticks_passed,
            final(self).task_queue == old(self).task_queue,
    {
        let mut i: usize = 0;
        assert(self.log() =~= old(self).log() + to_each(recipients@.take(0), notice@));
        while i < recipients.len()
            invariant
                i <= recipients.len(),
                self.log() == old(self).log() + to_each(recipients@.take(i as int), notice@),
                self.worlds == old(self).worlds,
                self.content == old(self).content,
                self.entities == old(self).entities,
                self.clients == old(self).clients,
                self.ticks_passed == old(self).ticks_passed,
                self.task_queue == old(self).task_queue,
            decreases recipients.len() - i,
        {
            self.send(recipients[i], notice.message());
            assert(self.log() =~= old(self).log() + to_each(
                recipients@.take(i as int + 1),
                notice@,
            ));
            i += 1;
        }
        assert(recipients@.take(recipients@.len() as int) =~= recipients@);
    }

    /// Reaches the chunk at `r`: a chunk that is reached for the first time
    /// starts out blank and is announced by a task for the current tick.
    pub(crate) fn reach(&mut self, r: ChunkRef)
        requires
            old(self).task_queue.wf(),
        ensures
            final(self).task_queue.wf(),
            final(self).chunks().contains_key(r),
            final(self).chunks().remove(r) == old(self).chunks().remove(r),
            old(self).chunks().contains_key(r) ==> final(self).chunks() == old(self).chunks(),
            !old(self).chunks().contains_key(r) ==> final(self).chunks()[r].wf()
                && final(self).chunks()[r].tile_layers@.len() == 0,
            final(self).layers(r) == old(self).layers(r),
            final(self).viewers(r) == old(self).viewers(r),
            final(self).residents(r) == old(self).residents(r),
            final(self).task_queue@ == old(self).reached(r),
            final(self).content == old(self).content,
            final(self).entities == old(self).entities,
            final(self).clients == old(self).clients,
            final(self).ticks_passed == old(self).ticks_passed,
            final(self).outbound == old(self).outbound,
    {
        if !self.has_chunk(r) {
            let chunk = Chunk::new();
            self.put_chunk(r, chunk);
            self.task_queue.push(
                Task { run_on: self.ticks_passed, task: TaskAction::LoadChunk(r.world, r.position) },
            );
            proof {
                assert(self.chunks().remove(r) =~= old(self).chunks().remove(r));
                assert(self.chunks()[r].layer_views() =~= Seq::empty());
                assert(self.chunks()[r].viewers@ =~= Seq::empty());
                assert(self.chunks()[r].entities@ =~= Seq::empty());
            }
        } else {
            proof {
                assert(self.chunks().remove(r) =~= old(self).chunks().remove(r));
            }
        }
    }

    /// Makes sure that the chunk at `position` of `world` exists. A chunk
    /// that is reached for the first time starts out blank and is announced
    /// by a task for the current tick.
    pub fn get_chunk(&mut self, position: ChunkPosition, world: WorldId)
        requires
            old(self).wf(),
        ensures
            final(self).wf(),
            ({
                let r = ChunkRef { world, position };
                &&& final(self).chunks().contains_key(r)
                &&& final(self).chunks().remove(r) == old(self).chunks().remove(r)
                &&& old(self).chunks().contains_key(r) ==> final(self).chunks() == old(
                    self,
                ).chunks()
                &&& final(self).layers(r) == old(self).layers(r)
                &&& final(self).viewers(r) == old(self).viewers(r)
                &&& final(self).residents(r) == old(self).residents(r)
                &&& final(self).task_queue@ == old(self).reached(r)
            }),
            final(self).content == old(self).content,
            final(self).entities == old(self).entities,
            final(self).clients == old(self).clients,
            final(self).ticks_passed == old(self).ticks_passed,
            final(self).outbound == old(self).outbound,
    {
        let r = ChunkRef { world, position };
        self.reach(r);
        proof {
            if old(self).chunks().contains_key(r) {
                lemma_wf_carries_over(old(self), self);
            } else {
                lemma_wf_layers_update(old(self), self, r);
            }
        }
    }

    /// Enters `task` into the queue, for the tick that comes `after` ticks
    /// after the current one.
    pub fn schedule_task(&mut self, task: TaskAction, after: u32)
        requires
            old(self).wf(),
            old(self).ticks_passed + after <= u32::MAX,
        ensures
            final(self).wf(),
            final(self).task_queue@ == old(self).task_queue@.insert(
                slot(old(self).task_queue@, (old(self).ticks_passed + after) as u32),
                Task { run_on: (old(self).ticks_passed + after) as u32, task },
            ),
            final(self).task_queue@.to_multiset() == old(self).task_queue@.to_multiset().insert(
                Task { run_on: (old(self).ticks_passed + after) as u32, task },
            ),
            final(self).worlds == old(self).worlds,
            final(self).content == old(self).content,
            final(self).entities == old(self).entities,
            final(self).clients == old(self).clients,
            final(self).ticks_passed == old(self).ticks_passed,
            final(self).outbound == old(self).outbound,
    {
        self.task_queue.push(Task { run_on: self.ticks_passed + after, task });
        proof {
            lemma_wf_carries_over(old(self), self);
        }
    }

    /// Takes the next task whose tick has come out of the queue. `None`
    /// means that no waiting task is due.
    pub fn get_next_scheduled_task(&mut self) -> (r: Option<Task>)
        requires
            old(self).wf(),
        ensures
            final(self).wf(),
            match r {
                Some(task) => {
                    &&& old(self).task_queue@.len() > 0
                    &&& task == old(self).task_queue@[0]
                    &&& task.run_on <= old(self).ticks_passed
                    &&& final(self).task_queue@ == old(self).task_queue@.drop_first()
                },
                None => {
                    &&& final(self).task_queue@ == old(self).task_queue@
                    &&& forall|i: int|
                        0 <= i < old(self).task_queue@.len() ==> old(self).task_queue@[i].run_on
                            > old(self).ticks_passed
                },
            },
            final(self).worlds == old(self).worlds,
            final(self).content == old(self).content,
            final(self).entities == old(self).entities,
            final(self).clients == old(self).clients,
            final(self).ticks_passed == old(self).ticks_passed,
            final(self).outbound == old(self).outbound,
    {
        let task = self.task_queue.pop_due(self.ticks_passed);
        proof {
            lemma_wf_carries_over(old(self), self);
        }
        task
    }

    /// Moves the clock on by one tick.
    pub fn advance_tick(&mut self)
        requires
            old(self).wf(),
            old(self).ticks_passed < u32::MAX,
        ensures
            final(self).wf(),
            final(self).ticks_passed == old(self).ticks_passed + 1,
            final(self).worlds == old(self).worlds,
            final(self).content == old(self).content,
            final(self).entities == old(self).entities,
            final(self).clients == old(self).clients,
            final(self).task_queue == old(self).task_queue,
            final(self).outbound == old(self).outbound,
    {
        self.ticks_passed = self.ticks_passed + 1;
        proof {
            lemma_wf_carries_over(old(self), self);
        }
    }

    /// One step of the tick loop. A loop that is ready is handed the next
    /// task whose tick has come; when no such task is left, the clock moves on
    /// by one tick and the loop is told how long to sleep, so that whatever
    /// runs in the course of a tick sees the same tick. A loop that reports
    /// that a task was run has the task entered again, if the task asked for
    /// it, for the tick that many ticks from now. Nothing but the clock and
    /// the waiting tasks changes.
    pub fn tick(&mut self, event: TickEvent) -> (action: TickAction)
        requires
            old(self).wf(),
            old(self).ticks_passed < u32::MAX,
            event is Ran && event->again is Some ==> old(self).ticks_passed + event->again->0
                <= u32::MAX,
        ensures
            final(self).wf(),
            action == action_of(old(self).task_queue@, old(self).ticks_passed, event),
            final(self).task_queue@ == queue_after(
                old(self).task_queue@,
                old(self).ticks_passed,
                event,
            ),
            final(self).ticks_passed == clock_after(
                old(self).task_queue@,
                old(self).ticks_passed,
                event,
            ),
            final(self).worlds == old(self).worlds,
            final(self).content == old(self).content,
            final(self).entities == old(self).entities,
            final(self).clients == old(self).clients,
            final(self).outbound == old(self).outbound,
    {
        match event {
            TickEvent::Ready { elapsed } => match self.get_next_scheduled_task() {
                Some(task) => TickAction::Run(task),
                None => {
                    let millis = crate::pacing::sleep_time(self.ticks_passed, elapsed);
                    self.advance_tick();
                    TickAction::Sleep(millis)
                },
            },
            TickEvent::Ran { task, again } => {
                match again {
                    Some(delay) => {
                        self.schedule_task(task, delay);
                    },
                    None => {},
                }
                TickAction::Continue
            },
        }
    }

    /// Makes the entity `uuid` of the type `type_id` at `position`, in its
    /// default animation, and shows it to every session that watches its
    /// chunk.
    pub fn spawn_with_id(&mut self, uuid: u128, type_id: EntityTypeId, position: Position) -> (r:
        Result<(), WorldError>)
        requires
            old(self).wf(),
        ensures
            final(self).wf(),
            match r {
                Ok(()) => old(self).spawned(final(self), uuid, type_id, position),
                Err(e) => {
                    &&& *final(self) == *old(self)
                    &&& e == WorldError::UnknownEntityType || e == WorldError::IdInUse
                    &&& e == WorldError::UnknownEntityType
                        <==> !old(self).content.entity_registry.contains(type_id)
                    &&& e == WorldError::IdInUse <==> old(self).content.entity_registry.contains(
                        type_id,
                    ) && old(self).entities@.contains_key(uuid)
                },
            },
    {
        let data_metatable = match self.content.entity_registry.get(type_id) {
            Some(entity_type) => entity_type.data_metatable,
            None => {
                return Err(WorldError::UnknownEntityType);
            },
        };
        if self.entities.contains_key(&uuid) {
            return Err(WorldError::IdInUse);
        }
        let entity = Entity {
            type_id,
            uuid,
            position,
            removed: false,
            animation: EntityAnimation { begin_time: self.ticks_passed, animation: DEFAULT_NAME },
            data_metatable,
        };
        let at = entity.chunk_ref();
        self.get_chunk(at.position, at.world);
        let ghost reached = *self;
        let mut chunk = self.take_chunk(at);
        chunk.entities.push(uuid);
        self.broadcast(&chunk.viewers, Notice::AddEntity(entity.create_add_message(self.ticks_passed)));
        self.put_chunk(at, chunk);
        self.entities.insert(uuid, entity);
        proof {
            assert(self.chunks().remove(at) =~= old(self).chunks().remove(at));
            assert(!reached.chunks()[at].entities@.contains(uuid));
            assert(self.chunks_wf()) by {
                assert forall|q: ChunkRef| #[trigger]
                    self.chunks().contains_key(q) implies self.chunks()[q].wf()
                        && self.chunks()[q].tiles_known(&self.content) by {
                    assert(reached.chunks().contains_key(q));
                    crate::world::lemma_tiles_known_kept(
                        reached.chunks()[q],
                        self.chunks()[q],
                        &self.content,
                    );
                }
            }
            assert(self.entities_wf()) by {
                assert forall|id: u128| #[trigger] self.entities@.contains_key(id) implies ({
                    let e = self.entities@[id];
                    &&& e.uuid == id
                    &&& !e.removed
                    &&& self.content.entity_registry.contains(e.type_id)
                    &&& e.animation.begin_time <= self.ticks_passed
                    &&& self.chunks().contains_key(e.place())
                    &&& self.chunks()[e.place()].entities@.contains(id)
                }) by {
                    if id != uuid {
                        assert(reached.entities@.contains_key(id));
                        let q = reached.entities@[id].place();
                        if q == at {
                            let k = choose|k: int|
                                0 <= k < reached.chunks()[at].entities@.len()
                                    && reached.chunks()[at].entities@[k] == id;
                            assert(self.chunks()[at].entities@[k] == id);
                        }
                    } else {
                        assert(self.chunks()[at].entities@[reached.chunks()[at].entities@.len() as int]
                            == uuid);
                    }
                }
            }
            assert(self.residents_wf()) by {
                assert forall|q: ChunkRef, id: u128|
                    self.chunks().contains_key(q) && #[trigger] self.chunks()[q].entities@.contains(
                        id,
                    ) implies self.entities@.contains_key(id) && self.entities@[id].place()
                    == q by {
                    if q == at && id != uuid {
                        let k = choose|k: int|
                            0 <= k < self.chunks()[at].entities@.len()
                                && self.chunks()[at].entities@[k] == id;
                        assert(reached.chunks()[at].entities@[k] == id);
                        assert(reached.chunks()[at].entities@.contains(id));
                    } else if q != at {
                        assert(reached.chunks()[q].entities@.contains(id));
                    }
                }
            }
            assert(self.windows_wf()) by {
                assert forall|c: u128, q: ChunkRef|
                    self.clients@.contains_key(c) && #[trigger] in_view(
                        self.clients@[c].loaded,
                        q,
                    ) implies self.chunks().contains_key(q) && self.chunks()[q].viewers@.contains(
                    c,
                ) by {
                    assert(in_view(reached.clients@[c].loaded, q));
                }
            }
            assert(self.viewers_wf()) by {
                assert forall|q: ChunkRef, c: u128|
                    self.chunks().contains_key(q) && #[trigger] self.chunks()[q].viewers@.contains(
                        c,
                    ) implies self.clients@.contains_key(c) && in_view(
                    self.clients@[c].loaded,
                    q,
                ) by {
                    assert(reached.chunks()[q].viewers@.contains(c));
                }
            }
        }
        Ok(())
    }

    /// Takes the entity `uuid` out of the world and tells every session
    /// that watches its chunk. The entity is handed back, marked as removed.
    pub fn remove_entity(&mut self, uuid: u128) -> (r: Result<Entity, WorldError>)
        requires
            old(self).wf(),
        ensures
            final(self).wf(),
            match r {
                Ok(removed) => {
                    &&& old(self).despawned(final(self), uuid)
                    &&& removed == (Entity { removed: true, ..old(self).entities@[uuid] })
                },
                Err(e) => {
                    &&& *final(self) == *old(self)
                    &&& e == WorldError::UnknownEntity
                    &&& !old(self).entities@.contains_key(uuid)
                },
            },
    {
        let entity = match self.entities.get(&uuid) {
            Some(entity) => *entity,
            None => {
                return Err(WorldError::UnknownEntity);
            },
        };
        let at = entity.chunk_ref();
        let mut chunk = self.take_chunk(at);
        list_remove(&mut chunk.entities, uuid);
        self.broadcast(&chunk.viewers, Notice::RemoveEntity(uuid));
        self.put_chunk(at, chunk);
        self.entities.remove(&uuid);
        proof {
            assert(self.chunks().remove(at) =~= old(self).chunks().remove(at));
            assert(self.chunks_wf()) by {
                assert forall|q: ChunkRef| #[trigger]
                    self.chunks().contains_key(q) implies self.chunks()[q].wf()
                        && self.chunks()[q].tiles_known(&self.content) by {
                    assert(old(self).chunks().contains_key(q));
                    crate::world::lemma_tiles_known_kept(
                        old(self).chunks()[q],
                        self.chunks()[q],
                        &self.content,
                    );
                }
            }
            assert(self.entities_wf()) by {
                assert forall|id: u128| #[trigger] self.entities@.contains_key(id) implies ({
                    let e = self.entities@[id];
                    &&& e.uuid == id
                    &&& !e.removed
                    &&& self.content.entity_registry.contains(e.type_id)
                    &&& e.animation.begin_time <= self.ticks_passed
                    &&& self.chunks().contains_key(e.place())
                    &&& self.chunks()[e.place()].entities@.contains(id)
                }) by {
                    assert(old(self).entities@.contains_key(id));
                    assert(old(self).chunks()[old(self).entities@[id].place()].entities@.contains(
                        id,
                    ));
                }
            }
            assert(self.residents_wf()) by {
                assert forall|q: ChunkRef, id: u128|
                    self.chunks().contains_key(q) && #[trigger] self.chunks()[q].entities@.contains(
                        id,
                    ) implies self.entities@.contains_key(id) && self.entities@[id].place()
                    == q by {
                    assert(old(self).chunks()[q].entities@.contains(id));
                    if id == uuid {
                        assert(q == at);
                    }
                }
            }
            assert(self.windows_wf()) by {
                assert forall|c: u128, q: ChunkRef|
                    self.clients@.contains_key(c) && #[trigger] in_view(
                        self.clients@[c].loaded,
                        q,
                    ) implies self.chunks().contains_key(q) && self.chunks()[q].viewers@.contains(
                    c,
                ) by {
                    assert(in_view(old(self).clients@[c].loaded, q));
                }
            }
            assert(self.viewers_wf()) by {
                assert forall|q: ChunkRef, c: u128|
                    self.chunks().contains_key(q) && #[trigger] self.chunks()[q].viewers@.contains(
                        c,
                    ) implies self.clients@.contains_key(c) && in_view(
                    self.clients@[c].loaded,
                    q,
                ) by {
                    assert(old(self).chunks()[q].viewers@.contains(c));
                }
            }
        }
        Ok(Entity { removed: true, ..entity })
    }

    /// Sends `notice` to the entries of `list` that are in `other` too, if
    /// `shared`, and to those that are not in `other`, if not.
    pub(crate) fn broadcast_part(&mut self, list: &Vec<u128>, other: &Vec<u128>, shared: bool, notice: Notice)
        ensures
            final(self).log() == old(self).log() + to_each(
                if shared {
                    in_both(list@, other@)
                } else {
                    only_in(list@, other@)
                },
                notice@,
            ),
            final(self).worlds == old(self).worlds,
            final(self).content == old(self).content,
            final(self).entities == old(self).entities,
            final(self).clients == old(self).clients,
            final(self).ticks_passed == old(self).ticks_passed,
            final(self).task_queue == old(self).task_queue,
    {
        let mut i: usize = 0;
        proof {
            assert(list@.take(0) =~= Seq::<u128>::empty());
            assert(in_both(list@.take(0), other@) =~= Seq::<u128>::empty());
            assert(only_in(list@.take(0), other@) =~= Seq::<u128>::empty());
            assert(self.log() =~= old(self).log() + to_each(Seq::<u128>::empty(), notice@));
        }
        while i < list.len()
            invariant
                i <= list.len(),
                self.log() == old(self).log() + to_each(
                    if shared {
                        in_both(list@.take(i as int), other@)
                    } else {
                        only_in(list@.take(i as int), other@)
                    },
                    notice@,
                ),
                self.worlds == old(self).worlds,
                self.content == old(self).content,
                self.entities == old(self).entities,
                self.clients == old(self).clients,
                self.ticks_passed == old(self).ticks_passed,
                self.task_queue == old(self).task_queue,
            decreases list.len() - i,
        {
            let ghost before = self.log();
            proof {
                lemma_parts_step(list@, other@, i as int);
            }
            if list_contains(other, list[i]) == shared {
                self.send(list[i], notice.message());
                proof {
                    let part = if shared {
                        in_both(list@.take(i as int), other@)
                    } else {
                        only_in(list@.take(i as int), other@)
                    };
                    assert(to_each(part.push(list@[i as int]), notice@) =~= to_each(part, notice@).push(
                        OutboundView { to: list@[i as int], message: notice@ },
                    ));
                    assert(self.log() =~= old(self).log() + to_each(
                        part.push(list@[i as int]),
                        notice@,
                    ));
                }
            }
            i += 1;
        }
        assert(list@.take(list@.len() as int) =~= list@);
    }

    /// The entity `uuid`, if it exists.
    pub fn entity(&self, uuid: u128) -> (r: Option<Entity>)
        ensures
            r == (if self.entities@.contains_key(uuid) {
                Some(self.entities@[uuid])
            } else {
                None
            }),
    {
        match self.entities.get(&uuid) {
            Some(entity) => Some(*entity),
            None => None,
        }
    }

    /// Moves the entity `uuid` to `position`. Inside a chunk, the sessions
    /// that watch the chunk learn the new position. Across chunks, the
    /// entity changes its chunk; the sessions that watch only the new chunk
    /// are shown the entity as it was before the move, those that watch both
    /// learn the new position, and those that watch only the old chunk are
    /// told that the entity is gone.
    pub fn move_entity(&mut self, uuid: u128, position: Position) -> (r: Result<(), WorldError>)
        requires
            old(self).wf(),
        ensures
            final(self).wf(),
            match r {
                Ok(()) => old(self).moved(final(self), uuid, position),
                Err(e) => {
                    &&& *final(self) == *old(self)
                    &&& e == WorldError::UnknownEntity
                    &&& !old(self).entities@.contains_key(uuid)
                },
            },
    {
        let before = match self.entities.get(&uuid) {
            Some(entity) => *entity,
            None => {
                return Err(WorldError::UnknownEntity);
            },
        };
        let from = before.chunk_ref();
        let moved = Entity { position, ..before };
        let to = moved.chunk_ref();
        let coordinates = position.coordinates();
        if from == to {
            let chunk = self.take_chunk(from);
            self.broadcast(&chunk.viewers, Notice::UpdateEntityPosition(uuid, coordinates));
            self.put_chunk(from, chunk);
            self.entities.insert(uuid, moved);
            proof {
                assert(self.chunks() =~= old(self).chunks());
                lemma_wf_entity_update(old(self), self, uuid);
            }
        } else {
            self.get_chunk(to.position, to.world);
            let ghost reached = *self;
            let mut old_chunk = self.take_chunk(from);
            list_remove(&mut old_chunk.entities, uuid);
            let mut new_chunk = self.take_chunk(to);
            new_chunk.entities.push(uuid);
            self.broadcast_part(
                &new_chunk.viewers,
                &old_chunk.viewers,
                false,
                Notice::AddEntity(before.create_add_message(self.ticks_passed)),
            );
            self.broadcast_part(
                &new_chunk.viewers,
                &old_chunk.viewers,
                true,
                Notice::UpdateEntityPosition(uuid, coordinates),
            );
            self.broadcast_part(
                &old_chunk.viewers,
                &new_chunk.viewers,
                false,
                Notice::RemoveEntity(uuid),
            );
            self.put_chunk(from, old_chunk);
            self.put_chunk(to, new_chunk);
            self.entities.insert(uuid, moved);
            proof {
                lemma_same_elsewhere(old(self).chunks(), reached.chunks(), to);
                assert(reached.chunks().remove(from).remove(to) =~= reached.chunks().remove(
                    to,
                ).remove(from));
                assert(old(self).chunks().remove(from).remove(to) =~= old(self).chunks().remove(
                    to,
                ).remove(from));
                assert(self.chunks().remove(from).remove(to) =~= reached.chunks().remove(
                    from,
                ).remove(to));
                assert(reached.chunks().contains_key(from));
                assert(reached.chunks()[from] == old(self).chunks()[from]);
                assert(!reached.chunks()[to].entities@.contains(uuid));
                assert(self.chunks_wf()) by {
                    assert forall|q: ChunkRef| #[trigger]
                        self.chunks().contains_key(q) implies self.chunks()[q].wf()
                        && self.chunks()[q].tiles_known(&self.content) by {
                        assert(reached.chunks().contains_key(q));
                        crate::world::lemma_tiles_known_kept(
                            reached.chunks()[q],
                            self.chunks()[q],
                            &self.content,
                        );
                    }
                }
                assert(self.entities_wf()) by {
                    assert forall|id: u128| #[trigger] self.entities@.contains_key(id) implies ({
                        let e = self.entities@[id];
                        &&& e.uuid == id
                        &&& !e.removed
                        &&& self.content.entity_registry.contains(e.type_id)
                        &&& e.animation.begin_time <= self.ticks_passed
                        &&& self.chunks().contains_key(e.place())
                        &&& self.chunks()[e.place()].entities@.contains(id)
                    }) by {
                        assert(reached.entities@.contains_key(id));
                        if id != uuid {
                            let q = reached.entities@[id].place();
                            assert(reached.chunks()[q].entities@.contains(id));
                            if q == to {
                                let k = choose|k: int|
                                    0 <= k < reached.chunks()[to].entities@.len()
                                        && reached.chunks()[to].entities@[k] == id;
                                assert(self.chunks()[to].entities@[k] == id);
                            }
                        } else {
                            assert(self.chunks()[to].entities@[reached.chunks()[to].entities@.len() as int]
                                == uuid);
                        }
                    }
                }
                assert(self.residents_wf()) by {
                    assert forall|q: ChunkRef, id: u128|
                        self.chunks().contains_key(q) && #[trigger] self.chunks()[q].entities@.contains(
                            id,
                        ) implies self.entities@.contains_key(id) && self.entities@[id].place()
                        == q by {
                        if q == to && id != uuid {
                            let k = choose|k: int|
                                0 <= k < self.chunks()[to].entities@.len()
                                    && self.chunks()[to].entities@[k] == id;
                            assert(reached.chunks()[to].entities@[k] == id);
                            assert(reached.chunks()[to].entities@.contains(id));
                        } else if q == from {
                            assert(reached.chunks()[from].entities@.contains(id));
                        } else if q != to {
                            assert(reached.chunks()[q].entities@.contains(id));
                        }
                    }
                }
                assert(self.windows_wf()) by {
                    assert forall|c: u128, q: ChunkRef|
                        self.clients@.contains_key(c) && #[trigger] in_view(
                            self.clients@[c].loaded,
                            q,
                        ) implies self.chunks().contains_key(q)
                        && self.chunks()[q].viewers@.contains(c) by {
                        assert(in_view(reached.clients@[c].loaded, q));
                    }
                }
                assert(self.viewers_wf()) by {
                    assert forall|q: ChunkRef, c: u128|
                        self.chunks().contains_key(q) && #[trigger] self.chunks()[q].viewers@.contains(
                            c,
                        ) implies self.clients@.contains_key(c) && in_view(
                        self.clients@[c].loaded,
                        q,
                    ) by {
                        assert(reached.chunks()[q].viewers@.contains(c));
                    }
                }
            }
        }
        Ok(())
    }

    /// Starts the animation `animation` of the entity `uuid` at the current
    /// tick, and tells every session that watches the entity's chunk.
    pub fn set_animation(&mut self, uuid: u128, animation: AnimationId) -> (r: Result<
        (),
        WorldError,
    >)
        requires
            old(self).wf(),
        ensures
            final(self).wf(),
            match r {
                Ok(()) => {
                    &&& old(self).entities@.contains_key(uuid)
                    &&& old(self).content.entity_registry.spec_get(
                        old(self).entities@[uuid].type_id,
                    ).spec_has_animation(animation)
                    &&& old(self).reanimated(
                        final(self),
                        uuid,
                        EntityAnimation { begin_time: old(self).ticks_passed, animation },
                    )
                },
                Err(e) => {
                    &&& *final(self) == *old(self)
                    &&& e == WorldError::UnknownEntity || e == WorldError::UnknownAnimation
                    &&& e == WorldError::UnknownEntity <==> !old(self).entities@.contains_key(uuid)
                    &&& e == WorldError::UnknownAnimation <==> old(self).entities@.contains_key(uuid)
                        && !old(self).content.entity_registry.spec_get(
                        old(self).entities@[uuid].type_id,
                    ).spec_has_animation(animation)
                },
            },
    {
        let before = match self.entities.get(&uuid) {
            Some(entity) => *entity,
            None => {
                return Err(WorldError::UnknownEntity);
            },
        };
        let known = match self.content.entity_registry.get(before.type_id) {
            Some(entity_type) => entity_type.has_animation(animation),
            None => false,
        };
        if !known {
            return Err(WorldError::UnknownAnimation);
        }
        let running = EntityAnimation { begin_time: self.ticks_passed, animation };
        self.entities.insert(uuid, Entity { animation: running, ..before });
        self.sync_animations(uuid);
        proof {
            assert(self.chunks() =~= old(self).chunks());
            lemma_wf_entity_update(old(self), self, uuid);
        }
        Ok(())
    }

    /// Makes the animation of the entity `uuid` one that began `elapsed`
    /// ticks ago, and tells every session that watches the entity's chunk.
    pub fn set_animation_time(&mut self, uuid: u128, elapsed: u32) -> (r: Result<(), WorldError>)
        requires
            old(self).wf(),
        ensures
            final(self).wf(),
            match r {
                Ok(()) => {
                    &&& old(self).entities@.contains_key(uuid)
                    &&& elapsed <= old(self).ticks_passed
                    &&& old(self).reanimated(
                        final(self),
                        uuid,
                        EntityAnimation {
                            begin_time: (old(self).ticks_passed - elapsed) as u32,
                            animation: old(self).entities@[uuid].animation.animation,
                        },
                    )
                },
                Err(e) => {
                    &&& *final(self) == *old(self)
                    &&& e == WorldError::UnknownEntity || e == WorldError::TimeBeforeStart
                    &&& e == WorldError::UnknownEntity <==> !old(self).entities@.contains_key(uuid)
                    &&& e == WorldError::TimeBeforeStart <==> old(self).entities@.contains_key(uuid)
                        && elapsed > old(self).ticks_passed
                },
            },
    {
        let before = match self.entities.get(&uuid) {
            Some(entity) => *entity,
            None => {
                return Err(WorldError::UnknownEntity);
            },
        };
        if elapsed > self.ticks_passed {
            return Err(WorldError::TimeBeforeStart);
        }
        let running = EntityAnimation {
            begin_time: self.ticks_passed - elapsed,
            animation: before.animation.animation,
        };
        self.entities.insert(uuid, Entity { animation: running, ..before });
        self.sync_animations(uuid);
        proof {
            assert(self.chunks() =~= old(self).chunks());
            lemma_wf_entity_update(old(self), self, uuid);
        }
        Ok(())
    }

    /// Number of ticks for which the animation of the entity `uuid` has been
    /// running.
    pub fn animation_time(&self, uuid: u128) -> (r: Option<u32>)
        requires
            self.wf(),
        ensures
            r == (if self.entities@.contains_key(uuid) {
                Some((self.ticks_passed - self.entities@[uuid].animation.begin_time) as u32)
            } else {
                None
            }),
    {
        match self.entities.get(&uuid) {
            Some(entity) => Some(entity.animation.running_for(self.ticks_passed)),
            None => None,
        }
    }

    /// Tells every session that watches the chunk of the entity `uuid` which
    /// animation the entity runs and for how long.
    pub(crate) fn sync_animations(&mut self, uuid: u128)
        requires
            old(self).entities@.contains_key(uuid),
            old(self).chunks().contains_key(old(self).entities@[uuid].place()),
        ensures
            final(self).log() == old(self).log() + to_each(
                old(self).viewers(old(self).entities@[uuid].place()),
                MessageView::UpdateEntityAnimation(
                    uuid,
                    RunningAnimation {
                        id: old(self).entities@[uuid].animation.animation,
                        time: old(self).entities@[uuid].animation.spec_running_for(
                            old(self).ticks_passed,
                        ),
                    },
                ),
            ),
            final(self).chunks() == old(self).chunks(),
            final(self).content == old(self).content,
            final(self).entities == old(self).entities,
            final(self).clients == old(self).clients,
            final(self).ticks_passed == old(self).ticks_passed,
            final(self).task_queue == old(self).task_queue,
    {
        let entity = *self.entities.get(&uuid).unwrap();
        let at = entity.chunk_ref();
        let chunk = self.take_chunk(at);
        self.broadcast(
            &chunk.viewers,
            Notice::UpdateEntityAnimation(
                uuid,
                RunningAnimation {
                    id: entity.animation.animation,
                    time: entity.animation.running_for(self.ticks_passed),
                },
            ),
        );
        self.put_chunk(at, chunk);
        assert(self.chunks() =~= old(self).chunks());
    }

    /// Puts the tile `tile` of `tileset` at `position` of `world`, tells
    /// every session that watches the chunk, and hands back the script table
    /// that the tile there had: it is no longer the table of that place.
    pub fn set_tile(
        &mut self,
        position: TilePosition,
        world: WorldId,
        tileset: TilesetId,
        tile: TileId,
    ) -> (r: Result<Option<u64>, WorldError>)
        requires
            old(self).wf(),
        ensures
            final(self).wf(),
            match r {
                Ok(dropped) => {
                    let kinds = old(self).content.spec_tileset(tileset);
                    &&& old(self).content.has_tileset(tileset)
                    &&& kinds.tiles@.contains_key(tile)
                    &&& old(self).tile_written(
                        final(self),
                        position,
                        world,
                        tileset,
                        kinds.tiles@[tile].id,
                    )
                    &&& dropped == data_in(
                        old(self).layers(ChunkRef { world, position: position.spec_chunk() }),
                        tileset,
                        position.spec_offset().spec_index(),
                    )
                },
                Err(e) => {
                    &&& *final(self) == *old(self)
                    &&& e == WorldError::UnknownTileset || e == WorldError::UnknownTile
                    &&& e == WorldError::UnknownTileset <==> !old(self).content.has_tileset(tileset)
                    &&& e == WorldError::UnknownTile <==> old(self).content.has_tileset(tileset)
                        && !old(self).content.spec_tileset(tileset).tiles@.contains_key(tile)
                },
            },
    {
        let number = match self.content.tileset(tileset) {
            Some(kinds) => match kinds.get(tile) {
                Some(kind) => kind.id,
                None => {
                    return Err(WorldError::UnknownTile);
                },
            },
            None => {
                return Err(WorldError::UnknownTileset);
            },
        };
        let (chunk_position, offset) = position.to_chunk_position();
        let at = ChunkRef { world, position: chunk_position };
        self.get_chunk(chunk_position, world);
        let ghost reached = *self;
        let mut chunk = self.take_chunk(at);
        let dropped = chunk.set_tile(tileset, offset, number);
        self.broadcast(&chunk.viewers, Notice::SetTile(position, tileset, number));
        self.put_chunk(at, chunk);
        proof {
            assert(self.chunks().remove(at) =~= old(self).chunks().remove(at));
            assert(reached.chunks()[at].tiles_known(&reached.content));
            crate::world::lemma_tiles_known_grown(
                reached.chunks()[at],
                self.chunks()[at],
                &self.content,
                tileset,
                number,
            );
            lemma_wf_layers_update(&reached, self, at);
        }
        Ok(dropped)
    }

    /// The kind of the tile at `position` of `world` in the layer of
    /// `tileset`. The chunk at that place is reached.
    pub fn get_at(&mut self, position: TilePosition, world: WorldId, tileset: TilesetId) -> (r:
        Result<TileType, WorldError>)
        requires
            old(self).wf(),
        ensures
            final(self).wf(),
            ({
                let at = ChunkRef { world, position: position.spec_chunk() };
                let index = position.spec_offset().spec_index();
                let number = tile_in(old(self).layers(at), tileset, index);
                &&& final(self).chunks().contains_key(at)
                &&& final(self).chunks().remove(at) == old(self).chunks().remove(at)
                &&& old(self).chunks().contains_key(at) ==> final(self).chunks() == old(
                    self,
                ).chunks()
                &&& final(self).layers(at) == old(self).layers(at)
                &&& final(self).viewers(at) == old(self).viewers(at)
                &&& final(self).residents(at) == old(self).residents(at)
                &&& final(self).task_queue@ == old(self).reached(at)
                &&& match r {
                    Ok(kind) => old(self).content.has_tileset(tileset) && old(
                        self,
                    ).content.spec_tileset(tileset).spec_by_id(number) == Some(kind),
                    Err(e) => e == WorldError::UnknownTileset && !old(self).content.has_tileset(
                        tileset,
                    ),
                }
            }),
            final(self).content == old(self).content,
            final(self).entities == old(self).entities,
            final(self).clients == old(self).clients,
            final(self).ticks_passed == old(self).ticks_passed,
            final(self).outbound == old(self).outbound,
    {
        let (chunk_position, offset) = position.to_chunk_position();
        let at = ChunkRef { world, position: chunk_position };
        self.get_chunk(chunk_position, world);
        let chunk = self.take_chunk(at);
        let number = chunk.tile_at(tileset, offset);
        self.put_chunk(at, chunk);
        proof {
            assert(self.chunks() =~= old(self).chunks().insert(at, chunk));
            assert(self.chunks().remove(at) =~= old(self).chunks().remove(at));
            if old(self).chunks().contains_key(at) {
                assert(self.chunks() =~= old(self).chunks());
                assert(old(self).chunks()[at].tiles_known(&old(self).content));
            }
            lemma_wf_layers_update(old(self), self, at);
        }
        match self.content.tileset(tileset) {
            Some(kinds) => {
                proof {
                    crate::invariants::lemma_tiles_are_known(
                        self,
                        at,
                        tileset,
                        offset.spec_index(),
                    );
                }
                match kinds.by_id(number) {
                    Some(kind) => Ok(kind),
                    None => Err(WorldError::UnknownTile),
                }
            },
            None => Err(WorldError::UnknownTileset),
        }
    }

    /// The script table of the tile at `position` of `world` in the layer of
    /// `tileset`. If the tile has none, `fresh` becomes its table. The chunk
    /// at that place is reached.
    pub fn get_data_at(
        &mut self,
        position: TilePosition,
        world: WorldId,
        tileset: TilesetId,
        fresh: u64,
    ) -> (r: Result<u64, WorldError>)
        requires
            old(self).wf(),
        ensures
            final(self).wf(),
            ({
                let at = ChunkRef { world, position: position.spec_chunk() };
                let index = position.spec_offset().spec_index();
                &&& final(self).chunks().contains_key(at)
                &&& final(self).chunks().remove(at) == old(self).chunks().remove(at)
                &&& final(self).viewers(at) == old(self).viewers(at)
                &&& final(self).residents(at) == old(self).residents(at)
                &&& final(self).task_queue@ == old(self).reached(at)
                &&& match r {
                    Ok(table) => {
                        &&& old(self).content.has_tileset(tileset)
                        &&& final(self).layers(at) == with_data(
                            old(self).layers(at),
                            tileset,
                            index,
                            fresh,
                        )
                        &&& table == (match data_in(old(self).layers(at), tileset, index) {
                            Some(t) => t,
                            None => fresh,
                        })
                    },
                    Err(e) => {
                        &&& e == WorldError::UnknownTileset
                        &&& !old(self).content.has_tileset(tileset)
                        &&& final(self).layers(at) == old(self).layers(at)
                    },
                }
            }),
            final(self).content == old(self).content,
            final(self).entities == old(self).entities,
            final(self).clients == old(self).clients,
            final(self).ticks_passed == old(self).ticks_passed,
            final(self).outbound == old(self).outbound,
    {
        let (chunk_position, offset) = position.to_chunk_position();
        let at = ChunkRef { world, position: chunk_position };
        self.get_chunk(chunk_position, world);
        if self.content.tileset(tileset).is_none() {
            return Err(WorldError::UnknownTileset);
        }
        let ghost reached = *self;
        let mut chunk = self.take_chunk(at);
        let table = chunk.data_or_insert(tileset, offset, fresh);
        self.put_chunk(at, chunk);
        proof {
            assert(self.chunks().remove(at) =~= old(self).chunks().remove(at));
            assert(reached.chunks()[at].tiles_known(&reached.content));
            crate::world::lemma_tiles_known_grown(
                reached.chunks()[at],
                self.chunks()[at],
                &self.content,
                tileset,
                0,
            );
            lemma_wf_layers_update(&reached, self, at);
        }
        Ok(table)
    }

    /// The handlers to call for the event `id`, in the order of the calls:
    /// the order of their registration.
    pub fn call_event(&self, id: crate::names::EventId) -> (handlers: Vec<u64>)
        requires
            self.wf(),
        ensures
            handlers@ == self.content.event_handlers.handlers_of(id),
    {
        self.content.event_handlers.handlers_for(id)
    }

    /// The content bundle that is sent to a session that joins.
    pub fn content_message(&self) -> (message: MessageS2C)
        requires
            self.wf(),
        ensures
            message@ == MessageView::LoadContent(self.content.content_view("hydro"@)),
    {
        MessageS2C::LoadContent(self.content.content_message("hydro"))
    }

    /// Takes the messages on their way out, oldest first; none is left.
    pub fn drain_outbound(&mut self) -> (messages: Vec<Outbound>)
        requires
            old(self).wf(),
        ensures
            final(self).wf(),
            outbound_view(messages@) == old(self).log(),
            final(self).log() == Seq::<OutboundView>::empty(),
            final(self).worlds == old(self).worlds,
            final(self).content == old(self).content,
            final(self).entities == old(self).entities,
            final(self).clients == old(self).clients,
            final(self).ticks_passed == old(self).ticks_passed,
            final(self).task_queue == old(self).task_queue,
    {
        let mut messages: Vec<Outbound> = Vec::new();
        std::mem::swap(&mut messages, &mut self.outbound);
        proof {
            assert(self.log() =~= Seq::<OutboundView>::empty());
            lemma_wf_carries_over(old(self), self);
        }
        messages
    }
}

/// A consistent state stays consistent when only the clock moves on and the
/// queue of tasks and the outbound messages change.
pub(crate) proof fn lemma_wf_carries_over(before: &Server, after: &Server)
    requires
        before.wf(),
        after.chunks() == before.chunks(),
        after.content == before.content,
        after.entities@ == before.entities@,
        after.clients@ == before.clients@,
        after.task_queue.wf(),
        after.ticks_passed >= before.ticks_passed,
    ensures
        after.wf(),
{
    assert(before.chunks_wf());
    assert(before.entities_wf());
    assert(before.residents_wf());
    assert(before.clients_wf());
    assert(before.windows_wf());
    assert(before.viewers_wf());
}

/// Two maps that agree once the entry at `at` is taken out of both agree at
/// every other key.
pub(crate) proof fn lemma_same_elsewhere(a: Map<ChunkRef, Chunk>, b: Map<ChunkRef, Chunk>, at: ChunkRef)
    requires
        a.remove(at) == b.remove(at),
    ensures
        forall|q: ChunkRef|
            #![trigger a.contains_key(q)]
            #![trigger b.contains_key(q)]
            q != at ==> (a.contains_key(q) <==> b.contains_key(q)) && (a.contains_key(q) ==> a[q]
                == b[q]),
{
    assert forall|q: ChunkRef|
        #![trigger a.contains_key(q)]
        #![trigger b.contains_key(q)]
        q != at implies (a.contains_key(q) <==> b.contains_key(q)) && (a.contains_key(q) ==> a[q]
        == b[q]) by {
        assert(a.remove(at).contains_key(q) <==> a.contains_key(q));
        assert(b.remove(at).contains_key(q) <==> b.contains_key(q));
        assert(a.remove(at)[q] == a[q]);
        assert(b.remove(at)[q] == b[q]);
    }
}

/// A consistent state stays consistent when one entity changes and stays on
/// its chunk.
pub(crate) proof fn lemma_wf_entity_update(before: &Server, after: &Server, uuid: u128)
    requires
        before.wf(),
        before.entities@.contains_key(uuid),
        after.entities@.contains_key(uuid),
        after.entities@ == before.entities@.insert(uuid, after.entities@[uuid]),
        after.entities@[uuid].uuid == uuid,
        after.entities@[uuid].type_id == before.entities@[uuid].type_id,
        after.entities@[uuid].place() == before.entities@[uuid].place(),
        !after.entities@[uuid].removed,
        after.entities@[uuid].animation.begin_time <= after.ticks_passed,
        after.chunks() == before.chunks(),
        after.content == before.content,
        after.clients@ == before.clients@,
        after.task_queue.wf(),
        after.ticks_passed == before.ticks_passed,
    ensures
        after.wf(),
{
    assert(before.chunks_wf());
    assert(before.clients_wf());
    assert(before.windows_wf());
    assert(before.viewers_wf());
    assert(after.entities_wf()) by {
        assert forall|id: u128| #[trigger] after.entities@.contains_key(id) implies ({
            let e = after.entities@[id];
            &&& e.uuid == id
            &&& !e.removed
            &&& after.content.entity_registry.contains(e.type_id)
            &&& e.animation.begin_time <= after.ticks_passed
            &&& after.chunks().contains_key(e.place())
            &&& after.chunks()[e.place()].entities@.contains(id)
        }) by {
            assert(before.entities@.contains_key(id));
        }
    }
    assert(after.residents_wf()) by {
        assert forall|q: ChunkRef, id: u128|
            after.chunks().contains_key(q) && #[trigger] after.chunks()[q].entities@.contains(
                id,
            ) implies after.entities@.contains_key(id) && after.entities@[id].place() == q by {
            assert(before.chunks()[q].entities@.contains(id));
        }
    }
}

/// A consistent state stays consistent when the chunk at one place comes
/// into being or changes its layers, and tasks are scheduled.
pub(crate) proof fn lemma_wf_layers_update(before: &Server, after: &Server, at: ChunkRef)
    requires
        before.wf(),
        after.chunks().contains_key(at),
        after.chunks()[at].wf(),
        after.chunks()[at].tiles_known(&after.content),
        after.chunks().remove(at) == before.chunks().remove(at),
        after.residents(at) == before.residents(at),
        after.viewers(at) == before.viewers(at),
        after.content == before.content,
        after.entities@ == before.entities@,
        after.clients@ == before.clients@,
        after.task_queue.wf(),
        after.ticks_passed == before.ticks_passed,
    ensures
        after.wf(),
{
    lemma_same_elsewhere(before.chunks(), after.chunks(), at);
    assert(after.chunks_wf()) by {
        assert forall|q: ChunkRef| #[trigger]
            after.chunks().contains_key(q) implies after.chunks()[q].wf()
                && after.chunks()[q].tiles_known(&after.content) by {
            if q != at {
                assert(before.chunks().contains_key(q));
                assert(before.chunks()[q].tiles_known(&before.content));
            }
        }
    }
    assert(after.entities_wf()) by {
        assert forall|id: u128| #[trigger] after.entities@.contains_key(id) implies ({
            let e = after.entities@[id];
            &&& e.uuid == id
            &&& !e.removed
            &&& after.content.entity_registry.contains(e.type_id)
            &&& e.animation.begin_time <= after.ticks_passed
            &&& after.chunks().contains_key(e.place())
            &&& after.chunks()[e.place()].entities@.contains(id)
        }) by {
            assert(before.entities@.contains_key(id));
            let q = before.entities@[id].place();
            assert(before.chunks()[q].entities@.contains(id));
        }
    }
    assert(after.residents_wf()) by {
        assert forall|q: ChunkRef, id: u128|
            after.chunks().contains_key(q) && #[trigger] after.chunks()[q].entities@.contains(
                id,
            ) implies after.entities@.contains_key(id) && after.entities@[id].place() == q by {
            if q == at {
                assert(before.residents(at).contains(id));
                assert(before.chunks().contains_key(at));
                assert(before.chunks()[at].entities@.contains(id));
            } else {
                assert(before.chunks()[q].entities@.contains(id));
            }
        }
    }
    assert(after.clients_wf()) by {
        assert(before.clients_wf());
    }
    assert(after.windows_wf()) by {
        assert forall|c: u128, q: ChunkRef|
            after.clients@.contains_key(c) && #[trigger] in_view(
                after.clients@[c].loaded,
                q,
            ) implies after.chunks().contains_key(q) && after.chunks()[q].viewers@.contains(c) by {
            assert(in_view(before.clients@[c].loaded, q));
            assert(before.chunks()[q].viewers@.contains(c));
        }
    }
    assert(after.viewers_wf()) by {
        assert forall|q: ChunkRef, c: u128|
            after.chunks().contains_key(q) && #[trigger] after.chunks()[q].viewers@.contains(
                c,
            ) implies after.clients@.contains_key(c) && in_view(after.clients@[c].loaded, q) by {
            if q == at {
                assert(before.viewers(at).contains(c));
                assert(before.chunks().contains_key(at));
                assert(before.chunks()[at].viewers@.contains(c));
            } else {
                assert(before.chunks()[q].viewers@.contains(c));
            }
        }
    }
}

} // verus!
