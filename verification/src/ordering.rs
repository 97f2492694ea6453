//! The order of what a session is told of an entity: it is shown the entity,
//! then told of its changes, then told that it is gone, and so on again.

use vstd::prelude::*;
use crate::entity::EntityAnimation;
use crate::interest::{in_view, lemma_window_at, lemma_window_covers, window_at, window_index};
use crate::invariants::{lemma_residency, lemma_residents_exist, lemma_viewers_exact};
use crate::message::{to_each, MessageView, OutboundView};
use crate::names::{EntityTypeId, TilesetId, WorldId};
use crate::pos::{Position, TilePosition};
use crate::server::{lemma_same_elsewhere, Server};
use crate::session::WINDOW_AREA;
use crate::world::{in_both, lemma_without, only_in, without, ChunkRef};

verus! {

/// What a message says of an entity.
pub enum Mention {
    /// Nothing.
    Nothing,
    /// That the entity exists: the session has to take note of it.
    Shows,
    /// That the entity has changed: the session has to know it already.
    Updates,
    /// That the entity is gone from the view: the session forgets it.
    Hides,
}

/// One of `entities` shows the entity `e`.
pub open spec fn shows(entities: Seq<crate::message::EntityAddMessage>, e: u128) -> bool {
    exists|i: int| 0 <= i < entities.len() && (#[trigger] entities[i]).uuid == e
}

/// What `message` says of the entity `e`.
pub open spec fn mention(message: MessageView, e: u128) -> Mention {
    match message {
        MessageView::AddEntity(entity) => if entity.uuid == e {
            Mention::Shows
        } else {
            Mention::Nothing
        },
        MessageView::LoadChunk(_, _, entities) => if shows(entities, e) {
            Mention::Shows
        } else {
            Mention::Nothing
        },
        MessageView::RemoveEntity(id) => if id == e {
            Mention::Hides
        } else {
            Mention::Nothing
        },
        MessageView::UnloadChunk(_, ids) => if ids.contains(e) {
            Mention::Hides
        } else {
            Mention::Nothing
        },
        MessageView::UpdateEntityPosition(id, _) => if id == e {
            Mention::Updates
        } else {
            Mention::Nothing
        },
        MessageView::UpdateEntityAnimation(id, _) => if id == e {
            Mention::Updates
        } else {
            Mention::Nothing
        },
        MessageView::SetTile(_, _, _) => Mention::Nothing,
        MessageView::LoadContent(_) => Mention::Nothing,
        MessageView::CameraInfo(_) => Mention::Nothing,
    }
}

/// Whether a session knows the entity `e` once it has taken in `message`,
/// given whether it knew the entity before. `None` if the message is out of
/// order: it shows an entity that the session knows, or it changes or hides
/// one that the session does not know.
pub open spec fn step(known: bool, message: MessageView, e: u128) -> Option<bool> {
    match mention(message, e) {
        Mention::Nothing => Some(known),
        Mention::Shows => if known {
            None
        } else {
            Some(true)
        },
        Mention::Updates => if known {
            Some(true)
        } else {
            None
        },
        Mention::Hides => if known {
            Some(false)
        } else {
            None
        },
    }
}

/// Whether the session `c` knows the entity `e` once it has taken in, in
/// their order, the messages of `log` that go to it, given whether it knew
/// the entity before. `None` if one of them is out of order.
pub open spec fn follow(known: bool, log: Seq<OutboundView>, c: u128, e: u128) -> Option<bool>
    decreases log.len(),
{
    if log.len() == 0 {
        Some(known)
    } else {
        match follow(known, log.drop_last(), c, e) {
            None => None,
            Some(k) => if log.last().to == c {
                step(k, log.last().message, e)
            } else {
                Some(k)
            },
        }
    }
}

/// What was put behind the messages of `before` to make those of `after`.
pub open spec fn sent_since(before: &Server, after: &Server) -> Seq<OutboundView> {
    after.log().skip(before.log().len() as int)
}

impl Server {
    /// The session `c` is to know the entity `e`: the entity exists, and the
    /// session watches the chunk it stands on.
    pub open spec fn knows(&self, c: u128, e: u128) -> bool {
        self.entities@.contains_key(e) && self.viewers(self.entities@[e].place()).contains(c)
    }
}

/// Messages are followed one batch after the other.
pub proof fn lemma_follow_concat(
    known: bool,
    first: Seq<OutboundView>,
    second: Seq<OutboundView>,
    c: u128,
    e: u128,
)
    ensures
        follow(known, first + second, c, e) == (match follow(known, first, c, e) {
            Some(k) => follow(k, second, c, e),
            None => None,
        }),
    decreases second.len(),
{
    if second.len() == 0 {
        assert(first + second =~= first);
    } else {
        assert((first + second).drop_last() =~= first + second.drop_last());
        assert((first + second).last() == second.last());
        lemma_follow_concat(known, first, second.drop_last(), c, e);
    }
}

/// One message to each session of a list without duplicates is one step for
/// a session of the list, and nothing for any other.
pub proof fn lemma_follow_to_each(
    known: bool,
    recipients: Seq<u128>,
    message: MessageView,
    c: u128,
    e: u128,
)
    requires
        recipients.no_duplicates(),
    ensures
        follow(known, to_each(recipients, message), c, e) == (if recipients.contains(c) {
            step(known, message, e)
        } else {
            Some(known)
        }),
    decreases recipients.len(),
{
    let log = to_each(recipients, message);
    if recipients.len() == 0 {
    } else {
        let shorter = recipients.drop_last();
        assert(log.drop_last() =~= to_each(shorter, message));
        assert(log.last() == OutboundView { to: recipients.last(), message });
        lemma_follow_to_each(known, shorter, message, c, e);
        if recipients.last() == c {
            assert(recipients[recipients.len() - 1] == c);
            if shorter.contains(c) {
                let k = choose|k: int| 0 <= k < shorter.len() && shorter[k] == c;
                assert(recipients[k] == c);
            }
        } else {
            if recipients.contains(c) {
                let k = choose|k: int| 0 <= k < recipients.len() && recipients[k] == c;
                assert(shorter[k] == c);
            }
            if shorter.contains(c) {
                let k = choose|k: int| 0 <= k < shorter.len() && shorter[k] == c;
                assert(recipients[k] == c);
            }
        }
    }
}

/// Messages that say nothing of an entity, or that go to other sessions,
/// leave what a session knows of the entity as it is.
pub proof fn lemma_follow_silent(known: bool, log: Seq<OutboundView>, c: u128, e: u128)
    requires
        forall|i: int|
            0 <= i < log.len() ==> (#[trigger] log[i]).to != c || mention(log[i].message, e)
                == Mention::Nothing,
    ensures
        follow(known, log, c, e) == Some(known),
    decreases log.len(),
{
    if log.len() > 0 {
        assert forall|i: int| 0 <= i < log.drop_last().len() implies (#[trigger] log.drop_last()[i]).to
            != c || mention(log.drop_last()[i].message, e) == Mention::Nothing by {
            assert(log.drop_last()[i] == log[i]);
        }
        lemma_follow_silent(known, log.drop_last(), c, e);
        assert(log.last() == log[log.len() - 1]);
    }
}

/// The filtered parts of a list without duplicates have no duplicates, and
/// hold what the filter lets through.
pub(crate) proof fn lemma_parts(a: Seq<u128>, b: Seq<u128>)
    requires
        a.no_duplicates(),
    ensures
        only_in(a, b).no_duplicates(),
        in_both(a, b).no_duplicates(),
        forall|x: u128| #[trigger] only_in(a, b).contains(x) <==> a.contains(x) && !b.contains(x),
        forall|x: u128| #[trigger] in_both(a, b).contains(x) <==> a.contains(x) && b.contains(x),
{
    lemma_filtered(a, |v: u128| !b.contains(v));
    lemma_filtered(a, |v: u128| b.contains(v));
}

/// What is left of a list without duplicates when it is filtered has no
/// duplicates, and holds the entries that the filter lets through.
proof fn lemma_filtered(list: Seq<u128>, pred: spec_fn(u128) -> bool)
    requires
        list.no_duplicates(),
    ensures
        list.filter(pred).no_duplicates(),
        forall|x: u128| #[trigger] list.filter(pred).contains(x) <==> list.contains(x) && pred(x),
    decreases list.len(),
{
    if list.len() == 0 {
        assert(list.filter(pred) =~= Seq::<u128>::empty());
    } else {
        let shorter = list.drop_last();
        let last = list.last();
        assert(list =~= shorter.push(last));
        lemma_filtered(shorter, pred);
        shorter.lemma_filter_push(last, pred);
        let kept = shorter.filter(pred);
        assert(!shorter.contains(last)) by {
            if shorter.contains(last) {
                let k = choose|k: int| 0 <= k < shorter.len() && shorter[k] == last;
                assert(list[k] == list[list.len() - 1]);
            }
        }
        assert forall|x: u128| #[trigger] list.filter(pred).contains(x) <==> list.contains(x)
            && pred(x) by {
            if list.contains(x) {
                let k = choose|k: int| 0 <= k < list.len() && list[k] == x;
                if k < shorter.len() {
                    assert(shorter[k] == x);
                }
            }
            if shorter.contains(x) {
                let k = choose|k: int| 0 <= k < shorter.len() && shorter[k] == x;
                assert(list[k] == x);
            }
            if pred(last) {
                if kept.push(last).contains(x) {
                    let k = choose|k: int| 0 <= k < kept.push(last).len() && kept.push(last)[k] == x;
                    if k < kept.len() {
                        assert(kept[k] == x);
                    }
                }
                if kept.contains(x) {
                    let k = choose|k: int| 0 <= k < kept.len() && kept[k] == x;
                    assert(kept.push(last)[k] == x);
                }
                assert(kept.push(last)[kept.len() as int] == last);
            }
        }
        if pred(last) {
            assert(!kept.contains(last));
            assert forall|i: int, j: int|
                0 <= i < kept.push(last).len() && 0 <= j < kept.push(last).len() && i
                    != j implies kept.push(last)[i] != kept.push(last)[j] by {
                if i < kept.len() && j < kept.len() {
                    assert(kept[i] != kept[j]);
                } else if i < kept.len() {
                    assert(kept.contains(kept[i]));
                } else {
                    assert(kept.contains(kept[j]));
                }
            }
        }
    }
}

/// Where the chunk at `at` keeps its viewers and every other chunk is as it
/// was, every chunk has the viewers it had.
proof fn lemma_viewers_kept(before: &Server, after: &Server, at: ChunkRef)
    requires
        after.chunks().remove(at) == before.chunks().remove(at),
        after.viewers(at) == before.viewers(at),
    ensures
        forall|q: ChunkRef| #[trigger] after.viewers(q) == before.viewers(q),
{
    lemma_same_elsewhere(before.chunks(), after.chunks(), at);
    assert forall|q: ChunkRef| #[trigger] after.viewers(q) == before.viewers(q) by {
        if q != at {
            assert(after.chunks().contains_key(q) <==> before.chunks().contains_key(q));
        }
    }
}

/// The viewers of a chunk are listed once.
pub(crate) proof fn lemma_viewers_once(server: &Server, q: ChunkRef)
    requires
        server.wf(),
    ensures
        server.viewers(q).no_duplicates(),
{
    if server.chunks().contains_key(q) {
        assert(server.chunks()[q].wf());
    }
}

/// Message ordering when an entity is made: the sessions that watch its
/// chunk are shown the entity, which none of them knew; what the sessions
/// know of every other entity stays as it is.
pub proof fn lemma_spawn_in_order(
    before: &Server,
    after: &Server,
    uuid: u128,
    type_id: EntityTypeId,
    position: Position,
    c: u128,
    e: u128,
)
    requires
        before.wf(),
        before.spawned(after, uuid, type_id, position),
    ensures
        follow(before.knows(c, e), sent_since(before, after), c, e) == Some(after.knows(c, e)),
{
    let entity = before.newborn(uuid, type_id, position);
    let at = entity.place();
    let message = MessageView::AddEntity(entity.add_message(before.ticks_passed));
    assert(sent_since(before, after) =~= to_each(before.viewers(at), message));
    lemma_viewers_once(before, at);
    lemma_follow_to_each(before.knows(c, e), before.viewers(at), message, c, e);
    lemma_viewers_kept(before, after, at);
    if e != uuid && before.entities@.contains_key(e) {
        assert(after.viewers(before.entities@[e].place()) == before.viewers(
            before.entities@[e].place(),
        ));
    }
}

/// Message ordering when an entity is taken out: the sessions that watch its
/// chunk, which are those that know it, are told that it is gone.
pub proof fn lemma_remove_in_order(before: &Server, after: &Server, uuid: u128, c: u128, e: u128)
    requires
        before.wf(),
        before.despawned(after, uuid),
    ensures
        follow(before.knows(c, e), sent_since(before, after), c, e) == Some(after.knows(c, e)),
{
    let at = before.entities@[uuid].place();
    let message = MessageView::RemoveEntity(uuid);
    assert(sent_since(before, after) =~= to_each(before.viewers(at), message));
    lemma_viewers_once(before, at);
    lemma_follow_to_each(before.knows(c, e), before.viewers(at), message, c, e);
    lemma_viewers_kept(before, after, at);
    if e != uuid && before.entities@.contains_key(e) {
        assert(after.viewers(before.entities@[e].place()) == before.viewers(
            before.entities@[e].place(),
        ));
    }
}

/// Message ordering when the animation of an entity changes: the sessions
/// that watch its chunk, which are those that know it, are told.
pub proof fn lemma_animation_in_order(
    before: &Server,
    after: &Server,
    uuid: u128,
    running: EntityAnimation,
    c: u128,
    e: u128,
)
    requires
        before.wf(),
        before.reanimated(after, uuid, running),
    ensures
        follow(before.knows(c, e), sent_since(before, after), c, e) == Some(after.knows(c, e)),
{
    let at = before.entities@[uuid].place();
    let message = MessageView::UpdateEntityAnimation(
        uuid,
        crate::message::RunningAnimation {
            id: running.animation,
            time: running.spec_running_for(before.ticks_passed),
        },
    );
    assert(sent_since(before, after) =~= to_each(before.viewers(at), message));
    lemma_viewers_once(before, at);
    lemma_follow_to_each(before.knows(c, e), before.viewers(at), message, c, e);
    assert forall|q: ChunkRef| #[trigger] after.viewers(q) == before.viewers(q) by {}
    if before.entities@.contains_key(e) {
        assert(after.viewers(before.entities@[e].place()) == before.viewers(
            before.entities@[e].place(),
        ));
    }
}

/// Message ordering when a tile is written: no session is told anything of
/// an entity.
pub proof fn lemma_tile_in_order(
    before: &Server,
    after: &Server,
    position: TilePosition,
    world: WorldId,
    tileset: TilesetId,
    number: u32,
    c: u128,
    e: u128,
)
    requires
        before.wf(),
        before.tile_written(after, position, world, tileset, number),
    ensures
        follow(before.knows(c, e), sent_since(before, after), c, e) == Some(after.knows(c, e)),
{
    let at = ChunkRef { world, position: position.spec_chunk() };
    let message = MessageView::SetTile(position, tileset, number);
    assert(sent_since(before, after) =~= to_each(before.viewers(at), message));
    lemma_viewers_once(before, at);
    lemma_follow_to_each(before.knows(c, e), before.viewers(at), message, c, e);
    lemma_viewers_kept(before, after, at);
    if before.entities@.contains_key(e) {
        assert(after.viewers(before.entities@[e].place()) == before.viewers(
            before.entities@[e].place(),
        ));
    }
}

/// Message ordering when an entity moves. Inside a chunk, the sessions that
/// know the entity are told its position. Across chunks, the sessions that
/// come to watch it are shown it, those that watch it before and after are
/// told its position, and those that cease to watch it are told that it is
/// gone.
pub proof fn lemma_move_in_order(
    before: &Server,
    after: &Server,
    uuid: u128,
    position: Position,
    c: u128,
    e: u128,
)
    requires
        before.wf(),
        before.moved(after, uuid, position),
    ensures
        follow(before.knows(c, e), sent_since(before, after), c, e) == Some(after.knows(c, e)),
{
    let entity = before.entities@[uuid];
    let from = entity.place();
    let to = ChunkRef { world: position.world, position: position.spec_chunk() };
    let coordinates = crate::pos::Vec2 { x: position.x, y: position.y };
    let update = MessageView::UpdateEntityPosition(uuid, coordinates);
    let known = before.knows(c, e);
    lemma_viewers_once(before, from);
    lemma_viewers_once(before, to);
    if from == to {
        assert(sent_since(before, after) =~= to_each(before.viewers(from), update));
        lemma_follow_to_each(known, before.viewers(from), update, c, e);
        assert forall|q: ChunkRef| #[trigger] after.viewers(q) == before.viewers(q) by {}
        if before.entities@.contains_key(e) {
            assert(after.viewers(before.entities@[e].place()) == before.viewers(
                before.entities@[e].place(),
            ));
        }
    } else {
        let old_viewers = before.viewers(from);
        let new_viewers = before.viewers(to);
        let show = MessageView::AddEntity(entity.add_message(before.ticks_passed));
        let hide = MessageView::RemoveEntity(uuid);
        let first = to_each(only_in(new_viewers, old_viewers), show);
        let second = to_each(in_both(new_viewers, old_viewers), update);
        let third = to_each(only_in(old_viewers, new_viewers), hide);
        assert(sent_since(before, after) =~= first + second + third);
        lemma_parts(new_viewers, old_viewers);
        lemma_parts(old_viewers, new_viewers);
        lemma_follow_concat(known, first + second, third, c, e);
        lemma_follow_concat(known, first, second, c, e);
        lemma_follow_to_each(known, only_in(new_viewers, old_viewers), show, c, e);
        let k1 = follow(known, first, c, e);
        if k1 is Some {
            lemma_follow_to_each(k1->0, in_both(new_viewers, old_viewers), update, c, e);
            let k2 = follow(k1->0, second, c, e);
            if k2 is Some {
                lemma_follow_to_each(k2->0, only_in(old_viewers, new_viewers), hide, c, e);
            }
        }
        assert forall|q: ChunkRef| #[trigger] after.viewers(q) == before.viewers(q) by {
            lemma_same_elsewhere(
                before.chunks().remove(from),
                after.chunks().remove(from),
                to,
            );
            if q != from && q != to {
                assert(after.chunks().remove(from).contains_key(q) <==> after.chunks().contains_key(
                    q,
                ));
                assert(before.chunks().remove(from).contains_key(q)
                    <==> before.chunks().contains_key(q));
                assert(after.chunks().remove(from)[q] == after.chunks()[q]);
                assert(before.chunks().remove(from)[q] == before.chunks()[q]);
            }
        }
        if e != uuid && before.entities@.contains_key(e) {
            assert(after.viewers(before.entities@[e].place()) == before.viewers(
                before.entities@[e].place(),
            ));
        }
        if e == uuid {
            assert(after.entities@[uuid].place() == to);
            assert(after.viewers(to) == new_viewers);
        }
    }
}

/// Whatever is sent as a window moves goes to the session whose window it
/// is.
pub(crate) proof fn lemma_window_messages_to(
    server: &Server,
    client: u128,
    seen: Option<ChunkRef>,
    wanted: Option<ChunkRef>,
    n: nat,
)
    ensures
        forall|i: int|
            0 <= i < server.unloads(client, seen, wanted, n).len() ==> (#[trigger] server.unloads(
                client,
                seen,
                wanted,
                n,
            )[i]).to == client,
        forall|i: int|
            0 <= i < server.loads(client, seen, wanted, n).len() ==> (#[trigger] server.loads(
                client,
                seen,
                wanted,
                n,
            )[i]).to == client,
    decreases n,
{
    if n > 0 {
        lemma_window_messages_to(server, client, seen, wanted, (n - 1) as nat);
    }
}

/// An unload says of an entity that it is gone exactly if the entity stands
/// on the chunk, and a load shows an entity exactly if it stands on the
/// chunk.
pub(crate) proof fn lemma_chunk_mentions(server: &Server, q: ChunkRef, e: u128)
    requires
        server.wf(),
    ensures
        mention(server.unload_message(q), e) == (if server.residents(q).contains(e) {
            Mention::Hides
        } else {
            Mention::Nothing
        }),
        mention(server.load_message(q), e) == (if server.residents(q).contains(e) {
            Mention::Shows
        } else {
            Mention::Nothing
        }),
        server.residents(q).contains(e) <==> server.entities@.contains_key(e)
            && server.entities@[e].place() == q,
{
    let ids = server.residents(q);
    let shown = server.add_messages_of(ids);
    assert forall|i: int| 0 <= i < ids.len() implies (#[trigger] shown[i]).uuid == ids[i] by {
        assert(ids.contains(ids[i]));
        lemma_residents_exist(server, q, ids[i]);
    }
    if ids.contains(e) {
        let k = choose|k: int| 0 <= k < ids.len() && ids[k] == e;
        assert(shown[k].uuid == e);
        lemma_residents_exist(server, q, e);
    }
    if shows(shown, e) {
        let k = choose|k: int| 0 <= k < shown.len() && (#[trigger] shown[k]).uuid == e;
        assert(shown[k].uuid == ids[k]);
        assert(ids[k] == e);
        assert(ids.contains(e));
    }
    let has = shows(shown, e);
    if ids.contains(e) {
        let k = choose|k: int| 0 <= k < ids.len() && ids[k] == e;
        assert(0 <= k < shown.len() && shown[k].uuid == e);
        assert(has);
    }
    assert(has == ids.contains(e));
    let message = MessageView::LoadChunk(
        q.position,
        crate::world::tiles_of(server.layers(q)),
        shown,
    );
    assert(server.load_message(q) == message);
    assert(mention(message, e) == (if has {
        Mention::Shows
    } else {
        Mention::Nothing
    }));
    if server.entities@.contains_key(e) && server.entities@[e].place() == q {
        lemma_residency(server, e);
    }
}

/// Of the chunks that leave a window, the session is told that an entity is
/// gone once: with the chunk that it stands on.
proof fn lemma_unloads_follow(
    server: &Server,
    client: u128,
    seen: Option<ChunkRef>,
    wanted: Option<ChunkRef>,
    n: nat,
    known: bool,
    e: u128,
)
    requires
        server.wf(),
        n <= WINDOW_AREA,
        server.entities@.contains_key(e) ==> known == in_view(seen, server.entities@[e].place()),
    ensures
        follow(known, server.unloads(client, seen, wanted, n), client, e) == Some(
            if server.entities@.contains_key(e) && in_view(seen, server.entities@[e].place())
                && !in_view(wanted, server.entities@[e].place()) && window_index(
                seen->0,
                server.entities@[e].place(),
            ) < n {
                false
            } else {
                known
            },
        ),
    decreases n,
{
    if n == 0 || seen is None {
    } else {
        let rest = server.unloads(client, seen, wanted, (n - 1) as nat);
        let q = window_at(seen->0, n - 1);
        lemma_unloads_follow(server, client, seen, wanted, (n - 1) as nat, known, e);
        if in_view(seen, q) {
            lemma_window_at(seen->0, n - 1);
        }
        lemma_chunk_mentions(server, q, e);
        if server.entities@.contains_key(e) {
            let home = server.entities@[e].place();
            if in_view(seen, home) {
                lemma_window_covers(seen->0, home);
            }
        }
        if in_view(seen, q) && !in_view(wanted, q) {
            let log = rest.push(OutboundView { to: client, message: server.unload_message(q) });
            assert(log.drop_last() =~= rest);
        }
    }
}

/// Of the chunks that enter a window, the session is shown an entity once:
/// with the chunk that it stands on.
proof fn lemma_loads_follow(
    server: &Server,
    client: u128,
    seen: Option<ChunkRef>,
    wanted: Option<ChunkRef>,
    n: nat,
    known: bool,
    e: u128,
)
    requires
        server.wf(),
        n <= WINDOW_AREA,
        server.entities@.contains_key(e) ==> known == (in_view(seen, server.entities@[e].place())
            && in_view(wanted, server.entities@[e].place())),
    ensures
        follow(known, server.loads(client, seen, wanted, n), client, e) == Some(
            if server.entities@.contains_key(e) && in_view(wanted, server.entities@[e].place())
                && !in_view(seen, server.entities@[e].place()) && window_index(
                wanted->0,
                server.entities@[e].place(),
            ) < n {
                true
            } else {
                known
            },
        ),
    decreases n,
{
    if n == 0 || wanted is None {
    } else {
        let rest = server.loads(client, seen, wanted, (n - 1) as nat);
        let q = window_at(wanted->0, n - 1);
        lemma_loads_follow(server, client, seen, wanted, (n - 1) as nat, known, e);
        if in_view(wanted, q) {
            lemma_window_at(wanted->0, n - 1);
        }
        lemma_chunk_mentions(server, q, e);
        if server.entities@.contains_key(e) {
            let home = server.entities@[e].place();
            if in_view(wanted, home) {
                lemma_window_covers(wanted->0, home);
            }
        }
        if in_view(wanted, q) && !in_view(seen, q) {
            let log = rest.push(OutboundView { to: client, message: server.load_message(q) });
            assert(log.drop_last() =~= rest);
        }
    }
}

/// Message ordering when the window of a session moves: the session is told
/// that the entities on the chunks that leave the window are gone, which it
/// knew, and is shown the entities on the chunks that enter it, which it did
/// not know; no other session is told anything.
pub proof fn lemma_camera_in_order(
    before: &Server,
    after: &Server,
    client: u128,
    wanted: Option<ChunkRef>,
    info: Seq<OutboundView>,
    c: u128,
    e: u128,
)
    requires
        before.wf(),
        before.clients@.contains_key(client),
        before.interest_moved(after, client, before.clients@[client].loaded, wanted, info),
        forall|i: int|
            0 <= i < info.len() ==> (#[trigger] info[i]).to == client
                && info[i].message is CameraInfo,
    ensures
        follow(before.knows(c, e), sent_since(before, after), c, e) == Some(after.knows(c, e)),
{
    let seen = before.clients@[client].loaded;
    let known = before.knows(c, e);
    let unloads = before.unloads(client, seen, wanted, WINDOW_AREA as nat);
    let loads = before.loads(client, seen, wanted, WINDOW_AREA as nat);
    assert(sent_since(before, after) =~= unloads + loads + info);
    lemma_window_messages_to(before, client, seen, wanted, WINDOW_AREA as nat);
    lemma_follow_concat(known, unloads + loads, info, c, e);
    lemma_follow_concat(known, unloads, loads, c, e);
    if before.entities@.contains_key(e) {
        let home = before.entities@[e].place();
        let list = before.viewers(home);
        lemma_viewers_once(before, home);
        lemma_viewers_exact(before, home, client);
        lemma_without(list, client);
        assert(after.viewers(home) == before.viewers_after(client, seen, wanted, home));
        if in_view(seen, home) {
            lemma_window_covers(seen->0, home);
        }
        if in_view(wanted, home) {
            lemma_window_covers(wanted->0, home);
        }
        if c != client {
            if list.contains(c) {
                let k = choose|k: int| 0 <= k < list.len() && list[k] == c;
                assert(list.push(client)[k] == c);
            }
            if list.push(client).contains(c) {
                let k = choose|k: int| 0 <= k < list.push(client).len() && list.push(client)[k] == c;
                assert(list[k] == c);
            }
        } else {
            assert(list.push(client)[list.len() as int] == client);
        }
    }
    if c != client {
        lemma_follow_silent(known, unloads, c, e);
        lemma_follow_silent(known, loads, c, e);
        lemma_follow_silent(known, info, c, e);
    } else {
        lemma_unloads_follow(before, client, seen, wanted, WINDOW_AREA as nat, known, e);
        let k1 = follow(known, unloads, client, e)->0;
        lemma_loads_follow(before, client, seen, wanted, WINDOW_AREA as nat, k1, e);
        let k2 = follow(k1, loads, client, e)->0;
        lemma_follow_silent(k2, info, c, e);
    }
}

/// Message ordering where nothing is sent and no entity or viewer changes:
/// what every session knows stays as it is.
pub proof fn lemma_silence_in_order(before: &Server, after: &Server, c: u128, e: u128)
    requires
        after.log() == before.log(),
        after.entities@ == before.entities@,
        forall|q: ChunkRef| #[trigger] after.viewers(q) == before.viewers(q),
    ensures
        follow(before.knows(c, e), sent_since(before, after), c, e) == Some(after.knows(c, e)),
{
    assert(sent_since(before, after) =~= Seq::<OutboundView>::empty());
    if before.entities@.contains_key(e) {
        assert(after.viewers(before.entities@[e].place()) == before.viewers(
            before.entities@[e].place(),
        ));
    }
}

/// Message ordering over time: where what a session is sent is in order
/// from one state to the next and from that to a third, it is in order from
/// the first to the third.
pub proof fn lemma_order_composes(
    known: bool,
    first: Seq<OutboundView>,
    then: Seq<OutboundView>,
    c: u128,
    e: u128,
    between: bool,
    last: bool,
)
    requires
        follow(known, first, c, e) == Some(between),
        follow(between, then, c, e) == Some(last),
    ensures
        follow(known, first + then, c, e) == Some(last),
{
    lemma_follow_concat(known, first, then, c, e);
}

} // verus!
