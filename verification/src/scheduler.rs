//! The queue of tasks that wait for their tick.

use vstd::prelude::*;
use crate::names::WorldId;
use crate::pacing::sleep_for;
use crate::pos::ChunkPosition;

verus! {

/// Ticks per second.
pub const TPS: u8 = 30;

/// What a task does when its tick has come.
#[derive(Copy, Clone, Debug, PartialEq, Eq, Structural)]
pub enum TaskAction {
    /// Calls the script function with this handle; what it returns decides
    /// whether the task is scheduled again.
    Script(u64),
    /// Announces that the chunk at this place has come into being.
    LoadChunk(WorldId, ChunkPosition),
}

/// A task and the tick it is scheduled for.
#[derive(Copy, Clone, Debug, PartialEq, Eq, Structural)]
pub struct Task {
    pub run_on: u32,
    pub task: TaskAction,
}

/// Tasks in the order in which they will run: ascending by tick, and among
/// tasks of one tick the one scheduled first comes first.
pub struct TaskQueue {
    pub tasks: Vec<Task>,
}

/// The tasks are in ascending order of their ticks.
pub open spec fn ascending(tasks: Seq<Task>) -> bool {
    forall|i: int, j: int| 0 <= i <= j < tasks.len() ==> tasks[i].run_on <= tasks[j].run_on
}

/// The first index at or after `start` whose task is scheduled later than
/// `run_on`, or the length if there is none.
pub open spec fn slot_from(tasks: Seq<Task>, run_on: u32, start: int) -> int
    decreases tasks.len() - start,
{
    if start < 0 || start >= tasks.len() || tasks[start].run_on > run_on {
        start
    } else {
        slot_from(tasks, run_on, start + 1)
    }
}

/// The place in the queue of a new task for the tick `run_on`: behind every
/// task that is scheduled for that tick or an earlier one.
pub open spec fn slot(tasks: Seq<Task>, run_on: u32) -> int {
    slot_from(tasks, run_on, 0)
}

impl View for TaskQueue {
    type V = Seq<Task>;

    open spec fn view(&self) -> Seq<Task> {
        self.tasks@
    }
}

impl TaskQueue {
    pub open spec fn wf(&self) -> bool {
        ascending(self@)
    }

    /// The empty queue.
    pub fn new() -> (queue: TaskQueue)
        ensures
            queue.wf(),
            queue@ == Seq::<Task>::empty(),
    {
        TaskQueue { tasks: Vec::new() }
    }

    /// Number of waiting tasks.
    pub fn len(&self) -> (n: usize)
        ensures
            n == self@.len(),
    {
        self.tasks.len()
    }

    /// Enters `task` behind every task of its tick and of earlier ticks.
    pub fn push(&mut self, task: Task)
        requires
            old(self).wf(),
        ensures
            final(self).wf(),
            final(self)@ == old(self)@.insert(slot(old(self)@, task.run_on), task),
            0 <= slot(old(self)@, task.run_on) <= old(self)@.len(),
            final(self)@.to_multiset() == old(self)@.to_multiset().insert(task),
    {
        let mut i: usize = 0;
        while i < self.tasks.len() && self.tasks[i].run_on <= task.run_on
            invariant
                i <= self.tasks.len(),
                self.tasks@ == old(self)@,
                slot(old(self)@, task.run_on) == slot_from(old(self)@, task.run_on, i as int),
                forall|j: int| 0 <= j < i ==> old(self)@[j].run_on <= task.run_on,
            decreases self.tasks.len() - i,
        {
            i += 1;
        }
        proof {
            assert forall|j: int| i <= j < old(self)@.len() implies old(self)@[j].run_on
                > task.run_on by {
                assert(old(self)@[i as int].run_on <= old(self)@[j].run_on);
            }
            lemma_insert_adds_one(old(self)@, i as int, task);
        }
        self.tasks.insert(i, task);
    }

    /// The task at the head of the queue, if there is one.
    pub fn peek(&self) -> (r: Option<Task>)
        ensures
            r == (if self@.len() > 0 {
                Some(self@[0])
            } else {
                None
            }),
    {
        if self.tasks.len() > 0 {
            Some(self.tasks[0])
        } else {
            None
        }
    }

    /// Takes the task at the head of the queue if its tick is `now` or
    /// earlier. `None` means that no task of the queue is due.
    pub fn pop_due(&mut self, now: u32) -> (r: Option<Task>)
        requires
            old(self).wf(),
        ensures
            final(self).wf(),
            match r {
                Some(task) => {
                    &&& old(self)@.len() > 0
                    &&& task == old(self)@[0]
                    &&& task.run_on <= now
                    &&& final(self)@ == old(self)@.drop_first()
                    &&& old(self)@.to_multiset() == final(self)@.to_multiset().insert(task)
                },
                None => {
                    &&& final(self)@ == old(self)@
                    &&& forall|i: int| 0 <= i < old(self)@.len() ==> old(self)@[i].run_on > now
                },
            },
    {
        if self.tasks.len() == 0 {
            return None;
        }
        if self.tasks[0].run_on <= now {
            let task = self.tasks.remove(0);
            proof {
                assert(self@ =~= old(self)@.drop_first());
                assert(old(self)@ =~= seq![task] + self@);
                lemma_insert_adds_one(self@, 0, task);
                assert(self@.insert(0, task) =~= old(self)@);
            }
            Some(task)
        } else {
            proof {
                assert forall|i: int| 0 <= i < old(self)@.len() implies old(self)@[i].run_on
                    > now by {
                    assert(old(self)@[0].run_on <= old(self)@[i].run_on);
                }
            }
            None
        }
    }
}

proof fn lemma_insert_adds_one(queue: Seq<Task>, k: int, task: Task)
    requires
        0 <= k <= queue.len(),
    ensures
        queue.insert(k, task).to_multiset() == queue.to_multiset().insert(task),
{
    let longer = queue.insert(k, task);
    assert(longer.remove(k) =~= queue);
    assert(longer[k] == task);
    vstd::seq_lib::to_multiset_remove(longer, k);
    longer.to_multiset_ensures();
    assert(longer.contains(task));
    assert(longer.to_multiset() =~= queue.to_multiset().insert(task));
}

/// A task never runs before its tick: whatever `pop_due` hands out at the
/// tick `now` was scheduled for `now` or earlier, and a task that was
/// scheduled at the tick `at` with a delay of `delay` ticks is not handed out
/// while `now < at + delay`.
pub proof fn lemma_never_early(queue: Seq<Task>, now: u32, at: u32, delay: u32)
    requires
        ascending(queue),
        queue.len() > 0,
        queue[0].run_on == at + delay,
        now < at + delay,
    ensures
        forall|i: int| 0 <= i < queue.len() ==> queue[i].run_on > now,
{
    assert forall|i: int| 0 <= i < queue.len() implies queue[i].run_on > now by {
        assert(queue[0].run_on <= queue[i].run_on);
    }
}

/// Scheduling keeps every waiting task and adds exactly one: the queue after
/// `push` holds the new task at its slot and the earlier tasks around it in
/// their earlier order.
pub proof fn lemma_push_keeps_order(queue: Seq<Task>, task: Task, i: int)
    requires
        ascending(queue),
        0 <= i < queue.len(),
    ensures
        ({
            let k = slot(queue, task.run_on);
            let after = queue.insert(k, task);
            &&& 0 <= k <= queue.len()
            &&& after[k] == task
            &&& i < k ==> after[i] == queue[i] && queue[i].run_on <= task.run_on
            &&& i >= k ==> after[i + 1] == queue[i] && queue[i].run_on > task.run_on
        }),
{
    lemma_slot_bounds(queue, task.run_on, 0);
}

/// Before its slot every task is scheduled no later than `run_on`; from the
/// slot on, in an ascending queue, every task is scheduled later.
pub proof fn lemma_slot_bounds(queue: Seq<Task>, run_on: u32, start: int)
    requires
        ascending(queue),
        0 <= start <= queue.len(),
    ensures
        start <= slot_from(queue, run_on, start) <= queue.len(),
        forall|j: int| start <= j < slot_from(queue, run_on, start) ==> queue[j].run_on <= run_on,
        forall|j: int| slot_from(queue, run_on, start) <= j < queue.len() ==> queue[j].run_on > run_on,
    decreases queue.len() - start,
{
    if start < queue.len() && queue[start].run_on <= run_on {
        lemma_slot_bounds(queue, run_on, start + 1);
    } else {
        assert forall|j: int| start <= j < queue.len() implies queue[j].run_on > run_on by {
            assert(queue[start].run_on <= queue[j].run_on);
        }
    }
}

/// What the loop reports to the server in the course of a tick.
#[derive(Copy, Clone, Debug, PartialEq, Eq, Structural)]
pub enum TickEvent {
    /// The loop is ready for the next step of the tick, `elapsed`
    /// milliseconds after the loop was started.
    Ready { elapsed: u64 },
    /// The task `task` was run. It asked to be run again `again` ticks from
    /// now, or not to be run again.
    Ran { task: TaskAction, again: Option<u32> },
}

/// What the server asks of the loop.
#[derive(Copy, Clone, Debug, PartialEq, Eq, Structural)]
pub enum TickAction {
    /// The tick of the task has come: the loop runs it and says what the
    /// task asked for.
    Run(Task),
    /// Every task whose tick had come was run, and the clock has moved on:
    /// the loop sleeps for this many milliseconds before the next tick.
    Sleep(u64),
    /// The tick goes on.
    Continue,
}

/// A task of the queue is due at the tick `ticks`: in a queue in ascending
/// order, that is the first.
pub open spec fn is_due(queue: Seq<Task>, ticks: u32) -> bool {
    queue.len() > 0 && queue[0].run_on <= ticks
}

/// What the server asks of the loop when the loop reports `event` at the
/// tick `ticks`: a loop that is ready is handed the first task that is due,
/// and is sent to sleep when none is.
pub open spec fn action_of(queue: Seq<Task>, ticks: u32, event: TickEvent) -> TickAction {
    match event {
        TickEvent::Ready { elapsed } => if is_due(queue, ticks) {
            TickAction::Run(queue[0])
        } else {
            TickAction::Sleep(sleep_for(ticks, elapsed))
        },
        TickEvent::Ran { task, again } => TickAction::Continue,
    }
}

/// The waiting tasks after the loop has reported `event` at the tick
/// `ticks`: a task that is handed out leaves the queue, and a task that asked
/// to be run again enters it for the tick that comes `again` ticks after
/// this one.
pub open spec fn queue_after(queue: Seq<Task>, ticks: u32, event: TickEvent) -> Seq<Task> {
    match event {
        TickEvent::Ready { elapsed } => if is_due(queue, ticks) {
            queue.drop_first()
        } else {
            queue
        },
        TickEvent::Ran { task, again } => match again {
            Some(delay) => queue.insert(
                slot(queue, (ticks + delay) as u32),
                Task { run_on: (ticks + delay) as u32, task },
            ),
            None => queue,
        },
    }
}

/// The tick after the loop has reported `event` at the tick `ticks`: the
/// clock moves on, by one tick, when the loop is sent to sleep, and at no
/// other time.
pub open spec fn clock_after(queue: Seq<Task>, ticks: u32, event: TickEvent) -> int {
    if action_of(queue, ticks, event) is Sleep {
        ticks + 1
    } else {
        ticks as int
    }
}

/// Tick monotonicity: whatever the loop reports, the clock stays or moves on
/// by exactly one tick, and it moves exactly when the loop is sent to sleep,
/// which is when it is ready and no task is due; so whatever is run in the
/// course of a tick sees the same tick.
pub proof fn lemma_clock_moves_by_one(queue: Seq<Task>, ticks: u32, event: TickEvent)
    requires
        ascending(queue),
    ensures
        clock_after(queue, ticks, event) == ticks || clock_after(queue, ticks, event) == ticks + 1,
        clock_after(queue, ticks, event) == ticks + 1 <==> event is Ready && forall|i: int|
            0 <= i < queue.len() ==> queue[i].run_on > ticks,
        action_of(queue, ticks, event) is Run ==> action_of(queue, ticks, event)->Run_0.run_on
            <= ticks,
{
    if event is Ready && !is_due(queue, ticks) {
        assert forall|i: int| 0 <= i < queue.len() implies queue[i].run_on > ticks by {
            assert(queue[0].run_on <= queue[i].run_on);
        }
    }
}

/// Rescheduling: a task that is alone in the queue and asks, each time it was
/// run, to be run again `delay` ticks later, is run at the tick for which it
/// was first scheduled and then every `delay` ticks, and at no tick between.
/// Before its `k`-th rerun the queue holds it for the tick `first + k *
/// delay`: the loop is handed nothing at an earlier tick, is handed the task
/// at that tick, and once the task has asked for its rerun the queue holds it
/// for the tick `first + (k + 1) * delay`, once.
pub proof fn lemma_reruns(
    task: TaskAction,
    first: u32,
    delay: u32,
    k: nat,
    now: u32,
    elapsed: u64,
)
    requires
        delay > 0,
        first + (k + 1) * delay <= u32::MAX,
    ensures
        ({
            let at = (first + k * delay) as u32;
            let next = (first + (k + 1) * delay) as u32;
            let queue = seq![Task { run_on: at, task }];
            let ready = TickEvent::Ready { elapsed };
            let ran = TickEvent::Ran { task, again: Some(delay) };
            &&& now < at ==> action_of(queue, now, ready) is Sleep && queue_after(queue, now, ready)
                == queue
            &&& now == at ==> action_of(queue, now, ready) == TickAction::Run(
                Task { run_on: at, task },
            ) && queue_after(queue, now, ready) == Seq::<Task>::empty()
            &&& now == at ==> queue_after(Seq::<Task>::empty(), now, ran) == seq![
                Task { run_on: next, task },
            ]
            &&& next == at + delay
        }),
{
    assert((k + 1) * delay == k * delay + delay) by (nonlinear_arith);
    assert(0 <= k * delay) by (nonlinear_arith);
    let at = (first + k * delay) as u32;
    let next = (first + (k + 1) * delay) as u32;
    let queue = seq![Task { run_on: at, task }];
    assert(queue.drop_first() =~= Seq::<Task>::empty());
    let none = Seq::<Task>::empty();
    assert(slot(none, next) == 0);
    assert(none.insert(0, Task { run_on: next, task }) =~= seq![Task { run_on: next, task }]);
}

} // verus!
