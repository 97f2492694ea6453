use hydro::content::InitEnvironment;
use hydro::pacing::sleep_time;
use hydro::pos::ChunkPosition;
use hydro::scheduler::{Task, TaskAction, TaskQueue, TickAction, TickEvent, TPS};
use hydro::server::Server;

fn ticks(seconds: f64) -> u32 {
    (seconds * TPS as f64).ceil() as u32
}

#[test]
fn ticks_per_second_is_thirty() {
    assert_eq!(TPS, 30);
    assert_eq!(ticks(0.0), 0);
    assert_eq!(ticks(0.5), 15);
    assert_eq!(ticks(1.0 / 30.0), 1);
    assert_eq!(ticks(0.034), 2);
}

#[test]
fn queue_hands_out_tasks_in_the_order_of_their_ticks() {
    let mut q = TaskQueue::new();
    q.push(Task { run_on: 5, task: TaskAction::Script(1) });
    q.push(Task { run_on: 3, task: TaskAction::Script(2) });
    q.push(Task { run_on: 5, task: TaskAction::Script(3) });
    q.push(Task { run_on: 4, task: TaskAction::Script(4) });
    q.push(Task { run_on: 3, task: TaskAction::Script(5) });
    assert_eq!(q.len(), 5);
    assert_eq!(q.peek(), Some(Task { run_on: 3, task: TaskAction::Script(2) }));
    assert_eq!(q.pop_due(2), None);
    assert_eq!(q.len(), 5);
    assert_eq!(q.pop_due(3), Some(Task { run_on: 3, task: TaskAction::Script(2) }));
    assert_eq!(q.pop_due(3), Some(Task { run_on: 3, task: TaskAction::Script(5) }));
    assert_eq!(q.pop_due(3), None);
    assert_eq!(q.pop_due(100), Some(Task { run_on: 4, task: TaskAction::Script(4) }));
    assert_eq!(q.pop_due(100), Some(Task { run_on: 5, task: TaskAction::Script(1) }));
    assert_eq!(q.pop_due(100), Some(Task { run_on: 5, task: TaskAction::Script(3) }));
    assert_eq!(q.pop_due(100), None);
    assert_eq!(q.peek(), None);
    assert_eq!(q.len(), 0);
}

#[test]
fn task_is_not_run_before_its_tick_and_is_run_once() {
    let mut s = Server::new(InitEnvironment::new());
    for _ in 0..7 {
        s.advance_tick();
    }
    s.schedule_task(TaskAction::Script(42), ticks(0.1));
    let mut runs = Vec::new();
    for _ in 0..20 {
        while let Some(task) = s.get_next_scheduled_task() {
            runs.push((s.ticks_passed, task));
        }
        s.advance_tick();
    }
    assert_eq!(runs, vec![(10, Task { run_on: 10, task: TaskAction::Script(42) })]);
}

#[test]
fn task_that_asks_for_it_runs_again_half_a_second_later() {
    let mut s = Server::new(InitEnvironment::new());
    for _ in 0..4 {
        s.advance_tick();
    }
    let n = s.ticks_passed;
    s.schedule_task(TaskAction::Script(1), ticks(0.0));
    let mut runs = Vec::new();
    for _ in 0..50 {
        while let Some(task) = s.get_next_scheduled_task() {
            runs.push(s.ticks_passed);
            s.schedule_task(task.task, ticks(0.5));
        }
        s.advance_tick();
    }
    assert_eq!(runs, vec![n, n + 15, n + 30, n + 45]);
}

#[test]
fn tasks_of_one_tick_run_in_the_order_of_their_scheduling() {
    let mut s = Server::new(InitEnvironment::new());
    s.schedule_task(TaskAction::Script(1), 1);
    s.get_chunk(ChunkPosition { x: 0, y: 0 }, 2);
    s.schedule_task(TaskAction::Script(2), 0);
    s.schedule_task(TaskAction::Script(3), 1);
    assert_eq!(
        s.get_next_scheduled_task().unwrap().task,
        TaskAction::LoadChunk(2, ChunkPosition { x: 0, y: 0 })
    );
    assert_eq!(s.get_next_scheduled_task().unwrap().task, TaskAction::Script(2));
    assert_eq!(s.get_next_scheduled_task(), None);
    s.advance_tick();
    assert_eq!(s.ticks_passed, 1);
    assert_eq!(s.get_next_scheduled_task().unwrap().task, TaskAction::Script(1));
    assert_eq!(s.get_next_scheduled_task().unwrap().task, TaskAction::Script(3));
    assert_eq!(s.get_next_scheduled_task(), None);
}

#[test]
fn clock_moves_by_one_tick() {
    let mut s = Server::new(InitEnvironment::new());
    assert_eq!(s.ticks_passed, 0);
    for i in 1..=100u32 {
        s.advance_tick();
        assert_eq!(s.ticks_passed, i);
    }
}

#[test]
fn loop_sleeps_until_the_tick_has_run_its_course() {
    assert_eq!(sleep_time(0, 0), 0);
    assert_eq!(sleep_time(1, 0), 33);
    assert_eq!(sleep_time(1, 10), 23);
    assert_eq!(sleep_time(1, 33), 0);
    assert_eq!(sleep_time(1, 5000), 0);
    assert_eq!(sleep_time(2, 0), 66);
    assert_eq!(sleep_time(3, 0), 100);
    assert_eq!(sleep_time(30, 1), 999);
    assert_eq!(sleep_time(u32::MAX, 0), 143165576500);
    for ticks in 0..200u32 {
        for elapsed in [0u64, 1, 17, 33, 34, 100, 6000, 7000] {
            let wanted = ticks as f64 * (1000.0 / TPS as f64) - elapsed as f64;
            let millis = if wanted > 0.0 { wanted as u64 } else { 0 };
            let got = sleep_time(ticks, elapsed);
            assert!(got == millis || got + 1 == millis || got == millis + 1);
        }
    }
}

#[test]
fn tick_hands_out_due_tasks_and_then_moves_the_clock_by_one() {
    let mut s = Server::new(InitEnvironment::new());
    assert_eq!(s.tick(TickEvent::Ready { elapsed: 0 }), TickAction::Sleep(0));
    assert_eq!(s.ticks_passed, 1);
    s.schedule_task(TaskAction::Script(1), 0);
    s.schedule_task(TaskAction::Script(2), 1);
    s.schedule_task(TaskAction::Script(3), 0);
    assert_eq!(
        s.tick(TickEvent::Ready { elapsed: 5 }),
        TickAction::Run(Task { run_on: 1, task: TaskAction::Script(1) })
    );
    assert_eq!(s.ticks_passed, 1);
    assert_eq!(s.tick(TickEvent::Ran { task: TaskAction::Script(1), again: None }), TickAction::Continue);
    assert_eq!(
        s.tick(TickEvent::Ready { elapsed: 6 }),
        TickAction::Run(Task { run_on: 1, task: TaskAction::Script(3) })
    );
    assert_eq!(
        s.tick(TickEvent::Ran { task: TaskAction::Script(3), again: Some(2) }),
        TickAction::Continue
    );
    assert_eq!(s.ticks_passed, 1);
    assert_eq!(s.task_queue.len(), 2);
    assert_eq!(s.tick(TickEvent::Ready { elapsed: 7 }), TickAction::Sleep(26));
    assert_eq!(s.ticks_passed, 2);
    assert_eq!(
        s.tick(TickEvent::Ready { elapsed: 40 }),
        TickAction::Run(Task { run_on: 2, task: TaskAction::Script(2) })
    );
    assert_eq!(s.tick(TickEvent::Ran { task: TaskAction::Script(2), again: None }), TickAction::Continue);
    assert_eq!(s.tick(TickEvent::Ready { elapsed: 70 }), TickAction::Sleep(0));
    assert_eq!(s.ticks_passed, 3);
    assert_eq!(
        s.tick(TickEvent::Ready { elapsed: 70 }),
        TickAction::Run(Task { run_on: 3, task: TaskAction::Script(3) })
    );
    assert_eq!(s.tick(TickEvent::Ready { elapsed: 70 }), TickAction::Sleep(30));
    assert_eq!(s.ticks_passed, 4);
    assert_eq!(s.task_queue.len(), 0);
}

#[test]
fn tick_reruns_a_task_every_fifteen_ticks() {
    let mut s = Server::new(InitEnvironment::new());
    for _ in 0..4 {
        s.advance_tick();
    }
    let n = s.ticks_passed;
    s.schedule_task(TaskAction::Script(9), ticks(0.0));
    let mut runs = Vec::new();
    let mut sleeps = Vec::new();
    while s.ticks_passed < n + 50 {
        match s.tick(TickEvent::Ready { elapsed: 0 }) {
            TickAction::Run(task) => {
                assert_eq!(task, Task { run_on: s.ticks_passed, task: TaskAction::Script(9) });
                runs.push(s.ticks_passed);
                let again = Some(ticks(0.5));
                assert_eq!(s.tick(TickEvent::Ran { task: task.task, again }), TickAction::Continue);
                assert_eq!(s.task_queue.len(), 1);
                assert_eq!(s.task_queue.peek().unwrap().run_on, s.ticks_passed + 15);
            }
            TickAction::Sleep(millis) => sleeps.push(millis),
            TickAction::Continue => {}
        }
    }
    assert_eq!(runs, vec![n, n + 15, n + 30, n + 45]);
    assert_eq!(sleeps.len(), 50);
    assert_eq!(sleeps[0], (n as u64) * 100 / 3);
    assert_eq!(sleeps[1], (n as u64 + 1) * 100 / 3);
}
