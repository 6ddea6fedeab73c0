use rvkernel::process::{add_task, schedule, yield_task, TaskControlBlock, TaskManager, TaskState};

#[test]
fn new_control_block_is_empty() {
    let t = TaskControlBlock::new();
    assert_eq!(t.context.ra, 0);
    assert_eq!(t.context.sp, 0);
    assert!(t.context.s.iter().all(|&r| r == 0));
    assert!(t.state == TaskState::Empty);
    assert!(t.stack.iter().all(|&b| b == 0));
}

#[test]
fn add_task_fills_slots_in_order() {
    let mut m = TaskManager::new();
    add_task(&mut m, 0x1000, 0x10_0000);
    add_task(&mut m, 0x2000, 0x20_0000);
    assert_eq!(m.task_num, 2);
    assert_eq!(m.tasks[0].context.ra, 0x1000);
    assert_eq!(m.tasks[0].context.sp, 0x10_0000 + 8192);
    assert!(m.tasks[0].state == TaskState::Ready);
    assert_eq!(m.tasks[1].context.ra, 0x2000);
    assert_eq!(m.tasks[1].context.sp, 0x20_0000 + 8192);
    assert!(m.tasks[2].state == TaskState::Empty);
}

#[test]
fn add_task_ignores_fifth_task() {
    let mut m = TaskManager::new();
    for k in 0..4usize {
        add_task(&mut m, 0x1000 * (k + 1), 0x10_0000 * (k + 1));
    }
    assert_eq!(m.task_num, 4);
    add_task(&mut m, 0x9999, 0x99_0000);
    assert_eq!(m.task_num, 4);
    assert_eq!(m.tasks[3].context.ra, 0x4000);
}

#[test]
fn schedule_round_robin() {
    let mut m = TaskManager::new();
    add_task(&mut m, 0x1000, 0x10_0000);
    add_task(&mut m, 0x2000, 0x20_0000);
    add_task(&mut m, 0x3000, 0x30_0000);
    m.tasks[0].state = TaskState::Running;
    assert_eq!(schedule(&mut m), Some((0, 1)));
    assert_eq!(m.current_task, 1);
    assert!(m.tasks[0].state == TaskState::Ready);
    assert!(m.tasks[1].state == TaskState::Running);
    assert_eq!(schedule(&mut m), Some((1, 2)));
    assert_eq!(schedule(&mut m), Some((2, 0)));
    assert!(m.tasks[2].state == TaskState::Ready);
}

#[test]
fn schedule_skips_tasks_that_are_not_ready() {
    let mut m = TaskManager::new();
    add_task(&mut m, 0x1000, 0x10_0000);
    add_task(&mut m, 0x2000, 0x20_0000);
    add_task(&mut m, 0x3000, 0x30_0000);
    m.tasks[0].state = TaskState::Running;
    m.tasks[1].state = TaskState::Blocked;
    assert_eq!(schedule(&mut m), Some((0, 2)));
    assert!(m.tasks[1].state == TaskState::Blocked);
}

#[test]
fn schedule_without_other_ready_task_changes_nothing() {
    let mut m = TaskManager::new();
    add_task(&mut m, 0x1000, 0x10_0000);
    add_task(&mut m, 0x2000, 0x20_0000);
    m.tasks[0].state = TaskState::Running;
    m.tasks[1].state = TaskState::Blocked;
    assert_eq!(schedule(&mut m), None);
    assert_eq!(m.current_task, 0);
    assert!(m.tasks[0].state == TaskState::Running);
}

#[test]
fn schedule_with_one_task_does_nothing() {
    let mut m = TaskManager::new();
    assert_eq!(schedule(&mut m), None);
    add_task(&mut m, 0x1000, 0x10_0000);
    assert_eq!(schedule(&mut m), None);
    assert_eq!(m.current_task, 0);
}

#[test]
fn yield_task_schedules() {
    let mut m = TaskManager::new();
    add_task(&mut m, 0x1000, 0x10_0000);
    add_task(&mut m, 0x2000, 0x20_0000);
    // A blocked current task stays blocked.
    m.tasks[0].state = TaskState::Blocked;
    assert_eq!(yield_task(&mut m), Some((0, 1)));
    assert!(m.tasks[0].state == TaskState::Blocked);
    assert!(m.tasks[1].state == TaskState::Running);
}

#[test]
fn schedule_with_one_task_ignores_current_index() {
    let mut m = TaskManager::new();
    add_task(&mut m, 0x1000, 0x10_0000);
    m.current_task = 3;
    assert_eq!(schedule(&mut m), None);
    assert_eq!(m.current_task, 3);
}
