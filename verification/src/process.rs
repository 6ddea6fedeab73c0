//! Tasks and the round-robin scheduler.
use vstd::prelude::*;

verus! {

/// The state of a task slot.
#[derive(Copy, Clone, PartialEq, Eq, Structural)]
pub enum TaskState {
    Empty,
    Ready,
    Running,
    Blocked,
}

/// The registers saved across a context switch: return address, stack
/// pointer and the callee-saved registers `s0` to `s11`.
pub struct TaskContext {
    pub ra: usize,
    pub sp: usize,
    pub s: [usize; 12],
}

/// The size of a task's stack, in bytes.
pub const STACK_SIZE: usize = 8192;

/// A task: its saved context, its state and its stack.
pub struct TaskControlBlock {
    pub context: TaskContext,
    pub state: TaskState,
    pub stack: [u8; 8192],
}

/// The most tasks the manager holds.
pub const MAX_TASK_NUM: usize = 4;

/// The task slots, the running task and the number of slots in use.
pub struct TaskManager {
    pub tasks: [TaskControlBlock; 4],
    pub current_task: usize,
    pub task_num: usize,
}

impl TaskControlBlock {
    /// An empty slot: zero context, state `Empty`, zeroed stack.
    pub fn new() -> (t: Self)
        ensures
            t.context.ra == 0,
            t.context.sp == 0,
            forall|i: int| 0 <= i < 12 ==> t.context.s[i] == 0,
            t.state == TaskState::Empty,
            forall|i: int| 0 <= i < 8192 ==> t.stack[i] == 0,
    {
        TaskControlBlock {
            context: TaskContext { ra: 0, sp: 0, s: [0; 12] },
            state: TaskState::Empty,
            stack: [0; 8192],
        }
    }
}

impl TaskManager {
    /// The manager's invariant: at most `MAX_TASK_NUM` tasks, and the current
    /// task is one of them or task 0.
    pub open spec fn wf(&self) -> bool {
        &&& self.task_num <= MAX_TASK_NUM
        &&& (self.current_task == 0 || self.current_task < self.task_num)
    }

    /// A manager with four empty slots, no task, and task 0 as the current one.
    pub fn new() -> (m: Self)
        ensures
            m.wf(),
            m.task_num == 0,
            m.current_task == 0,
            forall|i: int|
                0 <= i < 4 ==> {
                    &&& m.tasks[i].state == TaskState::Empty
                    &&& m.tasks[i].context.ra == 0
                    &&& m.tasks[i].context.sp == 0
                    &&& forall|j: int| 0 <= j < 12 ==> m.tasks[i].context.s[j] == 0
                    &&& forall|j: int| 0 <= j < 8192 ==> m.tasks[i].stack[j] == 0
                },
    {
        TaskManager {
            tasks: [
                TaskControlBlock::new(),
                TaskControlBlock::new(),
                TaskControlBlock::new(),
                TaskControlBlock::new(),
            ],
            current_task: 0,
            task_num: 0,
        }
    }
}

/// The task `d` places after `cur` in round-robin order among `n` tasks.
pub open spec fn after(cur: int, d: int, n: int) -> int {
    (cur + d) % n
}

proof fn lemma_after(cur: int, d: int, n: int)
    requires
        2 <= n <= 4,
        0 <= cur < n,
        1 <= d <= n,
    ensures
        0 <= after(cur, d, n) < n,
        (after(cur, d, n) + 1) % n == after(cur, d + 1, n),
        (after(cur, d, n) == cur) <==> (d == n),
{
    let x = cur + d;
    if n == 2 {
        assert(after(cur, d, n) == x % 2);
        assert(after(cur, d + 1, n) == (x + 1) % 2);
        assert((x % 2 + 1) % 2 == (x + 1) % 2);
    } else if n == 3 {
        assert(after(cur, d, n) == x % 3);
        assert(after(cur, d + 1, n) == (x + 1) % 3);
        assert((x % 3 + 1) % 3 == (x + 1) % 3);
    } else {
        assert(after(cur, d, n) == x % 4);
        assert(after(cur, d + 1, n) == (x + 1) % 4);
        assert((x % 4 + 1) % 4 == (x + 1) % 4);
    }
}

/// Task `after(current, k)` is the first `Ready` task after the current one in
/// round-robin order.
pub open spec fn first_ready_at(m: &TaskManager, k: int) -> bool {
    let n = m.task_num as int;
    let cur = m.current_task as int;
    &&& 0 < k < n
    &&& m.tasks[after(cur, k, n)].state == TaskState::Ready
    &&& forall|d: int| 0 < d < k ==> #[trigger] m.tasks[after(cur, d, n)].state != TaskState::Ready
}

/// Adds a task that starts at `program`, in the first unused slot, with its
/// stack pointer at the top of the slot's stack, whose lowest address is
/// `stack_base`; the task is `Ready`. Nothing changes when all slots are in use.
pub fn add_task(manager: &mut TaskManager, program: usize, stack_base: usize)
    requires
        old(manager).task_num < MAX_TASK_NUM ==> stack_base + STACK_SIZE <= usize::MAX,
    ensures
        old(manager).wf() ==> final(manager).wf(),
        old(manager).task_num >= MAX_TASK_NUM ==> *final(manager) == *old(manager),
        old(manager).task_num < MAX_TASK_NUM ==> {
            let i = old(manager).task_num as int;
            &&& final(manager).task_num == old(manager).task_num + 1
            &&& final(manager).current_task == old(manager).current_task
            &&& final(manager).tasks[i].context.ra == program
            &&& final(manager).tasks[i].context.sp == stack_base + STACK_SIZE
            &&& final(manager).tasks[i].context.s == old(manager).tasks[i].context.s
            &&& final(manager).tasks[i].state == TaskState::Ready
            &&& final(manager).tasks[i].stack == old(manager).tasks[i].stack
            &&& forall|j: int| 0 <= j < 4 && j != i ==> final(manager).tasks[j] == old(manager).tasks[j]
        },
{
    if manager.task_num >= MAX_TASK_NUM {
        return ;
    }
    let index = manager.task_num;
    let stack_ptr: usize = stack_base + 8192;
    manager.tasks[index].context.ra = program;
    manager.tasks[index].context.sp = stack_ptr;
    manager.tasks[index].state = TaskState::Ready;
    manager.task_num += 1;
}

/// Chooses the next task: the first `Ready` task after the current one in
/// round-robin order. When there is one (and there are at least two tasks),
/// the current task goes from `Running` to `Ready` (any other state stays),
/// the chosen task becomes `Running` and current, and the indices of the old
/// and the new task are returned, for the context switch. Otherwise nothing
/// changes and the result is `None`.
pub fn schedule(manager: &mut TaskManager) -> (r: Option<(usize, usize)>)
    requires
        old(manager).task_num > 1 ==> old(manager).wf(),
    ensures
        old(manager).wf() ==> final(manager).wf(),
        final(manager).task_num == old(manager).task_num,
        ({
            let n = old(manager).task_num as int;
            let cur = old(manager).current_task as int;
            match r {
                None => {
                    &&& *final(manager) == *old(manager)
                    &&& n > 1 ==> forall|k: int|
                        0 < k < n ==> #[trigger] old(manager).tasks[after(cur, k, n)].state
                            != TaskState::Ready
                },
                Some((c, nx)) => {
                    &&& n > 1
                    &&& c == cur
                    &&& nx != cur
                    &&& exists|k: int| first_ready_at(old(manager), k) && nx == after(cur, k, n)
                    &&& final(manager).current_task == nx
                    &&& final(manager).tasks[nx as int].state == TaskState::Running
                    &&& final(manager).tasks[cur].state == if old(manager).tasks[cur].state
                        == TaskState::Running {
                        TaskState::Ready
                    } else {
                        old(manager).tasks[cur].state
                    }
                    &&& forall|j: int|
                        0 <= j < 4 && j != cur && j != nx ==> final(manager).tasks[j].state
                            == old(manager).tasks[j].state
                    &&& forall|j: int|
                        0 <= j < 4 ==> final(manager).tasks[j].context == old(
                            manager,
                        ).tasks[j].context && final(manager).tasks[j].stack == old(
                            manager,
                        ).tasks[j].stack
                },
            }
        }),
{
    if manager.task_num <= 1 {
        return None;
    }
    let current_index = manager.current_task;
    let n = manager.task_num;
    let mut next_index = (current_index + 1) % n;
    let ghost mut d: int = 1;
    proof {
        lemma_after(current_index as int, 1, n as int);
    }
    while manager.tasks[next_index].state != TaskState::Ready && next_index != current_index
        invariant
            n == manager.task_num,
            1 < n <= 4,
            current_index < n,
            manager == old(manager),
            1 <= d <= n,
            next_index == after(current_index as int, d, n as int),
            forall|e: int|
                0 < e < d ==> #[trigger] manager.tasks[after(
                    current_index as int,
                    e,
                    n as int,
                )].state != TaskState::Ready,
        decreases n - d,
    {
        proof {
            lemma_after(current_index as int, d, n as int);
        }
        next_index = (next_index + 1) % n;
        proof {
            d = d + 1;
        }
    }
    proof {
        lemma_after(current_index as int, d, n as int);
    }
    if next_index == current_index {
        return None;
    }
    proof {
        assert(first_ready_at(old(manager), d));
    }
    if manager.tasks[current_index].state == TaskState::Running {
        manager.tasks[current_index].state = TaskState::Ready;
    }
    manager.tasks[next_index].state = TaskState::Running;
    manager.current_task = next_index;
    Some((current_index, next_index))
}

/// Gives up the processor: the same as `schedule`.
pub fn yield_task(manager: &mut TaskManager) -> (r: Option<(usize, usize)>)
    requires
        old(manager).task_num > 1 ==> old(manager).wf(),
    ensures
        old(manager).wf() ==> final(manager).wf(),
        final(manager).task_num == old(manager).task_num,
        ({
            let n = old(manager).task_num as int;
            let cur = old(manager).current_task as int;
            match r {
                None => {
                    &&& *final(manager) == *old(manager)
                    &&& n > 1 ==> forall|k: int|
                        0 < k < n ==> #[trigger] old(manager).tasks[after(cur, k, n)].state
                            != TaskState::Ready
                },
                Some((c, nx)) => {
                    &&& n > 1
                    &&& c == cur
                    &&& nx != cur
                    &&& exists|k: int| first_ready_at(old(manager), k) && nx == after(cur, k, n)
                    &&& final(manager).current_task == nx
                    &&& final(manager).tasks[nx as int].state == TaskState::Running
                    &&& final(manager).tasks[cur].state == if old(manager).tasks[cur].state
                        == TaskState::Running {
                        TaskState::Ready
                    } else {
                        old(manager).tasks[cur].state
                    }
                    &&& forall|j: int|
                        0 <= j < 4 && j != cur && j != nx ==> final(manager).tasks[j].state
                            == old(manager).tasks[j].state
                    &&& forall|j: int|
                        0 <= j < 4 ==> final(manager).tasks[j].context == old(
                            manager,
                        ).tasks[j].context && final(manager).tasks[j].stack == old(
                            manager,
                        ).tasks[j].stack
                },
            }
        }),
{
    schedule(manager)
}

} // verus!
