//! The task table and the scheduler: which task runs, round-robin selection of
//! the next one, and the lifecycle operations (spawn, fork, exec, exit, wait).
//! Performing a context switch is the caller's part; these functions decide
//! and record it.
use vstd::arithmetic::div_mod::{lemma_mod_add_multiples_vanish, lemma_mod_pos_bound, lemma_small_mod};
use vstd::prelude::*;

use crate::frame_allocator::{FrameAllocState, StackFrameAllocator};
use crate::loader::{image_layout, load_error, user_stack_top, LoadError, ProgramImage};
use crate::memory_set::{framed_in, free_frames, given_back, handed_out, layout_of, MapError, MemorySet, MemorySetView};
use crate::task::{
    kernel_stack_position, kstack_top, TaskContext, TaskControlBlock, TaskStatus, TaskView,
    TrapFrame, MAX_TASKS, REG_RET, REG_SP,
};

verus! {

/// Errors of the task operations.
#[derive(Debug, Clone, Copy, PartialEq, Eq, Structural)]
pub enum TaskError {
    /// The program image could not be loaded.
    Load(LoadError),
    /// Not enough free frames.
    NoMemory,
    /// The task table is full.
    TooManyTasks,
    /// No live task has that pid.
    NoSuchTask,
}

/// Why `waitpid` returned no exit code.
#[derive(Debug, Clone, Copy, PartialEq, Eq, Structural)]
pub enum WaitError {
    /// No child matches.
    NoChild,
    /// Children match, none has exited yet.
    NotExited,
}

/// The processor: the task it runs and the context of its idle loop.
pub struct Processor {
    current: Option<usize>,
    idle_task_cx: TaskContext,
}

impl Processor {
    /// A processor that runs no task.
    pub fn new() -> (r: Self)
        ensures
            r.current_spec() is None,
            r.idle_spec() == (TaskContext { ra: 0, sp: 0 }),
    {
        Processor { current: None, idle_task_cx: TaskContext::blank() }
    }

    /// The task it runs.
    pub closed spec fn current_spec(&self) -> Option<usize> {
        self.current
    }

    /// The task it runs, which it then runs no more.
    pub fn take_current(&mut self) -> (r: Option<usize>)
        ensures
            r == old(self).current_spec(),
            final(self).current_spec() is None,
    {
        self.current.take()
    }

    /// The task it runs.
    pub fn current(&self) -> (r: Option<usize>)
        ensures
            r == self.current_spec(),
    {
        self.current
    }

    /// The saved context of the idle loop.
    pub closed spec fn idle_spec(&self) -> TaskContext {
        self.idle_task_cx
    }

    /// The saved context of the idle loop, which a blocking task switches to.
    pub fn idle_task_cx(&self) -> (r: TaskContext)
        ensures
            r == self.idle_spec(),
    {
        self.idle_task_cx
    }
}

/// The task table as a mathematical value.
pub struct TaskManagerView {
    pub frames: FrameAllocState,
    pub tasks: Seq<Option<TaskView>>,
    pub current: Option<usize>,
    /// Where the search for the next task starts, modulo the table's length.
    pub cursor: usize,
    /// Kernel address every new task starts at.
    pub entry: usize,
}

/// Slot `i` holds a task in state `s`.
pub open spec fn has_status(tasks: Seq<Option<TaskView>>, i: int, s: TaskStatus) -> bool {
    0 <= i < tasks.len() && tasks[i] is Some && tasks[i].unwrap().status == s
}

/// Task `i` owns frame `q`.
pub open spec fn owner(tasks: Seq<Option<TaskView>>, i: int, q: usize) -> bool {
    0 <= i < tasks.len() && tasks[i] is Some && tasks[i].unwrap().memory is Some
        && tasks[i].unwrap().memory.unwrap().owns(q)
}

/// The first ready slot among `start + k, start + k + 1, ...`, cyclically,
/// before `start` is reached again.
pub open spec fn scan_from(tasks: Seq<Option<TaskView>>, start: int, k: int) -> Option<usize>
    decreases tasks.len() - k,
{
    if k < 0 || k >= tasks.len() {
        None
    } else if has_status(tasks, (start + k) % (tasks.len() as int), TaskStatus::Ready) {
        Some(((start + k) % (tasks.len() as int)) as usize)
    } else {
        scan_from(tasks, start, k + 1)
    }
}

impl TaskManagerView {
    /// The invariant of the task table.
    pub open spec fn wf(self) -> bool {
        &&& self.frames.wf()
        &&& self.tasks.len() <= MAX_TASKS
        &&& forall|i: int|
            0 <= i < self.tasks.len() && (#[trigger] self.tasks[i]) is Some ==> {
                let t = self.tasks[i].unwrap();
                &&& t.pid == i
                &&& (t.status == TaskStatus::Zombie <==> t.memory is None)
                &&& t.memory matches Some(m) ==> m.wf() && m.live_in(self.frames)
            }
        &&& forall|i: int, j: int, q: usize|
            #[trigger] owner(self.tasks, i, q) && #[trigger] owner(self.tasks, j, q) ==> i == j
        &&& forall|i: int|
            #[trigger] has_status(self.tasks, i, TaskStatus::Running) ==> self.current == Some(
                i as usize,
            )
        &&& self.current matches Some(c) ==> has_status(self.tasks, c as int, TaskStatus::Running)
        &&& self.current matches Some(c) ==> self.cursor == c + 1
    }

    /// The next task to run: the first ready one in round-robin order from the cursor.
    pub open spec fn next_ready(self) -> Option<usize> {
        if self.tasks.len() == 0 {
            None
        } else {
            scan_from(self.tasks, self.cursor as int % self.tasks.len() as int, 0)
        }
    }

    /// The table after `switch_to(next)`.
    pub open spec fn switched(self, next: usize) -> TaskManagerView {
        TaskManagerView {
            tasks: self.tasks.update(
                next as int,
                Some(TaskView { status: TaskStatus::Running, ..self.tasks[next as int].unwrap() }),
            ),
            current: Some(next),
            cursor: (next + 1) as usize,
            ..self
        }
    }

    /// The table after the running task is suspended.
    pub open spec fn suspended(self) -> TaskManagerView {
        match self.current {
            Some(c) => TaskManagerView {
                tasks: self.tasks.update(
                    c as int,
                    Some(TaskView { status: TaskStatus::Ready, ..self.tasks[c as int].unwrap() }),
                ),
                current: None,
                ..self
            },
            None => self,
        }
    }
}

/// Zombies stay zombies until they are reaped.
pub open spec fn zombies_stay(before: Seq<Option<TaskView>>, after: Seq<Option<TaskView>>) -> bool {
    forall|i: int|
        #[trigger] has_status(before, i, TaskStatus::Zombie) ==> has_status(after, i, TaskStatus::Zombie)
            || (0 <= i < after.len() && after[i] is None)
}

/// The two slots hold tasks alike in all the invariant looks at: pid,
/// status and address space.
pub open spec fn same_shape(a: Option<TaskView>, b: Option<TaskView>) -> bool {
    &&& a is Some == b is Some
    &&& a is Some ==> {
        &&& a.unwrap().pid == b.unwrap().pid
        &&& a.unwrap().status == b.unwrap().status
        &&& a.unwrap().memory == b.unwrap().memory
    }
}

/// The invariant survives a change of slot `i` (or a new slot `i` at the
/// end) when its new frames were free or its own, and the frames of every
/// other task stay handed out.
proof fn lemma_table_change(v: TaskManagerView, w: TaskManagerView, i: int)
    requires
        v.wf(),
        w.frames.wf(),
        w.tasks.len() <= MAX_TASKS,
        w.tasks.len() == v.tasks.len() || (w.tasks.len() == v.tasks.len() + 1 && i == v.tasks.len()),
        0 <= i < w.tasks.len(),
        forall|j: int| 0 <= j < v.tasks.len() && j != i ==> same_shape(#[trigger] w.tasks[j], v.tasks[j]),
        w.tasks[i] matches Some(t) ==> {
            &&& t.pid == i
            &&& (t.status == TaskStatus::Zombie <==> t.memory is None)
            &&& t.memory matches Some(m) ==> {
                &&& m.wf()
                &&& m.live_in(w.frames)
                &&& forall|q: usize| #[trigger] m.owns(q) ==> !v.frames.live(q) || owner(v.tasks, i, q)
            }
        },
        forall|j: int, q: usize| j != i && #[trigger] owner(v.tasks, j, q) ==> w.frames.live(q),
        forall|j: int|
            #[trigger] has_status(w.tasks, j, TaskStatus::Running) ==> w.current == Some(j as usize),
        w.current matches Some(c) ==> has_status(w.tasks, c as int, TaskStatus::Running),
        w.current matches Some(c) ==> w.cursor == c + 1,
    ensures
        w.wf(),
{
    assert forall|j: int| 0 <= j < w.tasks.len() && (#[trigger] w.tasks[j]) is Some implies {
        let t = w.tasks[j].unwrap();
        &&& t.pid == j
        &&& (t.status == TaskStatus::Zombie <==> t.memory is None)
        &&& t.memory matches Some(m) ==> m.wf() && m.live_in(w.frames)
    } by {
        if j != i {
            assert(same_shape(w.tasks[j], v.tasks[j]));
            let t = w.tasks[j].unwrap();
            assert(v.tasks[j] is Some);
            if t.memory is Some {
                let m = t.memory.unwrap();
                assert(owner(v.tasks, j, m.root));
                assert forall|k: int| 0 <= k < m.pages.len() && (#[trigger] m.pages[k]).framed implies w.frames.live(m.pages[k].ppn) by {
                    assert(m.owns(m.pages[k].ppn));
                    assert(owner(v.tasks, j, m.pages[k].ppn));
                };
            }
        }
    };
    assert forall|j: int, k: int, q: usize|
        #[trigger] owner(w.tasks, j, q) && #[trigger] owner(w.tasks, k, q) implies j == k by {
        if j != i && k != i {
            assert(same_shape(w.tasks[j], v.tasks[j]));
            assert(same_shape(w.tasks[k], v.tasks[k]));
            assert(owner(v.tasks, j, q));
            assert(owner(v.tasks, k, q));
        } else if j == i && k != i {
            assert(same_shape(w.tasks[k], v.tasks[k]));
            assert(owner(v.tasks, k, q));
            lemma_owner_live(v, k, q);
        } else if k == i && j != i {
            assert(same_shape(w.tasks[j], v.tasks[j]));
            assert(owner(v.tasks, j, q));
            lemma_owner_live(v, j, q);
        }
    };
}

/// A frame a task owns is handed out.
proof fn lemma_owner_live(v: TaskManagerView, j: int, q: usize)
    requires
        v.wf(),
        owner(v.tasks, j, q),
    ensures
        v.frames.live(q),
{
    let m = v.tasks[j].unwrap().memory.unwrap();
    assert(v.tasks[j] is Some);
    if q != m.root {
        let k = choose|k: int| 0 <= k < m.pages.len() && (#[trigger] m.pages[k]).framed && m.pages[k].ppn == q;
    }
}

/// The table after task `c` exits with `code`: it becomes a zombie without
/// an address space, and its children become children of its parent.
pub open spec fn exited_tasks(tasks: Seq<Option<TaskView>>, c: int, code: i32) -> Seq<Option<TaskView>> {
    let t = tasks[c].unwrap();
    Seq::new(
        tasks.len(),
        |j: int|
            if j == c {
                Some(TaskView { status: TaskStatus::Zombie, memory: None, exit_code: code, ..t })
            } else {
                match tasks[j] {
                    Some(u) => if u.parent == Some(c as usize) {
                        Some(TaskView { parent: t.parent, ..u })
                    } else {
                        Some(u)
                    },
                    None => None,
                }
            },
    )
}

/// The table after the running task, if any, exits with `code`.
pub open spec fn after_exit(v: TaskManagerView, code: i32) -> Seq<Option<TaskView>> {
    match v.current {
        Some(c) => exited_tasks(v.tasks, c as int, code),
        None => v.tasks,
    }
}

/// The table with the task in slot `i` running.
pub open spec fn running_at(tasks: Seq<Option<TaskView>>, i: int) -> Seq<Option<TaskView>> {
    tasks.update(i, Some(TaskView { status: TaskStatus::Running, ..tasks[i].unwrap() }))
}

/// Slot `j` holds a child of `parent` that `target` selects (any child when `None`).
pub open spec fn is_child(tasks: Seq<Option<TaskView>>, parent: usize, target: Option<usize>, j: int) -> bool {
    &&& 0 <= j < tasks.len()
    &&& tasks[j] is Some
    &&& tasks[j].unwrap().parent == Some(parent)
    &&& (target is None || target == Some(j as usize))
}

/// The lowest slot from `k` on holding a selected child that is a zombie.
pub open spec fn first_zombie_child(tasks: Seq<Option<TaskView>>, parent: usize, target: Option<usize>, k: int) -> Option<usize>
    decreases tasks.len() - k,
{
    if k < 0 || k >= tasks.len() {
        None
    } else if is_child(tasks, parent, target, k) && tasks[k].unwrap().status == TaskStatus::Zombie {
        Some(k as usize)
    } else {
        first_zombie_child(tasks, parent, target, k + 1)
    }
}

/// The task a fresh program image becomes.
pub open spec fn spawned_task(t: TaskView, pid: usize, img: ProgramImage, entry: usize) -> bool {
    &&& t.pid == pid
    &&& t.status == TaskStatus::Ready
    &&& t.trap_cx.sepc == img.entry
    &&& t.trap_cx.regs@ == Seq::new(32, |i: int| if i == REG_SP { user_stack_top(img) as usize } else { 0usize })
    &&& t.task_cx == TaskContext { ra: entry, sp: kstack_top(pid as int) as usize }
    &&& t.memory matches Some(m) && layout_of(m.pages) == image_layout(img)
    &&& t.exit_code == 0
}

/// The table keeps which frames are handed out.
proof fn lemma_same_live(v: TaskManagerView, w: TaskManagerView)
    requires
        v.wf(),
        w.frames.wf(),
        w.tasks == v.tasks,
        w.current == v.current,
        w.cursor == v.cursor,
        forall|q: usize| #[trigger] w.frames.live(q) == v.frames.live(q),
    ensures
        w.wf(),
{
    if v.tasks.len() > 0 {
        assert forall|j: int, q: usize| j != 0 && #[trigger] owner(v.tasks, j, q) implies w.frames.live(q) by {
            lemma_owner_live(v, j, q);
        };
        if let Some(t) = v.tasks[0] {
            if let Some(m) = t.memory {
                assert forall|k: int| 0 <= k < m.pages.len() && (#[trigger] m.pages[k]).framed implies w.frames.live(m.pages[k].ppn) by {
                    assert(v.frames.live(m.pages[k].ppn));
                };
                assert(m.live_in(w.frames));
            }
        }
        lemma_table_change(v, w, 0);
    }
}

/// The task table, the frame allocator and the processor.
pub struct TaskManager {
    frames: StackFrameAllocator,
    tasks: Vec<Option<TaskControlBlock>>,
    processor: Processor,
    cursor: usize,
    entry: usize,
}

/// A slot of the table as a mathematical value.
pub open spec fn slot_view(o: Option<TaskControlBlock>) -> Option<TaskView> {
    match o {
        Some(t) => Some(t@),
        None => None,
    }
}

impl View for TaskManager {
    type V = TaskManagerView;

    closed spec fn view(&self) -> TaskManagerView {
        TaskManagerView {
            frames: self.frames@,
            tasks: self.tasks@.map_values(|o: Option<TaskControlBlock>| slot_view(o)),
            current: self.processor.current,
            cursor: self.cursor,
            entry: self.entry,
        }
    }
}

impl TaskManager {
    /// An empty task table over an allocator; new tasks start at the kernel
    /// address `entry`.
    pub fn new(frames: StackFrameAllocator, entry: usize) -> (r: Self)
        requires
            frames.wf(),
        ensures
            r@.wf(),
            r@.frames == frames@,
            r@.tasks.len() == 0,
            r@.current is None,
            r@.cursor == 0,
            r@.entry == entry,
    {
        let r = TaskManager { frames, tasks: Vec::new(), processor: Processor::new(), cursor: 0, entry };
        assert(r@.tasks =~= Seq::empty());
        r
    }

    /// Number of slots of the task table.
    pub fn num_slots(&self) -> (r: usize)
        ensures
            r == self@.tasks.len(),
    {
        self.tasks.len()
    }

    /// The running task.
    pub fn current_task(&self) -> (r: Option<usize>)
        ensures
            r == self@.current,
    {
        self.processor.current()
    }

    /// Status of task `pid`, if it exists.
    pub fn status(&self, pid: usize) -> (r: Option<TaskStatus>)
        ensures
            r == (if pid < self@.tasks.len() && self@.tasks[pid as int] is Some {
                Some(self@.tasks[pid as int].unwrap().status)
            } else {
                None
            }),
    {
        if pid < self.tasks.len() {
            match &self.tasks[pid] {
                Some(t) => Some(t.task_status),
                None => None,
            }
        } else {
            None
        }
    }

    /// Exit code of task `pid`, if it is a zombie.
    pub fn exit_code(&self, pid: usize) -> (r: Option<i32>)
        ensures
            r == (if has_status(self@.tasks, pid as int, TaskStatus::Zombie) {
                Some(self@.tasks[pid as int].unwrap().exit_code)
            } else {
                None
            }),
    {
        if pid < self.tasks.len() {
            match &self.tasks[pid] {
                Some(t) => if t.task_status == TaskStatus::Zombie {
                    Some(t.exit_code)
                } else {
                    None
                },
                None => None,
            }
        } else {
            None
        }
    }

    /// The page-table root of the running task's address space.
    pub fn current_user_token(&self) -> (r: Option<usize>)
        requires
            self@.wf(),
        ensures
            r == (match self@.current {
                Some(c) => Some(self@.tasks[c as int].unwrap().memory.unwrap().root),
                None => None::<usize>,
            }),
    {
        match self.processor.current() {
            Some(c) => match &self.tasks[c] {
                Some(t) => t.get_user_token(),
                None => None,
            },
            None => None,
        }
    }

    /// The next task to run: the first ready task in round-robin order,
    /// starting after the one that ran last; `None` when no task is ready.
    pub fn find_next_task(&self) -> (r: Option<usize>)
        requires
            self@.wf(),
        ensures
            r == self@.next_ready(),
    {
        let n = self.tasks.len();
        if n == 0 {
            return None;
        }
        let start = self.cursor % n;
        let ghost tv = self@.tasks;
        assert(self@.next_ready() == scan_from(tv, start as int, 0));
        let mut k: usize = 0;
        while k < n
            invariant
                n == tv.len(),
                tv == self@.tasks,
                n <= MAX_TASKS,
                start < n,
                k <= n,
                scan_from(tv, start as int, 0) == scan_from(tv, start as int, k as int),
                self@.next_ready() == scan_from(tv, start as int, 0),
            decreases n - k,
        {
            let i = (start + k) % n;
            let ready = match &self.tasks[i] {
                Some(t) => t.task_status == TaskStatus::Ready,
                None => false,
            };
            assert(ready == has_status(tv, i as int, TaskStatus::Ready));
            if ready {
                assert(scan_from(tv, start as int, k as int) == Some(i));
                return Some(i);
            }
            k += 1;
        }
        None
    }
}

impl TaskManager {
    /// Sets the status of the task in slot `i`.
    fn set_status(&mut self, i: usize, st: TaskStatus)
        requires
            i < old(self)@.tasks.len(),
            old(self)@.tasks[i as int] is Some,
        ensures
            final(self)@ == (TaskManagerView {
                tasks: old(self)@.tasks.update(
                    i as int,
                    Some(TaskView { status: st, ..old(self)@.tasks[i as int].unwrap() }),
                ),
                ..old(self)@
            }),
    {
        let slot = &mut self.tasks[i];
        if let Some(t) = slot {
            t.task_status = st;
        }
        proof {
            assert(self@.tasks =~= old(self)@.tasks.update(
                i as int,
                Some(TaskView { status: st, ..old(self)@.tasks[i as int].unwrap() }),
            ));
        }
    }

    /// Records that the processor runs `next` from now on and returns what
    /// the switch into it needs: its saved kernel context and its page-table
    /// root. Only a ready task may be switched into.
    pub fn switch_to(&mut self, next: usize) -> (r: (TaskContext, usize))
        requires
            old(self)@.wf(),
            old(self)@.current is None,
            has_status(old(self)@.tasks, next as int, TaskStatus::Ready),
        ensures
            final(self)@.wf(),
            final(self)@ == old(self)@.switched(next),
            r.0 == old(self)@.tasks[next as int].unwrap().task_cx,
            r.1 == old(self)@.tasks[next as int].unwrap().memory.unwrap().root,
            zombies_stay(old(self)@.tasks, final(self)@.tasks),
    {
        let ghost v = self@;
        self.set_status(next, TaskStatus::Running);
        self.processor.current = Some(next);
        self.cursor = next + 1;
        proof {
            assert(self@ == v.switched(next));
            assert forall|j: int| 0 <= j < v.tasks.len() && j != next implies same_shape(#[trigger] self@.tasks[j], v.tasks[j]) by {};
            assert forall|j: int, q: usize| j != next && #[trigger] owner(v.tasks, j, q) implies self@.frames.live(q) by {
                lemma_owner_live(v, j, q);
            };
            assert forall|j: int| #[trigger] has_status(self@.tasks, j, TaskStatus::Running) implies self@.current == Some(j as usize) by {
                if j != next {
                    assert(has_status(v.tasks, j, TaskStatus::Running));
                }
            };
            assert forall|q: usize| #[trigger] v.tasks[next as int].unwrap().memory.unwrap().owns(q) implies
                !v.frames.live(q) || owner(v.tasks, next as int, q) by {};
            lemma_table_change(v, self@, next as int);
        }
        let t = match &self.tasks[next] {
            Some(t) => t,
            None => {
                return (TaskContext::blank(), 0);
            },
        };
        let token = match &t.memory_set {
            Some(m) => m.token(),
            None => 0,
        };
        (t.task_cx, token)
    }

    /// The running task becomes ready again and the processor runs none.
    pub fn suspend_current(&mut self)
        requires
            old(self)@.wf(),
        ensures
            final(self)@.wf(),
            final(self)@ == old(self)@.suspended(),
            zombies_stay(old(self)@.tasks, final(self)@.tasks),
    {
        let ghost v = self@;
        match self.processor.take_current() {
            Some(c) => {
                self.set_status(c, TaskStatus::Ready);
                proof {
                    assert(self@ == v.suspended());
                    assert forall|j: int| 0 <= j < v.tasks.len() && j != c implies same_shape(#[trigger] self@.tasks[j], v.tasks[j]) by {};
                    assert forall|j: int, q: usize| j != c && #[trigger] owner(v.tasks, j, q) implies self@.frames.live(q) by {
                        lemma_owner_live(v, j, q);
                    };
                    assert forall|j: int| #[trigger] has_status(self@.tasks, j, TaskStatus::Running) implies self@.current == Some(j as usize) by {
                        if j != c {
                            assert(has_status(v.tasks, j, TaskStatus::Running));
                        }
                    };
                    assert forall|q: usize| #[trigger] v.tasks[c as int].unwrap().memory.unwrap().owns(q) implies
                        !v.frames.live(q) || owner(v.tasks, c as int, q) by {};
                    lemma_table_change(v, self@, c as int);
                }
            },
            None => {},
        }
    }

    /// Suspends the running task and switches to the next ready one, which
    /// may be the same task; `None` when no task is ready.
    pub fn suspend_current_and_run_next(&mut self) -> (r: Option<(usize, TaskContext, usize)>)
        requires
            old(self)@.wf(),
        ensures
            final(self)@.wf(),
            zombies_stay(old(self)@.tasks, final(self)@.tasks),
            r is Some <==> old(self)@.suspended().next_ready() is Some,
            r matches Some(t) ==> Some(t.0) == old(self)@.suspended().next_ready()
                && final(self)@ == old(self)@.suspended().switched(t.0),
            r matches Some(t) ==> t.1 == old(self)@.tasks[t.0 as int].unwrap().task_cx
                && t.2 == old(self)@.tasks[t.0 as int].unwrap().memory.unwrap().root,
            r is None ==> final(self)@ == old(self)@.suspended(),
    {
        self.suspend_current();
        let ghost mid = self@;
        let r = self.run_next_task();
        proof {
            if let Some(t) = r {
                lemma_next_ready_is_ready(mid);
                assert(mid.tasks[t.0 as int].unwrap().task_cx == old(self)@.tasks[t.0 as int].unwrap().task_cx);
                assert(mid.tasks[t.0 as int].unwrap().memory == old(self)@.tasks[t.0 as int].unwrap().memory);
            }
        }
        r
    }

    /// Switches to the next ready task when the processor runs none.
    pub fn run_next_task(&mut self) -> (r: Option<(usize, TaskContext, usize)>)
        requires
            old(self)@.wf(),
        ensures
            final(self)@.wf(),
            zombies_stay(old(self)@.tasks, final(self)@.tasks),
            old(self)@.current is Some ==> r is None && final(self)@ == old(self)@,
            old(self)@.current is None ==> {
                &&& r is Some <==> old(self)@.next_ready() is Some
                &&& r matches Some(t) ==> Some(t.0) == old(self)@.next_ready()
                    && final(self)@ == old(self)@.switched(t.0)
                &&& r matches Some(t) ==> t.1 == old(self)@.tasks[t.0 as int].unwrap().task_cx
                    && t.2 == old(self)@.tasks[t.0 as int].unwrap().memory.unwrap().root
                &&& r is None ==> final(self)@ == old(self)@
            },
    {
        if self.processor.current().is_some() {
            return None;
        }
        match self.find_next_task() {
            Some(next) => {
                proof {
                    lemma_next_ready_is_ready(self@);
                }
                let (cx, token) = self.switch_to(next);
                Some((next, cx, token))
            },
            None => None,
        }
    }
}

/// What `next_ready` picks is a ready slot, and it picks one whenever a slot is ready.
pub proof fn lemma_next_ready_is_ready(v: TaskManagerView)
    requires
        v.tasks.len() <= MAX_TASKS,
    ensures
        v.next_ready() matches Some(i) ==> has_status(v.tasks, i as int, TaskStatus::Ready),
        v.next_ready() is None <==> forall|i: int| !#[trigger] has_status(v.tasks, i, TaskStatus::Ready),
{
    if v.tasks.len() > 0 {
        let n = v.tasks.len() as int;
        let start = v.cursor as int % n;
        lemma_scan_from(v.tasks, start, 0);
    }
}

proof fn lemma_scan_from(tasks: Seq<Option<TaskView>>, start: int, k: int)
    requires
        0 < tasks.len() <= MAX_TASKS,
        0 <= start < tasks.len(),
        0 <= k <= tasks.len(),
    ensures
        scan_from(tasks, start, k) matches Some(i) ==> has_status(tasks, i as int, TaskStatus::Ready),
        scan_from(tasks, start, k) is None <==> forall|j: int|
            k <= j < tasks.len() ==> !#[trigger] has_status(tasks, (start + j) % (tasks.len() as int), TaskStatus::Ready),
        k == 0 ==> (scan_from(tasks, start, k) is None <==> forall|i: int| !#[trigger] has_status(tasks, i, TaskStatus::Ready)),
    decreases tasks.len() - k,
{
    let n = tasks.len() as int;
    if k < n {
        lemma_scan_from(tasks, start, k + 1);
        lemma_mod_pos_bound(start + k, n);
    }
    if k == 0 && scan_from(tasks, start, k) is None {
        assert forall|i: int| !#[trigger] has_status(tasks, i, TaskStatus::Ready) by {
            if 0 <= i < n {
                let j = if i >= start { i - start } else { i - start + n };
                if i >= start {
                    lemma_small_mod(i as nat, n as nat);
                } else {
                    lemma_small_mod(i as nat, n as nat);
                    lemma_mod_add_multiples_vanish(i, n);
                }
                assert((start + j) % n == i);
                assert(!has_status(tasks, (start + j) % n, TaskStatus::Ready));
            }
        };
    }
}

impl TaskManager {
    /// The running task exits with `code`: it becomes a zombie, gives its
    /// frames back and hands its children to its own parent; the processor
    /// then runs no task. Returns whether a task was running.
    pub fn exit_current(&mut self, code: i32) -> (r: bool)
        requires
            old(self)@.wf(),
        ensures
            final(self)@.wf(),
            zombies_stay(old(self)@.tasks, final(self)@.tasks),
            r == old(self)@.current is Some,
            !r ==> final(self)@ == old(self)@,
            r ==> {
                let c = old(self)@.current.unwrap() as int;
                &&& final(self)@.tasks == exited_tasks(old(self)@.tasks, c, code)
                &&& final(self)@.current is None
                &&& final(self)@.cursor == old(self)@.cursor
                &&& final(self)@.entry == old(self)@.entry
                &&& given_back(old(self)@.frames, final(self)@.frames, old(self)@.tasks[c].unwrap().memory.unwrap())
            },
    {
        let ghost v = self@;
        let c = match self.processor.take_current() {
            Some(c) => c,
            None => {
                return false;
            },
        };
        let ghost tc = v.tasks[c as int].unwrap();
        let ghost mc = tc.memory.unwrap();
        let mut mem: Option<MemorySet> = None;
        let mut grand: Option<usize> = None;
        let slot = &mut self.tasks[c];
        if let Some(t) = slot {
            t.task_status = TaskStatus::Zombie;
            t.exit_code = code;
            mem = t.memory_set.take();
            grand = t.parent;
        }
        assert(grand == tc.parent);
        match mem {
            Some(m) => {
                assert(m@ == mc);
                m.recycle(&mut self.frames);
            },
            None => {},
        }
        let ghost target = exited_tasks(v.tasks, c as int, code);
        let n = self.tasks.len();
        let mut j: usize = 0;
        while j < n
            invariant
                n == v.tasks.len(),
                self@.tasks.len() == n,
                c < n,
                j <= n,
                grand == tc.parent,
                tc == v.tasks[c as int].unwrap(),
                v.tasks[c as int] is Some,
                target == exited_tasks(v.tasks, c as int, code),
                self@.tasks[c as int] == target[c as int],
                forall|k: int| 0 <= k < j ==> self@.tasks[k] == target[k],
                forall|k: int| j <= k < n && k != c ==> self@.tasks[k] == v.tasks[k],
                self@.current is None,
                self@.cursor == v.cursor,
                self@.entry == v.entry,
                self@.frames.wf(),
                given_back(v.frames, self@.frames, v.tasks[c as int].unwrap().memory.unwrap()),
                v.wf(),
                v.current == Some(c),
            decreases n - j,
        {
            let ghost before = self@.tasks;
            if j != c {
                let slot = &mut self.tasks[j];
                if let Some(u) = slot {
                    if u.parent == Some(c) {
                        u.parent = grand;
                    }
                }
            }
            proof {
                assert forall|k: int| 0 <= k < n && k != j implies self@.tasks[k] == before[k] by {};
                assert(self@.tasks[j as int] == target[j as int]);
            }
            j += 1;
        }
        proof {
            assert(self@.tasks =~= target);
            assert forall|k: int| 0 <= k < v.tasks.len() && k != c implies same_shape(#[trigger] self@.tasks[k], v.tasks[k]) by {};
            assert forall|k: int, q: usize| k != c && #[trigger] owner(v.tasks, k, q) implies self@.frames.live(q) by {
                lemma_owner_live(v, k, q);
                if mc.owns(q) {
                    assert(owner(v.tasks, c as int, q));
                }
            };
            assert forall|k: int| #[trigger] has_status(self@.tasks, k, TaskStatus::Running) implies self@.current == Some(k as usize) by {
                if k != c {
                    assert(has_status(v.tasks, k, TaskStatus::Running));
                }
            };
            lemma_table_change(v, self@, c as int);
        }
        true
    }

    /// Exits the running task with `code` and switches to the next ready
    /// task; `None` when no task is ready, where the kernel shuts down.
    pub fn exit_current_and_run_next(&mut self, code: i32) -> (r: Option<(usize, TaskContext, usize)>)
        requires
            old(self)@.wf(),
        ensures
            final(self)@.wf(),
            zombies_stay(old(self)@.tasks, final(self)@.tasks),
            r matches Some(t) ==> has_status(final(self)@.tasks, t.0 as int, TaskStatus::Running)
                && final(self)@.current == Some(t.0),
            r is None ==> final(self)@.current is None && forall|i: int|
                !#[trigger] has_status(final(self)@.tasks, i, TaskStatus::Ready),
            old(self)@.current matches Some(c) ==> has_status(final(self)@.tasks, c as int, TaskStatus::Zombie)
                && final(self)@.tasks[c as int].unwrap().exit_code == code,
            r matches Some(t) ==> final(self)@.tasks == running_at(after_exit(old(self)@, code), t.0 as int)
                && t.1 == after_exit(old(self)@, code)[t.0 as int].unwrap().task_cx
                && t.2 == after_exit(old(self)@, code)[t.0 as int].unwrap().memory.unwrap().root,
            r is None ==> final(self)@.tasks == after_exit(old(self)@, code),
            old(self)@.current matches Some(c) ==> given_back(
                old(self)@.frames,
                final(self)@.frames,
                old(self)@.tasks[c as int].unwrap().memory.unwrap(),
            ),
            old(self)@.current is None ==> final(self)@.frames == old(self)@.frames,
    {
        self.exit_current(code);
        let ghost mid = self@;
        proof {
            lemma_next_ready_is_ready(mid);
        }
        let r = self.run_next_task();
        proof {
            if let Some(c) = old(self)@.current {
                assert(has_status(mid.tasks, c as int, TaskStatus::Zombie));
            }
        }
        r
    }

    /// Collects the exit code of a child of `parent` that `target` selects
    /// (any child when `None`): the lowest such zombie is removed from the
    /// table and its pid and exit code returned.
    pub fn waitpid(&mut self, parent: usize, target: Option<usize>) -> (r: Result<(usize, i32), WaitError>)
        requires
            old(self)@.wf(),
        ensures
            final(self)@.wf(),
            zombies_stay(old(self)@.tasks, final(self)@.tasks),
            r == Err::<(usize, i32), WaitError>(WaitError::NoChild) <==> !exists|j: int|
                #[trigger] is_child(old(self)@.tasks, parent, target, j),
            r is Err ==> final(self)@ == old(self)@,
            match first_zombie_child(old(self)@.tasks, parent, target, 0) {
                Some(j) => r == Ok::<(usize, i32), WaitError>((j, old(self)@.tasks[j as int].unwrap().exit_code))
                    && final(self)@ == (TaskManagerView {
                    tasks: old(self)@.tasks.update(j as int, None),
                    ..old(self)@
                }),
                None => r is Err,
            },
    {
        let ghost v = self@;
        let n = self.tasks.len();
        let mut found = false;
        let mut j: usize = 0;
        while j < n
            invariant
                n == v.tasks.len(),
                self@ == v,
                v == old(self)@,
                v.wf(),
                j <= n,
                first_zombie_child(v.tasks, parent, target, 0) == first_zombie_child(v.tasks, parent, target, j as int),
                found == exists|k: int| 0 <= k < j && #[trigger] is_child(v.tasks, parent, target, k),
            decreases n - j,
        {
            let (child, zombie, code) = match &self.tasks[j] {
                Some(t) => (t.parent == Some(parent) && (target.is_none() || target == Some(j)), t.task_status == TaskStatus::Zombie, t.exit_code),
                None => (false, false, 0),
            };
            assert(child == is_child(v.tasks, parent, target, j as int));
            if child {
                found = true;
                if zombie {
                    self.tasks.set(j, None);
                    proof {
                        let w = self@;
                        assert(w.tasks =~= v.tasks.update(j as int, None));
                        assert forall|k: int| 0 <= k < v.tasks.len() && k != j implies same_shape(#[trigger] w.tasks[k], v.tasks[k]) by {};
                        assert forall|k: int, q: usize| k != j && #[trigger] owner(v.tasks, k, q) implies w.frames.live(q) by {
                            lemma_owner_live(v, k, q);
                        };
                        assert forall|k: int| #[trigger] has_status(w.tasks, k, TaskStatus::Running) implies w.current == Some(k as usize) by {
                            assert(has_status(v.tasks, k, TaskStatus::Running));
                        };
                        if let Some(c) = w.current {
                            assert(has_status(v.tasks, c as int, TaskStatus::Running));
                        }
                        lemma_table_change(v, w, j as int);
                        assert(first_zombie_child(v.tasks, parent, target, j as int) == Some(j));
                        assert(is_child(v.tasks, parent, target, j as int));
                        assert(code == v.tasks[j as int].unwrap().exit_code);
                        assert forall|i: int| #[trigger] has_status(v.tasks, i, TaskStatus::Zombie) implies has_status(w.tasks, i, TaskStatus::Zombie)
                            || (0 <= i < w.tasks.len() && w.tasks[i] is None) by {
                            if i != j {
                                assert(w.tasks[i] == v.tasks[i]);
                            }
                        };
                    }
                    return Ok((j, code));
                }
            }
            j += 1;
        }
        if found {
            Err(WaitError::NotExited)
        } else {
            proof {
                assert forall|k: int| !#[trigger] is_child(v.tasks, parent, target, k) by {
                    if 0 <= k < n {
                    }
                };
            }
            Err(WaitError::NoChild)
        }
    }
}

impl TaskManager {
    /// Creates a ready task, without a parent, from a program image; its pid
    /// is the next slot of the table. Slots are not reused, so this fails with
    /// `TooManyTasks` once `MAX_TASKS` tasks have been created.
    pub fn spawn(&mut self, img: &ProgramImage) -> (r: Result<usize, TaskError>)
        requires
            old(self)@.wf(),
        ensures
            final(self)@.wf(),
            zombies_stay(old(self)@.tasks, final(self)@.tasks),
            final(self)@.current == old(self)@.current,
            final(self)@.cursor == old(self)@.cursor,
            final(self)@.entry == old(self)@.entry,
            r == Err::<usize, TaskError>(TaskError::TooManyTasks) <==> old(self)@.tasks.len() >= MAX_TASKS,
            (r matches Err(TaskError::Load(_))) <==> old(self)@.tasks.len() < MAX_TASKS
                && load_error(*img, free_frames(old(self)@.frames)) is Some,
            r matches Err(TaskError::Load(e)) ==> load_error(*img, free_frames(old(self)@.frames)) == Some(e),
            r is Err ==> r == Err::<usize, TaskError>(TaskError::TooManyTasks) || r matches Err(TaskError::Load(_)),
            r is Err ==> final(self)@.tasks == old(self)@.tasks
                && forall|q: usize| #[trigger] final(self)@.frames.live(q) == old(self)@.frames.live(q),
            r matches Ok(pid) ==> {
                &&& pid == old(self)@.tasks.len()
                &&& final(self)@.tasks.len() == pid + 1
                &&& final(self)@.tasks.take(pid as int) == old(self)@.tasks
                &&& final(self)@.tasks[pid as int] matches Some(t) && spawned_task(t, pid, *img, old(self)@.entry)
                    && t.parent is None
                    && handed_out(old(self)@.frames, final(self)@.frames, t.memory.unwrap())
            },
    {
        let ghost v = self@;
        if self.tasks.len() >= MAX_TASKS {
            return Err(TaskError::TooManyTasks);
        }
        let (m, sp, entry) = match MemorySet::from_program_image(&mut self.frames, img) {
            Ok(t) => t,
            Err(e) => {
                proof {
                    lemma_same_live(v, self@);
                }
                return Err(TaskError::Load(e));
            },
        };
        let pid = self.tasks.len();
        let (_, top) = kernel_stack_position(pid);
        let tcb = TaskControlBlock {
            pid,
            task_status: TaskStatus::Ready,
            trap_cx: TrapFrame::app_init_context(entry, sp),
            task_cx: TaskContext::goto_entry(self.entry, top),
            memory_set: Some(m),
            parent: None,
            exit_code: 0,
        };
        self.tasks.push(Some(tcb));
        proof {
            let w = self@;
            assert(w.tasks.take(pid as int) =~= v.tasks);
            assert forall|k: int| 0 <= k < v.tasks.len() && k != pid implies same_shape(#[trigger] w.tasks[k], v.tasks[k]) by {
                assert(w.tasks[k] == v.tasks[k]);
            };
            assert forall|k: int, q: usize| k != pid && #[trigger] owner(v.tasks, k, q) implies w.frames.live(q) by {
                lemma_owner_live(v, k, q);
            };
            assert forall|k: int| #[trigger] has_status(w.tasks, k, TaskStatus::Running) implies w.current == Some(k as usize) by {
                assert(has_status(v.tasks, k, TaskStatus::Running));
            };
            if let Some(c) = w.current {
                assert(has_status(v.tasks, c as int, TaskStatus::Running));
                assert(w.tasks[c as int] == v.tasks[c as int]);
            }
            assert forall|q: usize| #[trigger] m@.owns(q) implies !v.frames.live(q) || owner(v.tasks, pid as int, q) by {};
            lemma_table_change(v, w, pid as int);
            assert forall|i: int| #[trigger] has_status(v.tasks, i, TaskStatus::Zombie) implies has_status(w.tasks, i, TaskStatus::Zombie)
                || (0 <= i < w.tasks.len() && w.tasks[i] is None) by {
                assert(w.tasks[i] == v.tasks[i]);
            };
        }
        Ok(pid)
    }

    /// Duplicates task `p` into a new ready child: a copy of its address
    /// space and of its user registers, except that the return-value register
    /// holds 0 in the child and the child's pid in the parent. The child
    /// starts from a fresh kernel context and takes the next slot of the
    /// table, which, as for `spawn`, is never a reused one.
    pub fn fork(&mut self, p: usize) -> (r: Result<usize, TaskError>)
        requires
            old(self)@.wf(),
        ensures
            final(self)@.wf(),
            zombies_stay(old(self)@.tasks, final(self)@.tasks),
            final(self)@.current == old(self)@.current,
            final(self)@.cursor == old(self)@.cursor,
            final(self)@.entry == old(self)@.entry,
            r == Err::<usize, TaskError>(TaskError::NoSuchTask) <==> !(p < old(self)@.tasks.len()
                && old(self)@.tasks[p as int] is Some
                && old(self)@.tasks[p as int].unwrap().status != TaskStatus::Zombie),
            r == Err::<usize, TaskError>(TaskError::TooManyTasks) <==> p < old(self)@.tasks.len()
                && old(self)@.tasks[p as int] is Some
                && old(self)@.tasks[p as int].unwrap().status != TaskStatus::Zombie
                && old(self)@.tasks.len() >= MAX_TASKS,
            r == Err::<usize, TaskError>(TaskError::NoMemory) <==> p < old(self)@.tasks.len()
                && old(self)@.tasks[p as int] is Some
                && old(self)@.tasks[p as int].unwrap().status != TaskStatus::Zombie
                && old(self)@.tasks.len() < MAX_TASKS
                && free_frames(old(self)@.frames) < framed_in(
                    old(self)@.tasks[p as int].unwrap().memory.unwrap().pages,
                    old(self)@.tasks[p as int].unwrap().memory.unwrap().pages.len() as int,
                ) + 1,
            r is Err ==> r == Err::<usize, TaskError>(TaskError::NoSuchTask) || r == Err::<usize, TaskError>(
                TaskError::TooManyTasks,
            ) || r == Err::<usize, TaskError>(TaskError::NoMemory),
            r is Err ==> final(self)@ == old(self)@,
            r matches Ok(child) ==> {
                let pt = old(self)@.tasks[p as int].unwrap();
                let pm = pt.memory.unwrap();
                &&& child == old(self)@.tasks.len()
                &&& final(self)@.tasks.len() == child + 1
                &&& forall|k: int| 0 <= k < child && k != p ==> final(self)@.tasks[k] == old(self)@.tasks[k]
                &&& final(self)@.tasks[p as int] == Some(TaskView {
                    trap_cx: TrapFrame { regs: final(self)@.tasks[p as int].unwrap().trap_cx.regs, ..pt.trap_cx },
                    ..pt
                })
                &&& final(self)@.tasks[p as int].unwrap().trap_cx.regs@ == pt.trap_cx.regs@.update(REG_RET as int, child)
                &&& final(self)@.tasks[child as int] matches Some(ct) && {
                    &&& ct.pid == child
                    &&& ct.status == TaskStatus::Ready
                    &&& ct.parent == Some(p)
                    &&& ct.exit_code == 0
                    &&& ct.trap_cx.sepc == pt.trap_cx.sepc
                    &&& ct.trap_cx.regs@ == pt.trap_cx.regs@.update(REG_RET as int, 0)
                    &&& ct.task_cx == TaskContext { ra: old(self)@.entry, sp: kstack_top(child as int) as usize }
                    &&& ct.memory matches Some(cm) && layout_of(cm.pages) == layout_of(pm.pages)
                        && handed_out(old(self)@.frames, final(self)@.frames, cm)
                }
            },
    {
        let ghost v = self@;
        if p >= self.tasks.len() {
            return Err(TaskError::NoSuchTask);
        }
        let (live, trap) = match &self.tasks[p] {
            Some(t) => (t.task_status != TaskStatus::Zombie, t.trap_cx),
            None => (false, TrapFrame::app_init_context(0, 0)),
        };
        if !live {
            return Err(TaskError::NoSuchTask);
        }
        if self.tasks.len() >= MAX_TASKS {
            return Err(TaskError::TooManyTasks);
        }
        let child = self.tasks.len();
        let dup = match &self.tasks[p] {
            Some(t) => match &t.memory_set {
                Some(m) => m.duplicate(&mut self.frames),
                None => Err(MapError::NoMemory),
            },
            None => Err(MapError::NoMemory),
        };
        let m = match dup {
            Ok(m) => m,
            Err(_) => {
                return Err(TaskError::NoMemory);
            },
        };
        let slot = &mut self.tasks[p];
        if let Some(t) = slot {
            t.trap_cx.set_ret(child);
        }
        let mut ctrap = trap;
        ctrap.set_ret(0);
        let (_, top) = kernel_stack_position(child);
        let tcb = TaskControlBlock {
            pid: child,
            task_status: TaskStatus::Ready,
            trap_cx: ctrap,
            task_cx: TaskContext::goto_entry(self.entry, top),
            memory_set: Some(m),
            parent: Some(p),
            exit_code: 0,
        };
        self.tasks.push(Some(tcb));
        proof {
            let w = self@;
            assert forall|k: int| 0 <= k < v.tasks.len() && k != child implies same_shape(#[trigger] w.tasks[k], v.tasks[k]) by {
                if k != p {
                    assert(w.tasks[k] == v.tasks[k]);
                }
            };
            assert forall|k: int, q: usize| k != child && #[trigger] owner(v.tasks, k, q) implies w.frames.live(q) by {
                lemma_owner_live(v, k, q);
            };
            assert forall|k: int| #[trigger] has_status(w.tasks, k, TaskStatus::Running) implies w.current == Some(k as usize) by {
                assert(has_status(v.tasks, k, TaskStatus::Running));
            };
            if let Some(c) = w.current {
                assert(has_status(v.tasks, c as int, TaskStatus::Running));
            }
            assert forall|q: usize| #[trigger] m@.owns(q) implies !v.frames.live(q) || owner(v.tasks, child as int, q) by {};
            lemma_table_change(v, w, child as int);
            assert forall|i: int| #[trigger] has_status(v.tasks, i, TaskStatus::Zombie) implies has_status(w.tasks, i, TaskStatus::Zombie)
                || (0 <= i < w.tasks.len() && w.tasks[i] is None) by {
                if i != p {
                    assert(w.tasks[i] == v.tasks[i]);
                }
            };
        }
        Ok(child)
    }

    /// Replaces the address space and user registers of task `p` by those
    /// of a program image, keeping its pid, kernel stack and relations. On
    /// an error the task is left as it was.
    pub fn exec(&mut self, p: usize, img: &ProgramImage) -> (r: Result<(), TaskError>)
        requires
            old(self)@.wf(),
        ensures
            final(self)@.wf(),
            zombies_stay(old(self)@.tasks, final(self)@.tasks),
            final(self)@.current == old(self)@.current,
            final(self)@.cursor == old(self)@.cursor,
            final(self)@.entry == old(self)@.entry,
            r == Err::<(), TaskError>(TaskError::NoSuchTask) <==> !(p < old(self)@.tasks.len()
                && old(self)@.tasks[p as int] is Some
                && old(self)@.tasks[p as int].unwrap().status != TaskStatus::Zombie),
            (r matches Err(TaskError::Load(_))) <==> p < old(self)@.tasks.len()
                && old(self)@.tasks[p as int] is Some
                && old(self)@.tasks[p as int].unwrap().status != TaskStatus::Zombie
                && load_error(*img, free_frames(old(self)@.frames)) is Some,
            r matches Err(TaskError::Load(e)) ==> load_error(*img, free_frames(old(self)@.frames)) == Some(e),
            r is Err ==> r == Err::<(), TaskError>(TaskError::NoSuchTask) || r matches Err(TaskError::Load(_)),
            r is Err ==> final(self)@.tasks == old(self)@.tasks
                && forall|q: usize| #[trigger] final(self)@.frames.live(q) == old(self)@.frames.live(q),
            r is Ok ==> {
                let pt = old(self)@.tasks[p as int].unwrap();
                let nt = final(self)@.tasks[p as int].unwrap();
                let nm = nt.memory.unwrap();
                &&& final(self)@.tasks == old(self)@.tasks.update(
                    p as int,
                    Some(TaskView { trap_cx: nt.trap_cx, memory: nt.memory, ..pt }),
                )
                &&& nt.memory is Some
                &&& layout_of(nm.pages) == image_layout(*img)
                &&& nt.trap_cx.sepc == img.entry
                &&& nt.trap_cx.regs@ == Seq::new(32, |i: int| if i == REG_SP { user_stack_top(*img) as usize } else { 0usize })
                &&& forall|q: usize| #[trigger] final(self)@.frames.live(q) <==> (old(self)@.frames.live(q)
                    && !pt.memory.unwrap().owns(q)) || nm.owns(q)
                &&& forall|q: usize| #[trigger] nm.owns(q) ==> !old(self)@.frames.live(q)
            },
    {
        let ghost v = self@;
        if p >= self.tasks.len() {
            return Err(TaskError::NoSuchTask);
        }
        let live = match &self.tasks[p] {
            Some(t) => t.task_status != TaskStatus::Zombie,
            None => false,
        };
        if !live {
            return Err(TaskError::NoSuchTask);
        }
        let ghost pm = v.tasks[p as int].unwrap().memory.unwrap();
        let (m, sp, entry) = match MemorySet::from_program_image(&mut self.frames, img) {
            Ok(t) => t,
            Err(e) => {
                proof {
                    lemma_same_live(v, self@);
                }
                return Err(TaskError::Load(e));
            },
        };
        let ghost fa1 = self.frames@;
        let mut old_mem: Option<MemorySet> = None;
        let slot = &mut self.tasks[p];
        if let Some(t) = slot {
            old_mem = t.memory_set.take();
            t.memory_set = Some(m);
            t.trap_cx = TrapFrame::app_init_context(entry, sp);
        }
        assert(old_mem matches Some(om) && om@ == pm);
        proof {
            assert(pm.live_in(fa1)) by {
                lemma_owner_live(v, p as int, pm.root);
                assert forall|k: int| 0 <= k < pm.pages.len() && (#[trigger] pm.pages[k]).framed implies fa1.live(pm.pages[k].ppn) by {
                    assert(pm.owns(pm.pages[k].ppn));
                    assert(owner(v.tasks, p as int, pm.pages[k].ppn));
                    lemma_owner_live(v, p as int, pm.pages[k].ppn);
                };
            };
        }
        match old_mem {
            Some(om) => om.recycle(&mut self.frames),
            None => {},
        }
        proof {
            let w = self@;
            let mv = m@;
            assert forall|q: usize| #[trigger] w.frames.live(q) <==> (v.frames.live(q) && !pm.owns(q)) || mv.owns(q) by {
                if mv.owns(q) {
                    assert(fa1.live(q));
                    if pm.owns(q) {
                        assert(owner(v.tasks, p as int, q));
                        lemma_owner_live(v, p as int, q);
                    }
                }
            };
            assert(mv.live_in(w.frames)) by {
                assert(mv.owns(mv.root));
                assert forall|k: int| 0 <= k < mv.pages.len() && (#[trigger] mv.pages[k]).framed implies w.frames.live(mv.pages[k].ppn) by {
                    assert(mv.owns(mv.pages[k].ppn));
                };
            };
            assert forall|k: int| 0 <= k < v.tasks.len() && k != p implies same_shape(#[trigger] w.tasks[k], v.tasks[k]) by {
                assert(w.tasks[k] == v.tasks[k]);
            };
            assert forall|k: int, q: usize| k != p && #[trigger] owner(v.tasks, k, q) implies w.frames.live(q) by {
                lemma_owner_live(v, k, q);
                if pm.owns(q) {
                    assert(owner(v.tasks, p as int, q));
                }
            };
            assert forall|k: int| #[trigger] has_status(w.tasks, k, TaskStatus::Running) implies w.current == Some(k as usize) by {
                assert(has_status(v.tasks, k, TaskStatus::Running));
            };
            if let Some(c) = w.current {
                assert(has_status(v.tasks, c as int, TaskStatus::Running));
            }
            assert forall|q: usize| #[trigger] mv.owns(q) implies !v.frames.live(q) || owner(v.tasks, p as int, q) by {};
            lemma_table_change(v, w, p as int);
            assert(w.tasks =~= v.tasks.update(
                p as int,
                Some(TaskView { trap_cx: w.tasks[p as int].unwrap().trap_cx, memory: w.tasks[p as int].unwrap().memory, ..v.tasks[p as int].unwrap() }),
            ));
            assert forall|i: int| #[trigger] has_status(v.tasks, i, TaskStatus::Zombie) implies has_status(w.tasks, i, TaskStatus::Zombie)
                || (0 <= i < w.tasks.len() && w.tasks[i] is None) by {
                if i != p {
                    assert(w.tasks[i] == v.tasks[i]);
                }
            };
        }
        Ok(())
    }
}

/// The table after the running task yields: it is suspended, then the next
/// ready task is switched to.
pub open spec fn yield_once(v: TaskManagerView) -> TaskManagerView {
    match v.suspended().next_ready() {
        Some(n) => v.suspended().switched(n),
        None => v.suspended(),
    }
}

/// The table after `k` yields.
pub open spec fn yields(v: TaskManagerView, k: nat) -> TaskManagerView
    decreases k,
{
    if k == 0 {
        v
    } else {
        yield_once(yields(v, (k - 1) as nat))
    }
}

/// Every slot holds a task; the one in slot `c` runs, every other one is
/// ready, and the search for the next task starts right after `c`.
pub open spec fn all_ready_but(v: TaskManagerView, c: int) -> bool {
    &&& 0 <= c < v.tasks.len()
    &&& v.current == Some(c as usize)
    &&& v.cursor == c + 1
    &&& forall|i: int|
        0 <= i < v.tasks.len() ==> (#[trigger] v.tasks[i]) is Some && v.tasks[i].unwrap().status == (
        if i == c {
            TaskStatus::Running
        } else {
            TaskStatus::Ready
        })
}

/// Round robin: with every task ready but the running one in slot `c`, the
/// `k`-th yield (for `k` up to the number of tasks) runs the task `k` slots
/// after `c`, cyclically. So `n` yields run each of the `n` tasks once, and
/// none twice.
pub proof fn lemma_round_robin(v: TaskManagerView, c: int, k: nat)
    requires
        all_ready_but(v, c),
        v.tasks.len() <= MAX_TASKS,
        k <= v.tasks.len(),
    ensures
        all_ready_but(yields(v, k), if c + k < v.tasks.len() { c + k } else { c + k - v.tasks.len() }),
        yields(v, k).tasks.len() == v.tasks.len(),
        forall|k1: nat, k2: nat|
            1 <= k1 < k2 <= k ==> (#[trigger] yields(v, k1)).current != (#[trigger] yields(v, k2)).current,
    decreases k,
{
    let n = v.tasks.len() as int;
    if k > 0 {
        lemma_round_robin(v, c, (k - 1) as nat);
        let c1 = if c + k - 1 < n { c + k - 1 } else { c + k - 1 - n };
        let w = yields(v, (k - 1) as nat);
        let ws = w.suspended();
        let start = (c1 + 1) % n;
        if c1 + 1 < n {
            lemma_small_mod((c1 + 1) as nat, n as nat);
        } else {
            lemma_small_mod(0, n as nat);
            lemma_mod_add_multiples_vanish(0, n);
        }
        assert(start == if c1 + 1 < n { c1 + 1 } else { 0 });
        lemma_small_mod(start as nat, n as nat);
        assert(all_ready_but(w, c1));
        assert(w.tasks[start] is Some);
        assert(ws.tasks[start] is Some);
        assert(has_status(ws.tasks, (start + 0) % n, TaskStatus::Ready));
        assert(ws.next_ready() == Some(start as usize));
        let x = yields(v, k);
        assert(x == ws.switched(start as usize));
        assert forall|i: int| 0 <= i < x.tasks.len() implies (#[trigger] x.tasks[i]) is Some && x.tasks[i].unwrap().status == (
            if i == start { TaskStatus::Running } else { TaskStatus::Ready }) by {
            assert(w.tasks[i] is Some);
        };
        assert forall|k1: nat, k2: nat| 1 <= k1 < k2 <= k implies (#[trigger] yields(v, k1)).current != (#[trigger] yields(v, k2)).current by {
            if k2 == k {
                lemma_round_robin(v, c, k1);
            }
        };
    }
}

/// Round robin from any well-formed table whose tasks are all ready but the
/// running one in slot `c`: the search starts right after `c`, so `n` yields
/// run the tasks `c + 1, c + 2, ...` cyclically, each once, `c` itself last.
pub proof fn lemma_round_robin_from_wf(v: TaskManagerView, c: int, k: nat)
    requires
        v.wf(),
        0 <= c < v.tasks.len(),
        v.current == Some(c as usize),
        forall|i: int|
            0 <= i < v.tasks.len() ==> (#[trigger] v.tasks[i]) is Some && v.tasks[i].unwrap().status == (
            if i == c {
                TaskStatus::Running
            } else {
                TaskStatus::Ready
            }),
        k <= v.tasks.len(),
    ensures
        yields(v, k).current == Some(
            (if c + k < v.tasks.len() { c + k } else { c + k - v.tasks.len() }) as usize,
        ),
        forall|k1: nat, k2: nat|
            1 <= k1 < k2 <= k ==> (#[trigger] yields(v, k1)).current != (#[trigger] yields(v, k2)).current,
{
    assert(all_ready_but(v, c));
    lemma_round_robin(v, c, k);
}

/// A zombie is never picked to run next; `next_ready` has nothing to pick
/// exactly when no task is ready.
pub proof fn lemma_zombie_never_picked(v: TaskManagerView, i: int)
    requires
        v.tasks.len() <= MAX_TASKS,
        has_status(v.tasks, i, TaskStatus::Zombie),
    ensures
        v.next_ready() != Some(i as usize),
        v.next_ready() is None <==> forall|j: int| !#[trigger] has_status(v.tasks, j, TaskStatus::Ready),
{
    lemma_next_ready_is_ready(v);
}

impl TaskManager {
    /// Number of frames the allocator can still hand out.
    pub fn available_frames(&self) -> (r: usize)
        requires
            self@.wf(),
        ensures
            r == free_frames(self@.frames),
    {
        self.frames.available()
    }

    /// The saved user registers of task `pid`.
    pub fn trap_cx(&self, pid: usize) -> (r: Option<TrapFrame>)
        ensures
            r == (if pid < self@.tasks.len() && self@.tasks[pid as int] is Some {
                Some(self@.tasks[pid as int].unwrap().trap_cx)
            } else {
                None
            }),
    {
        if pid < self.tasks.len() {
            match &self.tasks[pid] {
                Some(t) => Some(t.trap_cx),
                None => None,
            }
        } else {
            None
        }
    }

    /// The parent of task `pid`.
    pub fn parent(&self, pid: usize) -> (r: Option<usize>)
        ensures
            r == (if pid < self@.tasks.len() && self@.tasks[pid as int] is Some {
                self@.tasks[pid as int].unwrap().parent
            } else {
                None
            }),
    {
        if pid < self.tasks.len() {
            match &self.tasks[pid] {
                Some(t) => t.parent,
                None => None,
            }
        } else {
            None
        }
    }

    /// The byte at user address `va` of task `pid`.
    pub fn read_user_byte(&self, pid: usize, va: usize) -> (r: Option<u8>)
        requires
            self@.wf(),
        ensures
            r == (if pid < self@.tasks.len() && self@.tasks[pid as int] is Some
                && self@.tasks[pid as int].unwrap().memory is Some {
                self@.tasks[pid as int].unwrap().memory.unwrap().byte_at(va)
            } else {
                None
            }),
    {
        if pid < self.tasks.len() {
            match &self.tasks[pid] {
                Some(t) => match &t.memory_set {
                    Some(m) => {
                        assert(self@.tasks[pid as int] is Some);
                        m.read_byte(va)
                    },
                    None => None,
                },
                None => None,
            }
        } else {
            None
        }
    }

    /// Writes `b` at user address `va` of task `pid`; returns whether a
    /// frame of that task holds the address. No other task changes.
    pub fn write_user_byte(&mut self, pid: usize, va: usize, b: u8) -> (r: bool)
        requires
            old(self)@.wf(),
        ensures
            final(self)@.wf(),
            r == (pid < old(self)@.tasks.len() && old(self)@.tasks[pid as int] is Some
                && old(self)@.tasks[pid as int].unwrap().memory is Some
                && old(self)@.tasks[pid as int].unwrap().memory.unwrap().byte_at(va) is Some),
            !r ==> final(self)@ == old(self)@,
            r ==> final(self)@ == (TaskManagerView {
                tasks: old(self)@.tasks.update(
                    pid as int,
                    Some(TaskView {
                        memory: Some(old(self)@.tasks[pid as int].unwrap().memory.unwrap().written(va, b)),
                        ..old(self)@.tasks[pid as int].unwrap()
                    }),
                ),
                ..old(self)@
            }),
    {
        let ghost v = self@;
        if pid >= self.tasks.len() {
            return false;
        }
        let mapped = match &self.tasks[pid] {
            Some(t) => match &t.memory_set {
                Some(m) => m.read_byte(va).is_some(),
                None => false,
            },
            None => false,
        };
        if !mapped {
            return false;
        }
        let slot = &mut self.tasks[pid];
        if let Some(t) = slot {
            if let Some(m) = &mut t.memory_set {
                m.write_byte(va, b);
            }
        }
        proof {
            let w = self@;
            let pm = v.tasks[pid as int].unwrap().memory.unwrap();
            let nm = pm.written(va, b);
            assert(w.tasks =~= v.tasks.update(
                pid as int,
                Some(TaskView { memory: Some(nm), ..v.tasks[pid as int].unwrap() }),
            ));
            lemma_written_owns(pm, va, b);
            assert(nm.live_in(w.frames)) by {
                assert forall|k: int| 0 <= k < nm.pages.len() && (#[trigger] nm.pages[k]).framed implies w.frames.live(nm.pages[k].ppn) by {
                    assert(nm.owns(nm.pages[k].ppn));
                    assert(owner(v.tasks, pid as int, nm.pages[k].ppn));
                    lemma_owner_live(v, pid as int, nm.pages[k].ppn);
                };
                lemma_owner_live(v, pid as int, nm.root);
            };
            assert forall|k: int| 0 <= k < v.tasks.len() && k != pid implies same_shape(#[trigger] w.tasks[k], v.tasks[k]) by {};
            assert forall|k: int, q: usize| k != pid && #[trigger] owner(v.tasks, k, q) implies w.frames.live(q) by {
                lemma_owner_live(v, k, q);
            };
            assert forall|k: int| #[trigger] has_status(w.tasks, k, TaskStatus::Running) implies w.current == Some(k as usize) by {
                assert(has_status(v.tasks, k, TaskStatus::Running));
            };
            if let Some(c) = w.current {
                assert(has_status(v.tasks, c as int, TaskStatus::Running));
            }
            assert forall|q: usize| #[trigger] nm.owns(q) implies !v.frames.live(q) || owner(v.tasks, pid as int, q) by {};
            lemma_table_change(v, w, pid as int);
        }
        true
    }
}

/// Writing a byte keeps the frames a space owns.
proof fn lemma_written_owns(m: MemorySetView, va: usize, b: u8)
    requires
        m.wf(),
    ensures
        m.written(va, b).wf(),
        forall|q: usize| #[trigger] m.written(va, b).owns(q) == m.owns(q),
        m.written(va, b).root == m.root,
{
    let w = m.written(va, b);
    assert forall|q: usize| #[trigger] w.owns(q) == m.owns(q) by {
        if w.owns(q) && q != w.root {
            let k = choose|k: int| 0 <= k < w.pages.len() && (#[trigger] w.pages[k]).framed && w.pages[k].ppn == q;
            assert(m.pages[k].framed && m.pages[k].ppn == q);
        }
        if m.owns(q) && q != m.root {
            let k = choose|k: int| 0 <= k < m.pages.len() && (#[trigger] m.pages[k]).framed && m.pages[k].ppn == q;
            assert(w.pages[k].framed && w.pages[k].ppn == q);
        }
    };
}

} // verus!
