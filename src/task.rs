//! Task control blocks: saved user registers, saved kernel context, kernel
//! stack placement and lifecycle status.
use vstd::prelude::*;

use crate::config::{KERNEL_STACK_SIZE, PAGE_SIZE, TRAMPOLINE};
use crate::memory_set::{MemorySet, MemorySetView};

verus! {

/// Index of the stack pointer among the general registers.
pub const REG_SP: usize = 2;

/// Index of the register that carries a system call's return value.
pub const REG_RET: usize = 10;

/// The number of tasks the kernel-stack area has room for. A pid is the
/// task's slot in the table and is never given to another task, so at most
/// this many tasks are created over the kernel's lifetime; later `spawn` and
/// `fork` calls return `TooManyTasks`.
pub const MAX_TASKS: usize = 0x1000;

/// Lifecycle of a task.
#[derive(Debug, Clone, Copy, PartialEq, Eq, Structural)]
pub enum TaskStatus {
    Ready,
    Running,
    /// Exited; kept until its parent collects the exit code.
    Zombie,
}

/// User-mode registers saved on entry to the kernel.
#[derive(Clone, Copy)]
pub struct TrapFrame {
    /// The general registers.
    pub regs: [usize; 32],
    /// Where user execution resumes.
    pub sepc: usize,
}

impl TrapFrame {
    /// The registers a program starts with: all zero but the stack pointer.
    pub fn app_init_context(entry: usize, sp: usize) -> (r: TrapFrame)
        ensures
            r.sepc == entry,
            r.regs@ == Seq::new(32, |i: int| if i == REG_SP { sp } else { 0usize }),
    {
        let mut regs = [0usize; 32];
        regs[REG_SP] = sp;
        assert(regs@ =~= Seq::new(32, |i: int| if i == REG_SP { sp } else { 0usize }));
        TrapFrame { regs, sepc: entry }
    }

    /// Sets the return-value register.
    pub fn set_ret(&mut self, v: usize)
        ensures
            final(self).sepc == old(self).sepc,
            final(self).regs@ == old(self).regs@.update(REG_RET as int, v),
    {
        self.regs[REG_RET] = v;
    }
}

/// The saved kernel-side context of a task that is not running: where it
/// resumes and on which stack. Callee-saved registers stay with the
/// architecture's switch routine.
#[derive(Clone, Copy, PartialEq, Eq, Structural)]
pub struct TaskContext {
    pub ra: usize,
    pub sp: usize,
}

impl TaskContext {
    /// An empty context.
    pub fn blank() -> (r: TaskContext)
        ensures
            r.ra == 0 && r.sp == 0,
    {
        TaskContext { ra: 0, sp: 0 }
    }

    /// A context that resumes at `entry` on the kernel stack whose top is `kstack_top`.
    pub fn goto_entry(entry: usize, kstack_top: usize) -> (r: TaskContext)
        ensures
            r.ra == entry && r.sp == kstack_top,
    {
        TaskContext { ra: entry, sp: kstack_top }
    }
}

/// Bottom of the kernel stack of task `pid`.
pub open spec fn kstack_bottom(pid: int) -> int {
    kstack_top(pid) - KERNEL_STACK_SIZE
}

/// Top of the kernel stack of task `pid`: stacks go down from the trampoline,
/// each with a guard page under it.
pub open spec fn kstack_top(pid: int) -> int {
    TRAMPOLINE - pid * (KERNEL_STACK_SIZE + PAGE_SIZE)
}

/// Bottom and top of the kernel stack of task `pid`.
pub fn kernel_stack_position(pid: usize) -> (r: (usize, usize))
    requires
        pid < MAX_TASKS,
    ensures
        r.0 == kstack_bottom(pid as int),
        r.1 == kstack_top(pid as int),
{
    assert(pid * (KERNEL_STACK_SIZE + PAGE_SIZE) <= MAX_TASKS * (KERNEL_STACK_SIZE + PAGE_SIZE)) by (nonlinear_arith)
        requires
            pid < MAX_TASKS,
    ;
    let top = TRAMPOLINE - pid * (KERNEL_STACK_SIZE + PAGE_SIZE);
    (top - KERNEL_STACK_SIZE, top)
}

/// One task.
pub struct TaskControlBlock {
    pub pid: usize,
    pub task_status: TaskStatus,
    /// Saved user registers.
    pub trap_cx: TrapFrame,
    /// Saved kernel context.
    pub task_cx: TaskContext,
    /// The address space; given back when the task exits.
    pub memory_set: Option<MemorySet>,
    /// The parent's pid; it does not keep the parent alive.
    pub parent: Option<usize>,
    /// Meaningful once the task is a zombie.
    pub exit_code: i32,
}

/// A task as a mathematical value.
pub struct TaskView {
    pub pid: usize,
    pub status: TaskStatus,
    pub trap_cx: TrapFrame,
    pub task_cx: TaskContext,
    pub memory: Option<MemorySetView>,
    pub parent: Option<usize>,
    pub exit_code: i32,
}

impl TaskControlBlock {
    pub open spec fn view(&self) -> TaskView {
        TaskView {
            pid: self.pid,
            status: self.task_status,
            trap_cx: self.trap_cx,
            task_cx: self.task_cx,
            memory: match self.memory_set {
                Some(m) => Some(m@),
                None => None,
            },
            parent: self.parent,
            exit_code: self.exit_code,
        }
    }

    /// The page-table root of the task's address space.
    pub fn get_user_token(&self) -> (r: Option<usize>)
        ensures
            r == match self@.memory {
                Some(m) => Some(m.root),
                None => None::<usize>,
            },
    {
        match &self.memory_set {
            Some(m) => Some(m.token()),
            None => None,
        }
    }
}

} // verus!
