//! The saved state of a task.

use vstd::prelude::*;

verus! {

/// The size of a `ContextSwitchFrame` in memory: seven 8-byte registers.
pub const CONTEXT_SWITCH_FRAME_SIZE: usize = 56;

/// The callee-saved registers that a context switch pushes on the kernel
/// stack, and the address it returns to.
#[derive(Debug, Clone, Copy, PartialEq, Eq, Structural)]
pub struct ContextSwitchFrame {
    pub r15: u64,
    pub r14: u64,
    pub r13: u64,
    pub r12: u64,
    pub rbx: u64,
    pub rbp: u64,
    pub rip: u64,
}

impl ContextSwitchFrame {
    /// The frame with every register zero.
    pub open spec fn zero() -> ContextSwitchFrame {
        ContextSwitchFrame { r15: 0, r14: 0, r13: 0, r12: 0, rbx: 0, rbp: 0, rip: 0 }
    }

    /// The frame of a task that has not run yet: it returns to `entry`.
    pub open spec fn entering(entry: usize) -> ContextSwitchFrame {
        ContextSwitchFrame { rip: entry as u64, ..ContextSwitchFrame::zero() }
    }
}

impl Default for ContextSwitchFrame {
    fn default() -> (r: Self)
        ensures
            r == ContextSwitchFrame::zero(),
    {
        ContextSwitchFrame { r15: 0, r14: 0, r13: 0, r12: 0, rbx: 0, rbp: 0, rip: 0 }
    }
}

/// The hardware state of a task that is not running. The callee-saved
/// registers are on its kernel stack, in a `ContextSwitchFrame` at `rsp`.
#[derive(Debug, Clone, Copy, PartialEq, Eq, Structural)]
pub struct TaskContext {
    /// The address of the top of the kernel stack of the task.
    pub kstack_top: usize,
    /// The stack pointer after all callee-saved registers are pushed.
    pub rsp: u64,
    /// The base of the thread-local storage.
    pub fs_base: usize,
}

impl TaskContext {
    /// Where the frame of a new task lies below the top of its stack. The
    /// stack must be 16-byte aligned before a call, so one 8-byte slot
    /// stays empty above the frame.
    pub open spec fn frame_address(kstack_top: usize) -> int {
        kstack_top - 8 - CONTEXT_SWITCH_FRAME_SIZE
    }

    /// The context of a task that has no stack yet.
    pub fn new() -> (r: Self)
        ensures
            r == (TaskContext { kstack_top: 0, rsp: 0, fs_base: 0 }),
    {
        TaskContext { kstack_top: 0, rsp: 0, fs_base: 0 }
    }

    /// Sets the context up for a new task with the given entry point,
    /// kernel stack and thread-local storage. Returns the frame that is to
    /// be stored at the new stack pointer.
    pub fn init(&mut self, entry: usize, kstack_top: usize, tls_area: usize) -> (frame:
        ContextSwitchFrame)
        requires
            kstack_top >= 8 + CONTEXT_SWITCH_FRAME_SIZE,
        ensures
            frame == ContextSwitchFrame::entering(entry),
            *final(self) == (TaskContext {
                kstack_top,
                rsp: TaskContext::frame_address(kstack_top) as u64,
                fs_base: tls_area,
            }),
    {
        let frame_address = kstack_top - 8 - CONTEXT_SWITCH_FRAME_SIZE;
        self.rsp = frame_address as u64;
        self.kstack_top = kstack_top;
        self.fs_base = tls_area;
        ContextSwitchFrame { r15: 0, r14: 0, r13: 0, r12: 0, rbx: 0, rbp: 0, rip: entry as u64 }
    }
}

} // verus!
