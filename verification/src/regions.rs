//! The records that the shim and its guests share.
//!
//! Each record lies at a fixed place of the guest address space. The
//! functions here read a record that the caller has opened; none of them
//! touches memory by address.

use crate::configs::{MM_FRAME_ALLOCATOR_SIZE, PT_FRAME_ALLOCATOR_SIZE};
use crate::context::{ContextSwitchFrame, TaskContext, CONTEXT_SWITCH_FRAME_SIZE};
use crate::page_alloc::SegmentBitmapPageAllocator;
use crate::run_queue::EqTaskQueue;
use crate::task::EqTask;
use vstd::prelude::*;

verus! {

/// The allocator for the general memory of a process.
pub type MMFrameAllocator = SegmentBitmapPageAllocator<MM_FRAME_ALLOCATOR_SIZE>;

/// The allocator for the page-table frames of a process.
pub type PTFrameAllocator = SegmentBitmapPageAllocator<PT_FRAME_ALLOCATOR_SIZE>;

/// The number of entries of an EPTP list.
pub const EPTP_LIST_ENTRIES: usize = 512;

/// The record of a process, shared by all of its threads.
pub struct ProcessInnerRegion {
    /// The number of the process that owns the record.
    pub process_id: usize,
    /// Whether this is the primary process.
    pub is_primary: bool,
    /// The segment size at which the memory of the guest is managed; zero
    /// for the one-to-one mapping.
    pub mm_region_granularity: usize,
    /// The allocator for general memory.
    pub mm_frame_allocator: MMFrameAllocator,
    /// The allocator for page-table frames.
    pub pt_frame_allocator: PTFrameAllocator,
    /// The saved kernel state of the process.
    pub kcontext: TaskContext,
    /// The entry point of the process.
    pub user_entry: usize,
    /// The stack pointer of the process.
    pub user_stack_top: usize,
}

/// The record of an instance, shared by all of its processes.
#[derive(Debug, Clone, Copy, PartialEq, Eq, Structural)]
pub struct InstanceInnerRegion {
    /// The number of the instance that owns the record.
    pub instance_id: u64,
}

/// The record of a CPU: what runs on it and what is waiting to.
pub struct PerCPURegion {
    /// The number of the CPU.
    pub cpu_id: u64,
    /// The task that runs on the CPU.
    pub current_task: EqTask,
    /// The tasks that the global dispatcher handed to the CPU.
    pub ready_queue: EqTaskQueue,
    /// The tasks that the scheduler of the CPU picks from.
    pub run_queue: EqTaskQueue,
}

/// What runs on a CPU, by numbers alone.
#[derive(Debug, Clone, Copy, PartialEq, Eq, Structural)]
pub struct InstancePerCPURegion {
    /// The number of the CPU.
    pub cpu_id: u64,
    /// The number of the instance that runs on the CPU.
    pub instance_id: u64,
    /// The number of the process that runs on the CPU.
    pub process_id: u64,
}

/// The instance and the process that run on a CPU.
#[derive(Debug, Clone, Copy, PartialEq, Eq, Structural)]
pub struct InstanceSharedRegion {
    /// The number of the instance that runs on the CPU.
    pub instance_id: u64,
    /// The number of the process that runs on the CPU.
    pub process_id: u64,
}

/// The EPTP list of an instance: one page of 512 entries, where zero marks
/// an entry that is not in use.
pub struct RawEPTPListRegion {
    eptp_list: [u64; 512],
}

impl ProcessInnerRegion {
    /// The address of the top of the kernel stack of a process whose
    /// record of `region_size` bytes lies at `region_addr`: the last
    /// 8-byte slot of the record.
    pub fn stack_top(region_addr: usize, region_size: usize) -> (r: usize)
        requires
            region_size >= 8,
            region_addr + region_size <= usize::MAX,
        ensures
            r == region_addr + region_size - 8,
    {
        region_addr + region_size - 8
    }

    /// Prepares the kernel stack of the process for its first run at
    /// `entry`. The record of `region_size` bytes is mapped at `region_va`
    /// in the process; the saved stack pointer and stack top are addresses
    /// in that mapping. Returns the frame that is to be stored at the saved
    /// stack pointer.
    pub fn init_kernel_stack_frame(
        &mut self,
        entry: usize,
        region_va: usize,
        region_size: usize,
    ) -> (frame: ContextSwitchFrame)
        requires
            region_size >= 16 + CONTEXT_SWITCH_FRAME_SIZE,
            region_va + region_size <= usize::MAX,
        ensures
            frame == ContextSwitchFrame::entering(entry),
            final(self).kcontext == (TaskContext {
                kstack_top: (region_va + region_size - 8) as usize,
                rsp: (region_va + region_size - 16 - CONTEXT_SWITCH_FRAME_SIZE) as u64,
                fs_base: old(self).kcontext.fs_base,
            }),
            final(self).process_id == old(self).process_id,
            final(self).is_primary == old(self).is_primary,
            final(self).mm_region_granularity == old(self).mm_region_granularity,
            final(self).mm_frame_allocator == old(self).mm_frame_allocator,
            final(self).pt_frame_allocator == old(self).pt_frame_allocator,
            final(self).user_entry == old(self).user_entry,
            final(self).user_stack_top == old(self).user_stack_top,
    {
        let top = Self::stack_top(region_va, region_size);
        let frame_address = top - 8 - CONTEXT_SWITCH_FRAME_SIZE;
        self.kcontext.rsp = frame_address as u64;
        self.kcontext.kstack_top = top;
        ContextSwitchFrame { r15: 0, r14: 0, r13: 0, r12: 0, rbx: 0, rbp: 0, rip: entry as u64 }
    }
}

impl PerCPURegion {
    /// The number of the instance of the current task.
    pub fn instance_id(&self) -> (r: usize)
        ensures
            r == self.current_task.instance_id,
    {
        self.current_task.instance_id
    }

    /// The number of the process of the current task.
    pub fn process_id(&self) -> (r: usize)
        ensures
            r == self.current_task.process_id,
    {
        self.current_task.process_id
    }

    /// The number of the current task.
    pub fn task_id(&self) -> (r: usize)
        ensures
            r == self.current_task.task_id,
    {
        self.current_task.task_id
    }
}

impl RawEPTPListRegion {
    /// The entries of the list.
    pub closed spec fn view(&self) -> Seq<u64> {
        self.eptp_list@
    }

    /// A list with the given entries.
    pub fn new(eptp_list: [u64; 512]) -> (r: Self)
        ensures
            r@ == eptp_list@,
    {
        RawEPTPListRegion { eptp_list }
    }

    /// The entries of the list that are in use, each with its index, in
    /// the order of the list.
    pub fn dump_eptp_list(&self) -> (r: Vec<(usize, u64)>)
        ensures
            forall|k: int|
                0 <= k < r.len() ==> (#[trigger] r[k]).0 < EPTP_LIST_ENTRIES && r[k].1
                    == self@[r[k].0 as int] && r[k].1 != 0,
            forall|j: int, k: int| 0 <= j < k < r.len() ==> r[j].0 < r[k].0,
            forall|i: int|
                0 <= i < EPTP_LIST_ENTRIES && self@[i] != 0 ==> exists|k: int|
                    0 <= k < r.len() && (#[trigger] r[k]).0 == i,
    {
        let mut found: Vec<(usize, u64)> = Vec::new();
        let mut i: usize = 0;
        while i < 512
            invariant
                i <= 512,
                self@.len() == 512,
                forall|k: int|
                    0 <= k < found.len() ==> (#[trigger] found[k]).0 < i && found[k].1
                        == self@[found[k].0 as int] && found[k].1 != 0,
                forall|j: int, k: int| 0 <= j < k < found.len() ==> found[j].0 < found[k].0,
                forall|n: int|
                    0 <= n < i && self@[n] != 0 ==> exists|k: int|
                        0 <= k < found.len() && (#[trigger] found[k]).0 == n,
            decreases 512 - i,
        {
            if self.eptp_list[i] != 0 {
                let ghost earlier = found@;
                found.push((i, self.eptp_list[i]));
                proof {
                    assert forall|n: int| 0 <= n < i + 1 && self@[n] != 0 implies exists|k: int|
                        0 <= k < found.len() && (#[trigger] found[k]).0 == n by {
                        if n < i {
                            let k = choose|k: int|
                                0 <= k < earlier.len() && (#[trigger] earlier[k]).0 == n;
                            assert(found[k].0 == n);
                        } else {
                            assert(found[found.len() - 1].0 == n);
                        }
                    }
                }
            }
            i += 1;
        }
        found
    }
}

/// The segment size at which the memory of the process is managed.
pub fn mm_region_granularity(region: &ProcessInnerRegion) -> (r: usize)
    ensures
        r == region.mm_region_granularity,
{
    region.mm_region_granularity
}

/// Whether the process is the primary process.
pub fn is_primary(region: &ProcessInnerRegion) -> (r: bool)
    ensures
        r == region.is_primary,
{
    region.is_primary
}

/// The number of the process.
pub fn process_id(region: &ProcessInnerRegion) -> (r: usize)
    ensures
        r == region.process_id,
{
    region.process_id
}

/// The allocator for the general memory of the process.
pub fn mm_frame_allocator(region: &mut ProcessInnerRegion) -> (r: &mut MMFrameAllocator)
    ensures
        *r == old(region).mm_frame_allocator,
        *final(region) == (ProcessInnerRegion { mm_frame_allocator: *final(r), ..*old(region) }),
{
    &mut region.mm_frame_allocator
}

/// The allocator for the page-table frames of the process.
pub fn pt_frame_allocator(region: &mut ProcessInnerRegion) -> (r: &mut PTFrameAllocator)
    ensures
        *r == old(region).pt_frame_allocator,
        *final(region) == (ProcessInnerRegion { pt_frame_allocator: *final(r), ..*old(region) }),
{
    &mut region.pt_frame_allocator
}

/// The number of the CPU.
pub fn cpu_id(region: &PerCPURegion) -> (r: usize)
    ensures
        r == region.cpu_id as usize,
{
    #[verifier::truncate]
    (region.cpu_id as usize)
}

} // verus!
