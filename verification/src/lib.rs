//! Page allocation for a virtualization shim.
//!
//! The library tracks which physical page frames of a guest are free. At
//! the bottom is a 64-bit word with one bit per page; cascades put eight,
//! or any fixed number, of such trackers under a summary that tells which
//! of them has a free page. On top, the page allocator turns addresses into
//! page indices and back, and activates the memory behind its pages segment
//! by segment.

pub mod align;
pub mod arith;
pub mod bit_alloc;
pub mod bitmap64;
pub mod bits;
pub mod cascade8;
pub mod cascade_model;
pub mod configs;
pub mod context;
pub mod contiguous;
pub mod mask;
pub mod page_alloc;
pub mod regions;
pub mod run_queue;
pub mod segment;
pub mod task;

pub use align::{align_up_log2, is_aligned_log2, MAX_ALIGN_1GB};
pub use bit_alloc::BitAlloc;
pub use bitmap64::BitAlloc64;
pub use cascade8::BitAllocCascade8;
pub use configs::{
    FrameType, GuestMappingType, InstanceType, FIRST_PROCESS_ID, MM_FRAME_ALLOCATOR_SIZE,
    PT_FRAME_ALLOCATOR_SIZE, SHIM_INSTANCE_ID,
};
pub use context::{ContextSwitchFrame, TaskContext, CONTEXT_SWITCH_FRAME_SIZE};
pub use contiguous::{alloc_contiguous, check_contiguous, find_contiguous};
pub use mask::{SegmentMask, MASK_BITS};
pub use page_alloc::{
    AllocError, BitAlloc512, PageAllocatorView, SegmentBitmapPageAllocator, SEGMENT_PAGES,
};
pub use regions::{
    cpu_id, is_primary, mm_frame_allocator, mm_region_granularity, process_id, pt_frame_allocator,
    InstanceInnerRegion,
    InstancePerCPURegion, InstanceSharedRegion, MMFrameAllocator, PTFrameAllocator, PerCPURegion,
    ProcessInnerRegion, RawEPTPListRegion, EPTP_LIST_ENTRIES,
};
pub use run_queue::{EqTaskQueue, RUN_QUEUE_SIZE};
pub use segment::SegmentBitAllocCascade;
pub use task::EqTask;
