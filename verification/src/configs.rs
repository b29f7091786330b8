//! Numbers that configure an instance and its address space.

use vstd::prelude::*;
use vstd::std_specs::convert::FromSpecImpl;

verus! {

/// The instance number of the shim.
pub const SHIM_INSTANCE_ID: usize = 0;

/// The first process number. Number 0 is kept for the process that enters
/// and leaves instances.
pub const FIRST_PROCESS_ID: usize = 1;

/// The number of segments of the allocator for general memory: 64
/// segments of 2 MiB, 128 MiB in all.
pub const MM_FRAME_ALLOCATOR_SIZE: usize = 64;

/// The number of segments of the allocator for page-table frames: 2
/// segments of 2 MiB, 4 MiB in all.
pub const PT_FRAME_ALLOCATOR_SIZE: usize = 2;

/// How the memory of a guest is mapped.
#[derive(Debug, Copy, Clone, Eq, PartialEq, Structural)]
pub enum GuestMappingType {
    /// Every guest address maps to itself.
    One2OneMapping,
    /// Segments of 2 MiB.
    CoarseGrainedSegmentation2M,
    /// Segments of 1 GiB.
    CoarseGrainedSegmentation1G,
}

impl GuestMappingType {
    /// The segment size of the mapping in bytes; zero for the one-to-one
    /// mapping.
    pub open spec fn spec_granularity(self) -> usize {
        match self {
            GuestMappingType::One2OneMapping => 0,
            GuestMappingType::CoarseGrainedSegmentation2M => 0x20_0000,
            GuestMappingType::CoarseGrainedSegmentation1G => 0x4000_0000,
        }
    }

    /// The mapping that a configuration number selects. A number that
    /// selects none falls back to the one-to-one mapping.
    pub open spec fn of_number(value: u64) -> GuestMappingType {
        if value == 1 {
            GuestMappingType::CoarseGrainedSegmentation2M
        } else if value == 2 {
            GuestMappingType::CoarseGrainedSegmentation1G
        } else {
            GuestMappingType::One2OneMapping
        }
    }

    /// The segment size of the mapping in bytes; zero for the one-to-one
    /// mapping.
    pub fn granularity(self) -> (r: usize)
        ensures
            r == self.spec_granularity(),
    {
        match self {
            GuestMappingType::One2OneMapping => 0,
            GuestMappingType::CoarseGrainedSegmentation2M => 0x20_0000,
            GuestMappingType::CoarseGrainedSegmentation1G => 0x4000_0000,
        }
    }

    /// Whether a configuration number selects a mapping.
    pub fn recognised(value: u64) -> (r: bool)
        ensures
            r == (value <= 2),
    {
        value <= 2
    }
}

impl From<u64> for GuestMappingType {
    fn from(value: u64) -> (r: Self) {
        match value {
            0 => GuestMappingType::One2OneMapping,
            1 => GuestMappingType::CoarseGrainedSegmentation2M,
            2 => GuestMappingType::CoarseGrainedSegmentation1G,
            _ => GuestMappingType::One2OneMapping,
        }
    }
}

impl FromSpecImpl<u64> for GuestMappingType {
    open spec fn obeys_from_spec() -> bool {
        true
    }

    open spec fn from_spec(value: u64) -> Self {
        GuestMappingType::of_number(value)
    }
}

/// What kind of system an instance runs.
#[derive(Debug, Copy, Clone, Eq, PartialEq, Structural)]
pub enum InstanceType {
    /// A library OS, which runs in user mode.
    LibOS,
    /// A kernel, which runs in kernel mode.
    Kernel,
}

impl InstanceType {
    /// The kind that a configuration number selects. A number that selects
    /// none falls back to the library OS.
    pub open spec fn of_number(value: u64) -> InstanceType {
        if value == 1 {
            InstanceType::Kernel
        } else {
            InstanceType::LibOS
        }
    }

    /// The configuration number of the kind.
    pub fn number(self) -> (r: usize)
        ensures
            InstanceType::of_number(r as u64) == self,
            r <= 1,
    {
        match self {
            InstanceType::LibOS => 0,
            InstanceType::Kernel => 1,
        }
    }

    /// Whether a configuration number selects a kind.
    pub fn recognised(value: u64) -> (r: bool)
        ensures
            r == (value <= 1),
    {
        value <= 1
    }
}

impl From<u64> for InstanceType {
    fn from(value: u64) -> (r: Self) {
        match value {
            0 => InstanceType::LibOS,
            1 => InstanceType::Kernel,
            _ => InstanceType::LibOS,
        }
    }
}

impl FromSpecImpl<u64> for InstanceType {
    open spec fn obeys_from_spec() -> bool {
        true
    }

    open spec fn from_spec(value: u64) -> Self {
        InstanceType::of_number(value)
    }
}

/// What a page frame is used for.
#[derive(Debug, Clone, Copy, PartialEq, Eq, Structural)]
pub enum FrameType {
    /// General memory.
    Normal,
    /// A page-table frame.
    PT,
}

} // verus!
