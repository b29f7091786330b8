//! Tasks as the scheduler sees them.

use crate::context::TaskContext;
use vstd::prelude::*;

verus! {

/// A task: the instance and the process it belongs to, its own number, and
/// its saved state.
#[derive(Debug, Clone, Copy, PartialEq, Eq, Structural)]
pub struct EqTask {
    /// The number of the instance of the task.
    pub instance_id: usize,
    /// The number of the process of the task.
    pub process_id: usize,
    /// The number of the task.
    pub task_id: usize,
    /// The saved state of the task.
    pub context: TaskContext,
}

} // verus!
