//! The table of known task kinds and their admission classes.
//!
//! The task-execution engine is an external collaborator: this crate never
//! looks at how a task turns a seed into a byte.  All the server core needs
//! is the finite table of known kinds and which of them is the CPU-intensive
//! one that must pass the admission gate.

use vstd::prelude::*;

verus! {

/// A known computation category.  `CpuIntensiveTask` is the one expensive
/// kind, subject to admission control; every other kind runs unrestricted.
#[derive(Clone, Copy, Debug, PartialEq, Eq, Structural)]
pub enum TaskType {
    SimpleTask,
    CpuIntensiveTask,
}

/// The task kind a wire identifier names, or `None` for an unknown one.
pub open spec fn classify(kind: u8) -> Option<TaskType> {
    if kind == 0 {
        Some(TaskType::SimpleTask)
    } else if kind == 1 {
        Some(TaskType::CpuIntensiveTask)
    } else {
        None
    }
}

/// Whether a task kind must hold a permit while it runs.
pub open spec fn is_expensive(t: TaskType) -> bool {
    t is CpuIntensiveTask
}

impl TaskType {
    /// Look a wire identifier up in the table of known kinds.
    pub fn from_u8(kind: u8) -> (r: Option<TaskType>)
        ensures
            r == classify(kind),
    {
        if kind == 0 {
            Some(TaskType::SimpleTask)
        } else if kind == 1 {
            Some(TaskType::CpuIntensiveTask)
        } else {
            None
        }
    }

    /// Whether this kind must hold a permit while it runs.
    pub fn needs_permit(&self) -> (r: bool)
        ensures
            r == is_expensive(*self),
    {
        match self {
            TaskType::CpuIntensiveTask => true,
            TaskType::SimpleTask => false,
        }
    }
}

} // verus!
