//! The captured call-stack records that the sampler hands over.
use vstd::prelude::*;

verus! {

/// One local variable of a captured frame.
pub struct LocalVariable {
    pub name: String,
    pub repr: Option<String>,
    pub arg: bool,
}

/// One captured stack frame.
pub struct Frame {
    pub name: String,
    pub filename: String,
    pub module: Option<String>,
    pub short_filename: Option<String>,
    pub line: u32,
    pub locals: Option<Vec<LocalVariable>>,
}

/// A process in the ancestry chain of a monitored process.
pub struct ProcessInfo {
    pub pid: u32,
    pub command_line: String,
    pub parent: Option<Box<ProcessInfo>>,
}

/// The stack of one thread (or one process) captured at one instant.
pub struct StackTrace {
    pub pid: u32,
    pub thread_id: u64,
    pub thread_name: Option<String>,
    pub os_thread_id: Option<u64>,
    pub active: bool,
    pub owns_gil: bool,
    pub frames: Vec<Frame>,
    pub process_info: Option<Box<ProcessInfo>>,
}

/// A batch of stacks captured at about the same instant.
pub struct Sample {
    pub traces: Vec<StackTrace>,
}

} // verus!
