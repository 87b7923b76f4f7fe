use vstd::prelude::*;

verus! {

/// A place in the source where the debugger may stop: file index (into the
/// list of file names), one-based line, column, and code address.
#[derive(Clone, Copy, Debug, PartialEq, Eq, Structural)]
pub struct LocationInfo {
    pub file: u32,
    pub line: u32,
    pub col: u32,
    pub address: u64,
}

/// The lines `start_line..=end_line` of `file` that resolve to breakpoint `bkpt`.
#[derive(Clone, Copy, Debug, PartialEq, Eq, Structural)]
pub struct BreakpointRange {
    pub file: u32,
    pub start_line: u32,
    pub end_line: u32,
    pub bkpt: u32,
}

} // verus!
