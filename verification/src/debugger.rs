//! The breakpoint buffer shared with the user interface: its size, which of
//! its slots hold breakpoint flags, and what a hit breakpoint records.
use vstd::prelude::*;

use crate::types::{BreakpointRange, LocationInfo};

verus! {

/// The highest breakpoint number among `ranges` (0 when there is none).
pub open spec fn max_bkpt_of(ranges: Seq<BreakpointRange>) -> u32
    decreases ranges.len(),
{
    if ranges.len() == 0 {
        0
    } else {
        let m = max_bkpt_of(ranges.drop_last());
        if ranges.last().bkpt > m {
            ranges.last().bkpt
        } else {
            m
        }
    }
}

/// The flag slot of breakpoint `index`: none for the sentinel 0 or past the
/// highest breakpoint.
pub open spec fn flag_slot_of(ranges: Seq<BreakpointRange>, index: u32) -> Option<u32> {
    if index == 0 || index > max_bkpt_of(ranges) {
        None
    } else {
        Some(index)
    }
}

/// Debugger state that manages breakpoint locations and their enable/disable state.
///
/// The breakpoint buffer (held beside this state, shared with the user
/// interface) is an array of 32-bit words with two purposes:
///
/// **Index 0 — Pause/Resume Signal (Sentinel)**: waited on while stopped at a
/// breakpoint, until the user interface notifies it.
///
/// **Index 1..N — Breakpoint Enable/Disable Flags**: index N belongs to
/// breakpoint N; 0 = disabled, 1 = enabled.
pub struct Debugger {
    pub locations: Vec<LocationInfo>,
    pub ranges: Vec<BreakpointRange>,
    pub files: Vec<String>,
}

impl Debugger {
    /// The debugger for these breakpoint locations, line ranges and files.
    pub fn new(locations: Vec<LocationInfo>, ranges: Vec<BreakpointRange>, files: Vec<String>) -> (d: Self)
        ensures
            d.locations@ == locations@,
            d.ranges@ == ranges@,
            d.files@ == files@,
    {
        Debugger { locations, ranges, files }
    }

    /// The highest breakpoint number (0 when there is none).
    pub fn max_bkpt(&self) -> (m: u32)
        ensures
            m == max_bkpt_of(self.ranges@),
    {
        let mut m: u32 = 0;
        let n = self.ranges.len();
        let mut i: usize = 0;
        assert(self.ranges@.take(0) =~= Seq::<BreakpointRange>::empty());
        while i < n
            invariant
                n == self.ranges@.len(),
                i <= n,
                m == max_bkpt_of(self.ranges@.take(i as int)),
            decreases n - i,
        {
            assert(self.ranges@.take(i + 1).drop_last() =~= self.ranges@.take(i as int));
            let b = self.ranges[i].bkpt;
            if b > m {
                m = b;
            }
            i = i + 1;
        }
        assert(self.ranges@.take(n as int) =~= self.ranges@);
        m
    }

    /// Size in bytes of the breakpoint buffer: one 32-bit word for the
    /// sentinel and one for each breakpoint up to the highest.
    pub fn buffer_size(&self) -> (size: u32)
        requires
            max_bkpt_of(self.ranges@) < 0x3fff_ffff,
        ensures
            size == (max_bkpt_of(self.ranges@) + 1) * 4,
    {
        let slots = self.max_bkpt() + 1;
        slots * 4
    }

    pub fn locations(&self) -> (r: &[LocationInfo])
        ensures
            r@ == self.locations@,
    {
        self.locations.as_slice()
    }

    pub fn files(&self) -> (r: &[String])
        ensures
            r@ == self.files@,
    {
        self.files.as_slice()
    }

    /// The buffer word that holds breakpoint `index`'s flag: none for the
    /// sentinel (0) or an index past the highest breakpoint, which are never
    /// enabled.
    pub fn flag_slot(&self, index: u32) -> (slot: Option<u32>)
        ensures
            slot == flag_slot_of(self.ranges@, index),
    {
        let max = self.max_bkpt();
        if index == 0 || index > max {
            None
        } else {
            Some(index)
        }
    }
}

/// Every breakpoint of the ranges has its own flag word in the buffer, after
/// the sentinel and inside the buffer; the sentinel is no breakpoint's.
pub proof fn law_every_breakpoint_has_a_slot(ranges: Seq<BreakpointRange>)
    requires
        max_bkpt_of(ranges) < 0x3fff_ffff,
    ensures
        flag_slot_of(ranges, 0) is None,
        forall|i: int|
            0 <= i < ranges.len() && ranges[i].bkpt != 0 ==> #[trigger] flag_slot_of(ranges, ranges[i].bkpt)
                == Some(ranges[i].bkpt) && (ranges[i].bkpt + 1) * 4 <= (max_bkpt_of(ranges) + 1) * 4,
    decreases ranges.len(),
{
    if ranges.len() > 0 {
        let prev = ranges.drop_last();
        law_every_breakpoint_has_a_slot(prev);
        assert forall|i: int| 0 <= i < ranges.len() implies ranges[i].bkpt <= max_bkpt_of(ranges) by {
            if i < prev.len() {
                lemma_max_bkpt_bound(prev, i);
                assert(ranges[i] == prev[i]);
            }
        }
    }
}

proof fn lemma_max_bkpt_bound(ranges: Seq<BreakpointRange>, i: int)
    requires
        0 <= i < ranges.len(),
    ensures
        ranges[i].bkpt <= max_bkpt_of(ranges),
    decreases ranges.len(),
{
    if i < ranges.len() - 1 {
        lemma_max_bkpt_bound(ranges.drop_last(), i);
    }
}

/// Bytes before the flags in the worker's breakpoint buffer: four 32-bit
/// words (sentinel, stepping mode, current breakpoint, saved stack pointer).
pub const BREAKPOINT_PREFIX_BYTES: u32 = 16;

/// What the worker records in the buffer's prefix when it stops at a breakpoint.
#[derive(Clone, Copy, Debug, PartialEq, Eq, Structural)]
pub struct BreakpointHit {
    /// Word 2: the breakpoint's location index.
    pub location: i32,
    /// Word 3: the saved debug stack pointer.
    pub stack_pointer: i32,
}

/// Whether the worker stops at location `index`, whose flag byte is `flag`
/// (the number of breakpoints enabled there), with the debug stack pointer at
/// `stack_pointer`: it stops when the flag is not 0, and records the location
/// (cut to 32 bits) and the stack pointer.
pub fn breakpoint_hit(flag: u8, index: usize, stack_pointer: i32) -> (hit: Option<BreakpointHit>)
    ensures
        hit is None <==> flag == 0,
        hit is Some ==> hit.unwrap() == (BreakpointHit { location: index as i32, stack_pointer }),
{
    if flag == 0 {
        None
    } else {
        Some(BreakpointHit { location: #[verifier::truncate] (index as i32), stack_pointer })
    }
}

} // verus!
