//! The file that a program's console output is written to.
use vstd::prelude::*;

verus! {

/// A virtual file whose writes go to the browser console.
#[derive(Debug, Default)]
pub struct ConsoleFile;

} // verus!
