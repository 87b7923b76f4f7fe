//! Verified core of an in-browser C/C++ runtime and debugger: DWARF line tables,
//! breakpoint placement in instrumented WebAssembly, the debugger's breakpoint
//! buffer protocol, and the worker's build pipeline.

pub mod types;
pub mod lookup;
pub mod breakpoints;
pub mod instrument;
pub mod wasm_module;
pub mod dwarf;
pub mod dap;
pub mod formatters;
pub mod console;
pub mod paths;
pub mod worker;
pub mod variables;
pub mod debugger;
