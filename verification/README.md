# wasmdbg

The core of an in-browser C/C++ runtime and debugger, verified with Verus.

- `src/` is the verified library: DWARF line tables and file names
  (`dwarf`, `paths`), breakpoint placement and line ranges (`breakpoints`,
  `lookup`), instrumentation of a WebAssembly module with breakpoint calls
  (`instrument`) through `walrus` (`wasm_module`, where what walrus reads
  and emits is named as a function of the module's bytes), the breakpoint buffer protocol
  (`debugger`), variable scopes and locations (`variables`), the worker's
  build commands and lifecycle machine (`worker`), and the protocol types
  (`dap`, `formatters`).
- `app/` is the browser side: reading DWARF sections with `gimli` and
  `object`, the `SharedArrayBuffer` shared with the user interface, the
  worker's message loop, and the serde forms of the protocol types.
- `tests/` runs the library on concrete inputs.
