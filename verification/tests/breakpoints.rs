use wasmdbg::breakpoints::{
    breakpoint_ranges, insertion_order, resolve_candidates, resolve_instruction, select_line_candidates,
    FunctionLayout, InstrSite, ResolvedBreakpoint,
};
use wasmdbg::instrument::instrument_binary;
use wasmdbg::types::{BreakpointRange, LocationInfo};

fn loc(file: u32, line: u32, col: u32, address: u64) -> LocationInfo {
    LocationInfo { file, line, col, address }
}

#[test]
fn candidates_keep_lowest_address_per_line() {
    let locs = vec![
        loc(1, 5, 0, 40),
        loc(0, 3, 2, 30),
        loc(1, 5, 7, 20),
        loc(0, 3, 1, 30),
        loc(0, 0, 0, 5),
        loc(0, 1, 0, 50),
    ];
    let c = select_line_candidates(&locs);
    assert_eq!(c, vec![loc(0, 1, 0, 50), loc(0, 3, 2, 30), loc(1, 5, 7, 20)]);
}

#[test]
fn candidates_skip_line_zero() {
    let c = select_line_candidates(&[loc(0, 0, 0, 1), loc(2, 0, 3, 4)]);
    assert!(c.is_empty());
}

fn layout(sites: Vec<(u32, usize, usize)>, offsets: Vec<(usize, u32)>) -> FunctionLayout {
    FunctionLayout {
        sites: sites.into_iter().map(|(loc, seq, idx)| InstrSite { loc, seq, idx }).collect(),
        offsets,
    }
}

#[test]
fn address_resolves_to_last_entry_not_past_it() {
    // Function 0 covers offsets 10..14, function 1 covers 20..22.
    let funcs = vec![
        layout(vec![(10, 0, 0), (12, 0, 1), (14, 1, 0)], vec![(10, 10), (12, 12), (14, 14)]),
        layout(vec![(20, 3, 0), (22, 3, 1)], vec![(20, 20), (22, 22)]),
    ];
    assert_eq!(resolve_instruction(&funcs, 13), Some((0, 1)));
    assert_eq!(resolve_instruction(&funcs, 14), Some((0, 2)));
    assert_eq!(resolve_instruction(&funcs, 21), Some((1, 0)));
    assert_eq!(resolve_instruction(&funcs, 100), Some((1, 1)));
    // Below every absolute offset: the relative table (offset from each
    // function's start), where the last function with the best offset wins.
    assert_eq!(resolve_instruction(&funcs, 1), Some((1, 0)));
    assert_eq!(resolve_instruction(&funcs, 3), Some((1, 1)));
}

#[test]
fn equal_offsets_resolve_to_the_later_entry() {
    // Both functions have an entry at offset 30: the one later in table
    // order (function 1) wins; location 7 occurs twice in function 1, and its
    // last instruction is taken.
    let funcs = vec![
        layout(vec![(5, 0, 0)], vec![(30, 5)]),
        layout(vec![(7, 0, 0), (8, 0, 1), (7, 1, 0)], vec![(30, 7), (40, 8)]),
    ];
    assert_eq!(resolve_instruction(&funcs, 35), Some((1, 2)));
    assert_eq!(resolve_instruction(&funcs, 40), Some((1, 1)));
}

#[test]
fn address_without_instruction_is_unmatched() {
    // The entry at offset 12 names a location that no instruction has.
    let funcs = vec![layout(vec![(10, 0, 0)], vec![(10, 10), (12, 99)])];
    assert_eq!(resolve_instruction(&funcs, 12), None);
    let empty: Vec<FunctionLayout> = vec![];
    assert_eq!(resolve_instruction(&empty, 12), None);
}

#[test]
fn candidates_sharing_an_instruction_keep_the_first() {
    let funcs = vec![layout(vec![(10, 0, 0), (12, 0, 1)], vec![(10, 10), (12, 12)])];
    let cands = vec![loc(0, 1, 0, 10), loc(0, 2, 0, 11), loc(0, 3, 0, 12)];
    let (r, unmatched) = resolve_candidates(&funcs, &cands);
    assert_eq!(unmatched, 0);
    assert_eq!(
        r,
        vec![
            ResolvedBreakpoint { location: loc(0, 1, 0, 10), func: 0, site: 0 },
            ResolvedBreakpoint { location: loc(0, 3, 0, 12), func: 0, site: 1 },
        ]
    );
}

#[test]
fn ranges_reach_to_next_breakpoint_of_file() {
    let locs = vec![loc(0, 2, 0, 1), loc(0, 5, 0, 2), loc(0, 9, 0, 3), loc(1, 4, 0, 4)];
    let r = breakpoint_ranges(&locs);
    assert_eq!(
        r,
        vec![
            BreakpointRange { file: 0, start_line: 2, end_line: 4, bkpt: 1 },
            BreakpointRange { file: 0, start_line: 5, end_line: 8, bkpt: 2 },
            BreakpointRange { file: 0, start_line: 9, end_line: 9, bkpt: 3 },
            BreakpointRange { file: 1, start_line: 4, end_line: 4, bkpt: 4 },
        ]
    );
}

#[test]
fn insertion_goes_from_the_end_of_each_function() {
    let funcs = vec![
        layout(vec![(1, 0, 0), (2, 0, 3), (3, 1, 1)], vec![]),
        layout(vec![(4, 2, 5)], vec![]),
    ];
    let r = vec![
        ResolvedBreakpoint { location: loc(0, 1, 0, 0), func: 0, site: 0 },
        ResolvedBreakpoint { location: loc(0, 2, 0, 0), func: 1, site: 0 },
        ResolvedBreakpoint { location: loc(0, 3, 0, 0), func: 0, site: 1 },
        ResolvedBreakpoint { location: loc(0, 4, 0, 0), func: 0, site: 2 },
    ];
    assert_eq!(insertion_order(&funcs, &r, 0), vec![2, 3, 0]);
    assert_eq!(insertion_order(&funcs, &r, 1), vec![1]);
    assert_eq!(insertion_order(&funcs, &r, 2), Vec::<usize>::new());
}

/// A module with one function `() -> ()` whose body is `i32.const 1 drop end`.
fn tiny_module() -> Vec<u8> {
    vec![
        0x00, 0x61, 0x73, 0x6d, 0x01, 0x00, 0x00, 0x00, // magic, version
        0x01, 0x04, 0x01, 0x60, 0x00, 0x00, // type section
        0x03, 0x02, 0x01, 0x00, // function section
        0x0a, 0x07, 0x01, 0x05, 0x00, 0x41, 0x01, 0x1a, 0x0b, // code section
    ]
}

#[test]
fn instrument_rejects_bytes_that_are_no_module() {
    let res = instrument_binary(&[1, 2, 3], &[loc(0, 1, 0, 0)]);
    match res {
        Err(msg) => {
            assert!(msg.starts_with("Failed to parse WASM: "));
            assert!(msg.len() > "Failed to parse WASM: ".len());
        }
        Ok(_) => panic!("garbage accepted"),
    }
}

#[test]
fn instrument_inserts_one_call_per_line() {
    let wasm = tiny_module();
    let locs = vec![loc(0, 1, 0, 0), loc(0, 1, 4, 0), loc(0, 0, 0, 0)];
    let (out, inserted, ranges, summary) = instrument_binary(&wasm, &locs).expect("instrumented");
    assert_eq!(inserted, vec![loc(0, 1, 0, 0)]);
    assert_eq!(ranges, vec![BreakpointRange { file: 0, start_line: 1, end_line: 1, bkpt: 1 }]);
    assert_eq!(summary.inserted, 1);
    assert_eq!(summary.unmatched, 0);
    assert_eq!(summary.candidates, 1);
    assert_eq!(summary.skipped_out_of_bounds, 0);
    assert_ne!(out, wasm);
    let text = String::from_utf8_lossy(&out).to_string();
    assert!(text.contains("debug"));
    assert!(text.contains("bkpt"));
    // The output is a module again.
    assert!(instrument_binary(&out, &[]).is_ok());
}

#[test]
fn redundant_locations_change_no_candidate() {
    let locs = vec![loc(0, 3, 0, 30), loc(1, 2, 0, 8)];
    let base = select_line_candidates(&locs);
    let mut more = locs.clone();
    more.push(loc(0, 0, 0, 1));
    more.push(loc(0, 3, 9, 31));
    assert_eq!(select_line_candidates(&more), base);
}

#[test]
fn candidates_ignore_order_of_locations() {
    let locs = vec![loc(0, 3, 0, 30), loc(1, 2, 0, 8), loc(0, 3, 1, 35), loc(0, 1, 0, 4)];
    let perm = vec![loc(0, 1, 0, 4), loc(0, 3, 1, 35), loc(1, 2, 0, 8), loc(0, 3, 0, 30)];
    assert_eq!(select_line_candidates(&perm), select_line_candidates(&locs));
}

#[test]
fn instrumenting_ignores_order_and_redundant_locations() {
    let wasm = tiny_module();
    let locs = vec![loc(0, 1, 0, 0), loc(0, 2, 0, 1)];
    let base = instrument_binary(&wasm, &locs).expect("instrumented");
    let perm = vec![loc(0, 2, 0, 1), loc(0, 1, 0, 0)];
    let permuted = instrument_binary(&wasm, &perm).expect("instrumented");
    assert_eq!(base.0, permuted.0);
    assert_eq!(base.1, permuted.1);
    assert_eq!(base.2, permuted.2);
    let mut more = locs.clone();
    more.push(loc(0, 0, 0, 0));
    more.push(loc(0, 1, 3, 5));
    let extended = instrument_binary(&wasm, &more).expect("instrumented");
    assert_eq!(base.0, extended.0);
    assert_eq!(base.1, extended.1);
    assert_eq!(base.2, extended.2);
}
