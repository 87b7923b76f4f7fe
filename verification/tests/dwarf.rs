use wasmdbg::dwarf::{build_filename, collect_locations, locations_from_rows, render_file_path, statement_rows, DwarfFileName, DwarfRow, LineRow};
use wasmdbg::types::LocationInfo;

fn name(dir: Option<&str>, n: &str) -> DwarfFileName {
    DwarfFileName { directory: dir.map(|d| d.to_string()), name: n.to_string() }
}

#[test]
fn filename_joins_directory_with_slash() {
    assert_eq!(build_filename(&name(Some("/src"), "main.c")), "/src/main.c");
    assert_eq!(build_filename(&name(Some("/src/"), "main.c")), "/src/main.c");
    assert_eq!(build_filename(&name(Some("."), "main.c")), "main.c");
    assert_eq!(build_filename(&name(Some(""), "main.c")), "main.c");
    assert_eq!(build_filename(&name(None, "main.c")), "main.c");
    assert_eq!(build_filename(&name(Some("./a"), "b.c")), "./a/b.c");
}

fn row(address: u64, line: u64, column: u64, is_stmt: bool, file: Option<DwarfFileName>) -> DwarfRow {
    DwarfRow { address, file_index: 1, line, column, is_stmt, file }
}

#[test]
fn locations_deduplicate_files_in_order_of_first_use() {
    let rows = vec![
        row(10, 3, 1, true, Some(name(Some("/src"), "b.c"))),
        row(11, 4, 0, false, Some(name(Some("/src"), "a.c"))),
        row(12, 5, 2, true, Some(name(Some("/src"), "a.c"))),
        row(13, 6, 0, true, None),
        row(14, 7, 9, true, Some(name(Some("/src/"), "b.c"))),
    ];
    let (locs, files) = collect_locations(&rows);
    assert_eq!(files, vec!["/src/b.c".to_string(), "/src/a.c".to_string()]);
    assert_eq!(
        locs,
        vec![
            LocationInfo { file: 0, line: 3, col: 1, address: 10 },
            LocationInfo { file: 1, line: 5, col: 2, address: 12 },
            LocationInfo { file: 0, line: 7, col: 9, address: 14 },
        ]
    );
}

#[test]
fn locations_cut_line_and_column_to_32_bits() {
    let rows = vec![row(1, (1u64 << 32) + 7, (1u64 << 33) + 2, true, Some(name(None, "x.c")))];
    let (locs, _) = collect_locations(&rows);
    assert_eq!(locs, vec![LocationInfo { file: 0, line: 7, col: 2, address: 1 }]);
}

#[test]
fn line_table_keeps_statements() {
    let rows = vec![row(10, 3, 1, true, None), row(11, 4, 0, false, None), row(12, 0, 0, true, None)];
    assert_eq!(
        statement_rows(&rows),
        vec![
            LineRow { address: 10, file_index: 1, line: 3, column: 1 },
            LineRow { address: 12, file_index: 1, line: 0, column: 0 },
        ]
    );
}

#[test]
fn file_path_pushes_components() {
    let some = |s: &str| Some(s.to_string());
    assert_eq!(render_file_path(&some("/work"), &some("src"), 1, "main.c"), "/work/src/main.c");
    assert_eq!(render_file_path(&some("/work"), &some("src"), 0, "main.c"), "/work/main.c");
    assert_eq!(render_file_path(&some("/work"), &some("/abs"), 2, "main.c"), "/abs/main.c");
    assert_eq!(render_file_path(&None, &None, 3, "main.c"), "main.c");
    assert_eq!(render_file_path(&some("/work/"), &None, 0, "/tmp/x.c"), "/tmp/x.c");
}

#[test]
fn unreadable_sections_give_no_locations() {
    let (locs, files) = locations_from_rows(None);
    assert!(locs.is_empty() && files.is_empty());
    let (locs, files) = locations_from_rows(Some(vec![row(8, 3, 1, true, Some(name(None, "a.c")))]));
    assert_eq!(locs, vec![LocationInfo { file: 0, line: 3, col: 1, address: 8 }]);
    assert_eq!(files, vec!["a.c".to_string()]);
}
