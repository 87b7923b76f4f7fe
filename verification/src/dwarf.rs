//! Line tables from DWARF debug info: which rows are breakpoint locations, the
//! names of their files, and the deduplicated list of those names.
use vstd::prelude::*;
use vstd::string::*;

use crate::paths::{push_path, push_path_str};
use crate::types::LocationInfo;

verus! {

/// The file entry that a line-table row names: its directory (when the entry
/// has one) and its path name, both as read from the string sections.
pub struct DwarfFileName {
    pub directory: Option<String>,
    pub name: String,
}

/// One row of a unit's line program, as read from the DWARF sections.
pub struct DwarfRow {
    /// Code address of the row.
    pub address: u64,
    /// Index of the row's file within its unit.
    pub file_index: u64,
    /// One-based line, 0 when the row has none.
    pub line: u64,
    /// One-based column, 0 for the left edge.
    pub column: u64,
    /// Whether the row begins a statement.
    pub is_stmt: bool,
    /// The row's file entry, when its index names one.
    pub file: Option<DwarfFileName>,
}

/// A statement of a unit's line table.
#[derive(PartialEq, Eq, Debug, Clone, Copy, Structural)]
pub struct LineRow {
    /// PC address within code segment
    pub address: u64,
    /// Index of corresponding file within this unit
    pub file_index: u64,
    /// Line number within file (one-indexed)
    pub line: u64,
    /// Column number (0 is left edge)
    pub column: u64,
}

/// What a file's directory contributes to its name: nothing when it is absent,
/// empty or `.`, else the directory ending in `/`.
pub open spec fn directory_prefix(dir: Option<Seq<char>>) -> Seq<char> {
    match dir {
        Some(d) => if d.len() == 0 || d == seq!['.'] {
            Seq::empty()
        } else if d.last() == '/' {
            d
        } else {
            d.push('/')
        },
        None => Seq::empty(),
    }
}

/// The view of an optional string.
pub open spec fn opt_view(s: Option<String>) -> Option<Seq<char>> {
    match s {
        Some(x) => Some(x@),
        None => None,
    }
}

/// The name of a file: its directory prefix, then its path name.
pub open spec fn file_name_spec(f: DwarfFileName) -> Seq<char> {
    directory_prefix(opt_view(f.directory)) + f.name@
}

/// Build a filename from a file entry, handling directory prefixes.
pub fn build_filename(file: &DwarfFileName) -> (path: String)
    ensures
        path@ == file_name_spec(*file),
{
    let mut path = String::new();
    match &file.directory {
        Some(dir) => {
            let d = dir.as_str();
            let n = d.unicode_len();
            let is_dot = n == 1 && d.get_char(0) == '.';
            proof {
                if n == 1 && d@[0] == '.' {
                    assert(d@ =~= seq!['.']);
                }
                if d@ =~= seq!['.'] {
                    assert(d@[0] == '.');
                }
            }
            if n != 0 && !is_dot {
                path.append(d);
                if d.get_char(n - 1) != '/' {
                    proof {
                        reveal_strlit("/");
                    }
                    path.append("/");
                }
            }
        },
        None => {},
    }
    path.append(file.name.as_str());
    assert(path@ =~= file_name_spec(*file));
    path
}

/// The views of a list of strings.
pub open spec fn names_view(files: Seq<String>) -> Seq<Seq<char>> {
    files.map_values(|s: String| s@)
}

/// The locations of the statement rows of `rows` that name a file, in order,
/// and the names of their files, each once, in order of first use. A location
/// holds the index of its file's name, and its line and column cut to 32 bits.
pub open spec fn row_locations(rows: Seq<DwarfRow>) -> (Seq<LocationInfo>, Seq<Seq<char>>)
    decreases rows.len(),
{
    if rows.len() == 0 {
        (Seq::empty(), Seq::empty())
    } else {
        let (locs, files) = row_locations(rows.drop_last());
        let row = rows.last();
        if !row.is_stmt || row.file is None {
            (locs, files)
        } else {
            let name = file_name_spec(row.file.unwrap());
            let idx = if files.contains(name) {
                files.index_of(name)
            } else {
                files.len() as int
            };
            let files2 = if files.contains(name) {
                files
            } else {
                files.push(name)
            };
            (
                locs.push(
                    LocationInfo {
                        file: idx as u32,
                        line: row.line as u32,
                        col: row.column as u32,
                        address: row.address,
                    },
                ),
                files2,
            )
        }
    }
}

/// The position of `name` in `files`, if it is there.
fn find_name(files: &Vec<String>, name: &String) -> (res: Option<usize>)
    requires
        names_view(files@).no_duplicates(),
    ensures
        res is Some <==> names_view(files@).contains(name@),
        res is Some ==> res.unwrap() < files@.len() && names_view(files@).index_of(name@) == res.unwrap() as int,
{
    let n = files.len();
    let mut k: usize = 0;
    while k < n
        invariant
            n == files@.len(),
            k <= n,
            names_view(files@).no_duplicates(),
            forall|j: int| 0 <= j < k ==> #[trigger] files@[j]@ != name@,
        decreases n - k,
    {
        if files[k] == *name {
            proof {
                let v = names_view(files@);
                assert(v[k as int] == name@);
                assert(v.contains(name@));
                let j = v.index_of(name@);
                assert(v[j] == name@);
                assert(0 <= j < v.len() && v[j] == name@);
                assert(v.len() == files@.len());
                assert(v.no_duplicates());
                let kk = k as int;
                assert(j == kk) by {
                    if j != kk {
                        assert(0 <= j < v.len() && 0 <= kk < v.len() && j != kk);
                        assert(v[j] != v[kk]);
                    }
                }
            }
            return Some(k);
        }
        k = k + 1;
    }
    assert(!names_view(files@).contains(name@)) by {
        if names_view(files@).contains(name@) {
            let j = choose|j: int| 0 <= j < n && names_view(files@)[j] == name@;
            assert(files@[j]@ == name@);
        }
    }
    None
}

/// The list of file names holds each name once.
pub proof fn law_file_names_deduplicated(rows: Seq<DwarfRow>)
    ensures
        row_locations(rows).1.no_duplicates(),
    decreases rows.len(),
{
    if rows.len() > 0 {
        law_file_names_deduplicated(rows.drop_last());
    }
}

/// Parse DWARF line rows into breakpoint locations.
///
/// Returns (locations, files) where:
/// - locations: All possible breakpoint locations (file index, line, col)
/// - files: Deduplicated list of source filenames
pub fn collect_locations(rows: &[DwarfRow]) -> (res: (Vec<LocationInfo>, Vec<String>))
    ensures
        (res.0@, names_view(res.1@)) == row_locations(rows@),
{
    let mut locations: Vec<LocationInfo> = Vec::new();
    let mut files: Vec<String> = Vec::new();
    let n = rows.len();
    let mut i: usize = 0;
    assert(rows@.take(0) =~= Seq::<DwarfRow>::empty());
    assert(names_view(files@) =~= Seq::<Seq<char>>::empty());
    while i < n
        invariant
            n == rows@.len(),
            i <= n,
            (locations@, names_view(files@)) == row_locations(rows@.take(i as int)),
        decreases n - i,
    {
        let row = &rows[i];
        proof {
            assert(rows@.take(i + 1).drop_last() =~= rows@.take(i as int));
            assert(rows@.take(i + 1).last() == *row);
            law_file_names_deduplicated(rows@.take(i as int));
        }
        if row.is_stmt {
            match &row.file {
                Some(file) => {
                    let filename = build_filename(file);
                    let file_idx: u32 = match find_name(&files, &filename) {
                        Some(k) => #[verifier::truncate] (k as u32),
                        None => {
                            let k = files.len();
                            let ghost old_files = files@;
                            files.push(filename);
                            assert(names_view(files@) =~= names_view(old_files).push(filename@));
                            #[verifier::truncate] (k as u32)
                        },
                    };
                    locations.push(
                        LocationInfo {
                            file: file_idx,
                            line: #[verifier::truncate] (row.line as u32),
                            col: #[verifier::truncate] (row.column as u32),
                            address: row.address,
                        },
                    );
                },
                None => {},
            }
        }
        i = i + 1;
    }
    assert(rows@.take(n as int) =~= rows@);
    (locations, files)
}

/// The statement rows of `rows`, in order, as line-table entries.
pub open spec fn statement_rows_spec(rows: Seq<DwarfRow>) -> Seq<LineRow>
    decreases rows.len(),
{
    if rows.len() == 0 {
        Seq::empty()
    } else {
        let prev = statement_rows_spec(rows.drop_last());
        let row = rows.last();
        if row.is_stmt {
            prev.push(
                LineRow { address: row.address, file_index: row.file_index, line: row.line, column: row.column },
            )
        } else {
            prev
        }
    }
}

/// The breakpoint locations and file names of a module's line tables, from
/// their rows; none at all when the debug sections could not be read.
pub fn locations_from_rows(rows: Option<Vec<DwarfRow>>) -> (res: (Vec<LocationInfo>, Vec<String>))
    ensures
        match rows {
            Some(r) => (res.0@, names_view(res.1@)) == row_locations(r@),
            None => res.0@.len() == 0 && res.1@.len() == 0,
        },
{
    match rows {
        Some(r) => collect_locations(r.as_slice()),
        None => (Vec::new(), Vec::new()),
    }
}

/// The line-table entries of a unit: its rows that begin a statement.
pub fn statement_rows(rows: &[DwarfRow]) -> (lines: Vec<LineRow>)
    ensures
        lines@ == statement_rows_spec(rows@),
{
    let mut lines: Vec<LineRow> = Vec::new();
    let n = rows.len();
    let mut i: usize = 0;
    assert(rows@.take(0) =~= Seq::<DwarfRow>::empty());
    while i < n
        invariant
            n == rows@.len(),
            i <= n,
            lines@ == statement_rows_spec(rows@.take(i as int)),
        decreases n - i,
    {
        let row = &rows[i];
        proof {
            assert(rows@.take(i + 1).drop_last() =~= rows@.take(i as int));
            assert(rows@.take(i + 1).last() == *row);
        }
        if row.is_stmt {
            lines.push(
                LineRow { address: row.address, file_index: row.file_index, line: row.line, column: row.column },
            );
        }
        i = i + 1;
    }
    assert(rows@.take(n as int) =~= rows@);
    lines
}

/// Some location of `locs` names file `f`.
pub open spec fn names_file(locs: Seq<LocationInfo>, f: int) -> bool {
    exists|i: int| 0 <= i < locs.len() && locs[i].file == f
}

/// Every location names a file of the list (as long as the list's indices fit
/// in 32 bits), and no file is listed that no location names.
pub proof fn law_locations_name_listed_files(rows: Seq<DwarfRow>)
    requires
        row_locations(rows).1.len() <= u32::MAX,
    ensures
        forall|i: int|
            0 <= i < row_locations(rows).0.len() ==> (#[trigger] row_locations(rows).0[i]).file
                < row_locations(rows).1.len(),
        forall|f: int| 0 <= f < row_locations(rows).1.len() ==> #[trigger] names_file(row_locations(rows).0, f),
    decreases rows.len(),
{
    if rows.len() > 0 {
        let prev = rows.drop_last();
        let (locs0, files0) = row_locations(prev);
        let (locs, files) = row_locations(rows);
        assert(files0.len() <= files.len());
        law_locations_name_listed_files(prev);
        let row = rows.last();
        if row.is_stmt && row.file is Some {
            let name = file_name_spec(row.file.unwrap());
            if files0.contains(name) {
                let j = files0.index_of(name);
                assert(0 <= j < files0.len());
            }
            assert forall|i: int| 0 <= i < locs.len() implies (#[trigger] locs[i]).file < files.len() by {
                if i < locs0.len() {
                    assert(locs[i] == locs0[i]);
                }
            }
            assert forall|f: int| 0 <= f < files.len() implies #[trigger] names_file(locs, f) by {
                if f < files0.len() {
                    assert(names_file(locs0, f));
                    let i = choose|i: int| 0 <= i < locs0.len() && locs0[i].file == f;
                    assert(locs[i] == locs0[i]);
                } else {
                    assert(locs[locs.len() - 1].file == f);
                }
            }
        }
    }
}

/// The path of a unit's file entry, pushed together as onto a path buffer:
/// the unit's compilation directory (or nothing), then the entry's directory
/// when its index is not 0 and it names one, then the entry's path name.
pub open spec fn file_path_spec(
    comp_dir: Option<Seq<char>>,
    directory: Option<Seq<char>>,
    directory_index: u64,
    path_name: Seq<char>,
) -> Seq<char> {
    let base = match comp_dir {
        Some(c) => c,
        None => Seq::empty(),
    };
    let with_dir = match directory {
        Some(d) => if directory_index != 0 {
            push_path(base, d)
        } else {
            base
        },
        None => base,
    };
    push_path(with_dir, path_name)
}

/// The path of a unit's file entry, from the strings read for it.
pub fn render_file_path(
    comp_dir: &Option<String>,
    directory: &Option<String>,
    directory_index: u64,
    path_name: &str,
) -> (path: String)
    ensures
        path@ == file_path_spec(opt_view(*comp_dir), opt_view(*directory), directory_index, path_name@),
{
    let base = match comp_dir {
        Some(c) => c.clone(),
        None => String::new(),
    };
    let with_dir = match directory {
        Some(d) => if directory_index != 0 {
            push_path_str(base.as_str(), d.as_str())
        } else {
            base
        },
        None => base,
    };
    push_path_str(with_dir.as_str(), path_name)
}

} // verus!
