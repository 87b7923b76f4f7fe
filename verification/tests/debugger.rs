use wasmdbg::dap::Variable;
use wasmdbg::debugger::{breakpoint_hit, BreakpointHit, Debugger, BREAKPOINT_PREFIX_BYTES};
use wasmdbg::formatters::{ChildCounts, FormatterError, VariableFormatter, VariableSliceExt};
use wasmdbg::types::{BreakpointRange, LocationInfo};
use wasmdbg::variables::{get_location, get_variables, DieNode, LocationAttr, LocationListEntry, Visit, visit_entry};

fn range(bkpt: u32) -> BreakpointRange {
    BreakpointRange { file: 0, start_line: bkpt, end_line: bkpt, bkpt }
}

#[test]
fn buffer_has_sentinel_and_one_word_per_breakpoint() {
    let d = Debugger::new(vec![LocationInfo { file: 0, line: 1, col: 0, address: 0 }], vec![range(2), range(5), range(3)], vec![]);
    assert_eq!(d.max_bkpt(), 5);
    assert_eq!(d.buffer_size(), 24);
    assert_eq!(d.flag_slot(0), None);
    assert_eq!(d.flag_slot(1), Some(1));
    assert_eq!(d.flag_slot(5), Some(5));
    assert_eq!(d.flag_slot(6), None);
    assert_eq!(d.locations().len(), 1);
    let empty = Debugger::new(vec![], vec![], vec!["a.c".to_string()]);
    assert_eq!(empty.buffer_size(), 4);
    assert_eq!(empty.flag_slot(1), None);
    assert_eq!(empty.files(), &["a.c".to_string()]);
}

#[test]
fn breakpoint_stops_only_when_flagged() {
    assert_eq!(breakpoint_hit(0, 7, 100), None);
    assert_eq!(breakpoint_hit(2, 7, 100), Some(BreakpointHit { location: 7, stack_pointer: 100 }));
    assert_eq!(BREAKPOINT_PREFIX_BYTES, 16);
}

fn die(offset: u64, tag: u16, low: Option<usize>, high: Option<usize>, children: Vec<DieNode>) -> DieNode {
    DieNode { offset, tag, low_pc: low, high_pc: high, children }
}

#[test]
fn variables_of_scopes_holding_pc() {
    let func = die(
        1,
        0x2e,
        Some(0),
        Some(100),
        vec![
            die(2, 0x05, None, None, vec![]),
            die(3, 0x0b, Some(10), Some(20), vec![die(4, 0x34, None, None, vec![])]),
            die(5, 0x0b, Some(30), Some(40), vec![die(6, 0x34, None, None, vec![])]),
            die(7, 0x34, None, None, vec![]),
            die(8, 0x0c, None, None, vec![]),
        ],
    );
    assert_eq!(get_variables(&func, 15), vec![2, 4, 7, 8]);
    assert_eq!(get_variables(&func, 35), vec![2, 6, 7, 8]);
    assert_eq!(get_variables(&func, 20), vec![2, 7, 8]);
    assert_eq!(visit_entry(&die(9, 0x0b, Some(10), None, vec![]), 9), Visit::SkipChildren);
}

#[test]
fn location_from_list_entry_holding_pc() {
    let entry = |begin, end, b: u8| Some(LocationListEntry { begin, end, data: vec![b] });
    let list = Some(LocationAttr::List(vec![entry(0, 10, 1), entry(10, 20, 2), None, entry(20, 30, 3)]));
    assert_eq!(get_location(&list, 5), Some(vec![1]));
    assert_eq!(get_location(&list, 10), Some(vec![2]));
    assert_eq!(get_location(&list, 25), None);
    assert_eq!(get_location(&Some(LocationAttr::Exprloc(vec![9, 9])), 1000), Some(vec![9, 9]));
    assert_eq!(get_location(&Some(LocationAttr::Unreadable), 1), None);
    assert_eq!(get_location(&None, 1), None);
}

fn var(name: &str, value: &str) -> Variable {
    Variable { name: name.to_string(), value: value.to_string(), var_type: None }
}

#[test]
fn find_returns_first_variable_with_name() {
    let vars = vec![var("x", "1"), var("y", "2"), var("x", "3")];
    assert_eq!(vars.find("x").map(|v| v.value.clone()), Some("1".to_string()));
    assert_eq!(vars.find("y").map(|v| v.value.clone()), Some("2".to_string()));
    assert!(vars.find("z").is_none());
    assert_eq!(vars[2].display(), "3");
}

#[test]
fn child_counts() {
    let c = ChildCounts::mixed(3, 4);
    assert_eq!((c.indexed, c.named), (3, 4));
    let c = ChildCounts::indexed(5);
    assert_eq!((c.indexed, c.named), (5, 0));
    let c = ChildCounts::named(6);
    assert_eq!((c.indexed, c.named), (0, 6));
}

struct PlainFormatter;

impl VariableFormatter for PlainFormatter {
    fn matches(&self, _value: &Variable) -> bool {
        true
    }

    fn num_children(&self, _value: &Variable) -> Result<ChildCounts, FormatterError> {
        Ok(ChildCounts::named(0))
    }
}

#[test]
fn default_formatter_has_no_children_and_shows_the_value() {
    let v = var("x", "42");
    let f = PlainFormatter;
    assert_eq!(f.indexed_children(&v, 0..2).unwrap_err().message, "indexed_children not implemented");
    assert_eq!(f.named_children(&v, 0..2).unwrap_err().message, "named_children not implemented");
    assert_eq!(f.display(&v).unwrap(), "42");
    assert!(f.matches(&v));
    assert_eq!(f.num_children(&v).unwrap().named, 0);
}
