//! Which variables are live at a program counter, and where a variable lives
//! there, read from a function's tree of debugging entries.
use vstd::prelude::*;

verus! {

/// `DW_TAG_subprogram`.
pub const DW_TAG_SUBPROGRAM: u16 = 0x2e;

/// `DW_TAG_formal_parameter`.
pub const DW_TAG_FORMAL_PARAMETER: u16 = 0x05;

/// `DW_TAG_local_variable` (as gimli numbers it).
pub const DW_TAG_LOCAL_VARIABLE: u16 = 0x0c;

/// `DW_TAG_variable`, the tag compilers give local variables.
pub const DW_TAG_VARIABLE: u16 = 0x34;

/// A debugging information entry, with what the variable search reads of it.
pub struct DieNode {
    /// The entry's offset in its unit, which identifies it.
    pub offset: u64,
    pub tag: u16,
    /// `DW_AT_low_pc`, when present.
    pub low_pc: Option<usize>,
    /// `DW_AT_high_pc` (as an address), when present.
    pub high_pc: Option<usize>,
    pub children: Vec<DieNode>,
}

/// How a tree walk goes on after visiting an entry.
#[derive(Clone, Copy, Debug, PartialEq, Eq, Structural)]
pub enum Visit {
    Continue,
    SkipChildren,
}

/// Whether an entry is a parameter or a local variable.
pub open spec fn is_variable_tag(tag: u16) -> bool {
    tag == DW_TAG_FORMAL_PARAMETER || tag == DW_TAG_LOCAL_VARIABLE || tag == DW_TAG_VARIABLE
}

/// How the search goes on after an entry: into its children, unless it is a
/// scope whose code range does not hold `pc`.
pub open spec fn visit_for(node: DieNode, pc: usize) -> Visit {
    if is_variable_tag(node.tag) {
        Visit::Continue
    } else if node.low_pc matches Some(low) && pc < low {
        Visit::SkipChildren
    } else if node.high_pc matches Some(high) && pc >= high {
        Visit::SkipChildren
    } else {
        Visit::Continue
    }
}

/// Decide, for one entry, how the search goes on.
pub fn visit_entry(node: &DieNode, pc: usize) -> (v: Visit)
    ensures
        v == visit_for(*node, pc),
{
    if node.tag == DW_TAG_FORMAL_PARAMETER || node.tag == DW_TAG_LOCAL_VARIABLE || node.tag == DW_TAG_VARIABLE {
        return Visit::Continue;
    }
    if let Some(low) = node.low_pc {
        if pc < low {
            return Visit::SkipChildren;
        }
    }
    if let Some(high) = node.high_pc {
        if pc >= high {
            return Visit::SkipChildren;
        }
    }
    Visit::Continue
}

/// The offsets of the variables found in `node` and below it, in pre-order,
/// not descending into scopes that do not hold `pc`.
pub open spec fn live_in(node: DieNode, pc: usize) -> Seq<u64>
    decreases node, 0nat,
{
    let own = if is_variable_tag(node.tag) {
        seq![node.offset]
    } else {
        Seq::empty()
    };
    if visit_for(node, pc) == Visit::Continue {
        own + live_in_all(node.children@, pc)
    } else {
        own
    }
}

/// The variables found in each of `nodes` in turn.
pub open spec fn live_in_all(nodes: Seq<DieNode>, pc: usize) -> Seq<u64>
    decreases nodes, 1nat,
{
    if nodes.len() == 0 {
        Seq::empty()
    } else {
        live_in_all(nodes.drop_last(), pc) + live_in(nodes.last(), pc)
    }
}

fn collect_live(node: &DieNode, pc: usize, result: &mut Vec<u64>)
    ensures
        final(result)@ == old(result)@ + live_in(*node, pc),
    decreases node, 0nat,
{
    let ghost start = result@;
    if node.tag == DW_TAG_FORMAL_PARAMETER || node.tag == DW_TAG_LOCAL_VARIABLE || node.tag == DW_TAG_VARIABLE {
        result.push(node.offset);
    }
    let ghost own = if is_variable_tag(node.tag) {
        seq![node.offset]
    } else {
        Seq::empty()
    };
    assert(result@ =~= start + own);
    if visit_entry(node, pc) == Visit::Continue {
        collect_live_all(&node.children, pc, result);
        assert(result@ =~= start + (own + live_in_all(node.children@, pc)));
    }
}

fn collect_live_all(nodes: &Vec<DieNode>, pc: usize, result: &mut Vec<u64>)
    ensures
        final(result)@ == old(result)@ + live_in_all(nodes@, pc),
    decreases nodes@, 1nat,
{
    let ghost start = result@;
    let n = nodes.len();
    let mut i: usize = 0;
    assert(nodes@.take(0) =~= Seq::<DieNode>::empty());
    assert(result@ =~= start + live_in_all(nodes@.take(0), pc));
    while i < n
        invariant
            n == nodes@.len(),
            i <= n,
            result@ == start + live_in_all(nodes@.take(i as int), pc),
        decreases n - i,
    {
        proof {
            assert(nodes@.take(i + 1).drop_last() =~= nodes@.take(i as int));
            assert(nodes@.take(i + 1).last() == nodes@[i as int]);
        }
        collect_live(&nodes[i], pc, result);
        assert(result@ =~= start + live_in_all(nodes@.take(i + 1), pc));
        i = i + 1;
    }
    assert(nodes@.take(n as int) =~= nodes@);
}

/// Gets all live variables at the given PC: the offsets of the parameters and
/// locals among the descendants of `die`, in pre-order, not looking into
/// scopes whose code range does not hold `pc`.
///
/// `die` should be a subprogram, and `pc` an offset within the wasm code segment.
pub fn get_variables(die: &DieNode, pc: usize) -> (vars: Vec<u64>)
    requires
        die.tag == DW_TAG_SUBPROGRAM,
    ensures
        vars@ == live_in_all(die.children@, pc),
{
    let mut result: Vec<u64> = Vec::new();
    collect_live_all(&die.children, pc, &mut result);
    assert(result@ =~= live_in_all(die.children@, pc));
    result
}

/// One entry of a location list: where the variable lives while the pc is in
/// `begin..end`.
pub struct LocationListEntry {
    pub begin: u64,
    pub end: u64,
    pub data: Vec<u8>,
}

/// A variable's `DW_AT_location`, as read.
pub enum LocationAttr {
    /// A single location expression.
    Exprloc(Vec<u8>),
    /// A location list, read entry by entry; `None` where reading an entry
    /// failed (nothing after it is read).
    List(Vec<Option<LocationListEntry>>),
    /// A location list that could not be read.
    Unreadable,
}

/// The location expression of a variable at `addr`: its only expression, or
/// the first entry of its list (read before any failure) whose range holds `addr`.
pub open spec fn location_at(attr: Option<LocationAttr>, addr: u64) -> Option<Seq<u8>> {
    match attr {
        None => None,
        Some(LocationAttr::Exprloc(e)) => Some(e@),
        Some(LocationAttr::Unreadable) => None,
        Some(LocationAttr::List(entries)) => location_in_list(entries@, addr),
    }
}

/// The first entry of `entries` read before any failure whose range holds `addr`.
pub open spec fn location_in_list(entries: Seq<Option<LocationListEntry>>, addr: u64) -> Option<Seq<u8>>
    decreases entries.len(),
{
    if entries.len() == 0 {
        None
    } else {
        match entries[0] {
            None => None,
            Some(e) => if e.begin <= addr && addr < e.end {
                Some(e.data@)
            } else {
                location_in_list(entries.drop_first(), addr)
            },
        }
    }
}

/// Entry `k` of a location list was read (no entry up to it failed) and its
/// range `begin..end` holds `addr`.
pub open spec fn read_entry_holds(entries: Seq<Option<LocationListEntry>>, k: int, addr: u64) -> bool {
    &&& 0 <= k < entries.len()
    &&& forall|j: int| 0 <= j <= k ==> #[trigger] entries[j] is Some
    &&& entries[k].unwrap().begin <= addr
    &&& addr < entries[k].unwrap().end
}

/// A location list gives the expression of an entry whose range holds the
/// address, the first such entry read before any failure; and it gives none
/// exactly when no entry read before the first failure holds the address.
pub proof fn law_location_list_range_holds_address(entries: Seq<Option<LocationListEntry>>, addr: u64)
    ensures
        location_in_list(entries, addr) matches Some(d) ==> exists|k: int|
            {
                &&& #[trigger] read_entry_holds(entries, k, addr)
                &&& entries[k].unwrap().data@ == d
                &&& forall|j: int| 0 <= j < k ==> !read_entry_holds(entries, j, addr)
            },
        location_in_list(entries, addr) is None <==> forall|k: int| !#[trigger] read_entry_holds(entries, k, addr),
    decreases entries.len(),
{
    if entries.len() > 0 {
        let rest = entries.drop_first();
        law_location_list_range_holds_address(rest, addr);
        assert forall|k: int| 0 <= k < rest.len() implies #[trigger] read_entry_holds(entries, k + 1, addr)
            == (read_entry_holds(rest, k, addr) && entries[0] is Some) by {
            assert(rest[k] == entries[k + 1]);
            if read_entry_holds(entries, k + 1, addr) {
                assert forall|j: int| 0 <= j <= k implies #[trigger] rest[j] is Some by {
                    assert(rest[j] == entries[j + 1]);
                    assert(entries[j + 1] is Some);
                }
                assert(read_entry_holds(rest, k, addr));
                assert(entries[0] is Some);
            }
            if read_entry_holds(rest, k, addr) && entries[0] is Some {
                assert forall|j: int| 0 <= j <= k + 1 implies #[trigger] entries[j] is Some by {
                    if j > 0 {
                        assert(rest[j - 1] == entries[j]);
                        assert(rest[j - 1] is Some);
                    }
                }
                assert(read_entry_holds(entries, k + 1, addr));
            }
        }
        match entries[0] {
            None => {
                assert forall|k: int| !#[trigger] read_entry_holds(entries, k, addr) by {
                    if read_entry_holds(entries, k, addr) {
                        assert(entries[0] is Some);
                    }
                }
            },
            Some(e) => {
                if e.begin <= addr && addr < e.end {
                    assert(read_entry_holds(entries, 0, addr));
                } else {
                    assert(!read_entry_holds(entries, 0, addr));
                    match location_in_list(rest, addr) {
                        Some(d) => {
                            let k = choose|k: int|
                                {
                                    &&& #[trigger] read_entry_holds(rest, k, addr)
                                    &&& rest[k].unwrap().data@ == d
                                    &&& forall|j: int| 0 <= j < k ==> !read_entry_holds(rest, j, addr)
                                };
                            assert(read_entry_holds(entries, k + 1, addr));
                            assert forall|j: int| 0 <= j < k + 1 implies !read_entry_holds(entries, j, addr) by {
                                if j > 0 {
                                    assert(!read_entry_holds(rest, j - 1, addr));
                                }
                            }
                        },
                        None => {
                            assert forall|k: int| !#[trigger] read_entry_holds(entries, k, addr) by {
                                if k > 0 && read_entry_holds(entries, k, addr) {
                                    assert(read_entry_holds(rest, k - 1, addr));
                                }
                            }
                        },
                    }
                }
            },
        }
    }
}

/// Gets the location expression for a variable at the given PC.
pub fn get_location(attr: &Option<LocationAttr>, pc: usize) -> (r: Option<Vec<u8>>)
    ensures
        r is Some <==> location_at(*attr, pc as u64) is Some,
        r is Some ==> r.unwrap()@ == location_at(*attr, pc as u64).unwrap(),
{
    let addr = pc as u64;
    match attr {
        None => None,
        Some(LocationAttr::Exprloc(e)) => Some(e.clone()),
        Some(LocationAttr::Unreadable) => None,
        Some(LocationAttr::List(entries)) => {
            let n = entries.len();
            let mut i: usize = 0;
            assert(entries@.skip(0) =~= entries@);
            while i < n
                invariant
                    n == entries@.len(),
                    i <= n,
                    location_in_list(entries@, addr) == location_in_list(entries@.skip(i as int), addr),
                    location_at(*attr, pc as u64) == location_in_list(entries@, addr),
                    addr == pc as u64,
                decreases n - i,
            {
                let ghost rest = entries@.skip(i as int);
                assert(rest.drop_first() =~= entries@.skip(i + 1));
                assert(rest[0] == entries@[i as int]);
                match &entries[i] {
                    None => {
                        return None;
                    },
                    Some(e) => {
                        if e.begin <= addr && addr < e.end {
                            return Some(e.data.clone());
                        }
                    },
                }
                i = i + 1;
            }
            assert(entries@.skip(n as int).len() == 0);
            None
        },
    }
}

} // verus!
