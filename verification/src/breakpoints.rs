//! Where breakpoints go: one candidate per source line, the instruction each
//! candidate resolves to, and the line ranges that map to each breakpoint.
use vstd::prelude::*;

use crate::lookup::{is_sorted, last_at_most, sorted_triples, triple_le, Triple};
use crate::types::{BreakpointRange, LocationInfo};

verus! {

/// `a` comes before `b` in (file, line) order.
pub open spec fn key_lt(a: LocationInfo, b: LocationInfo) -> bool {
    a.file < b.file || (a.file == b.file && a.line < b.line)
}

/// `a` and `b` name the same source line.
pub open spec fn same_key(a: LocationInfo, b: LocationInfo) -> bool {
    a.file == b.file && a.line == b.line
}

/// Strictly increasing in (file, line): in particular no line occurs twice.
pub open spec fn strictly_sorted_by_key(s: Seq<LocationInfo>) -> bool {
    forall|i: int, j: int| 0 <= i < j < s.len() ==> key_lt(#[trigger] s[i], #[trigger] s[j])
}

/// Among `locs[0..n]`, `locs[i]` stands for its source line: the line is not 0,
/// and `locs[i]` is the first of the locations with the lowest address on that line.
pub open spec fn is_line_representative(locs: Seq<LocationInfo>, n: int, i: int) -> bool {
    &&& 0 <= i < n <= locs.len()
    &&& locs[i].line != 0
    &&& forall|j: int|
        0 <= j < n && #[trigger] same_key(locs[j], locs[i]) ==> (j < i ==> locs[i].address
            < locs[j].address) && (i <= j ==> locs[i].address <= locs[j].address)
}

/// `x` is the representative of its line among `locs[0..n]`.
pub open spec fn represents_line(locs: Seq<LocationInfo>, n: int, x: LocationInfo) -> bool {
    exists|i: int| #[trigger] is_line_representative(locs, n, i) && x == locs[i]
}

/// What the candidates of `locs[0..n]` are: sorted and unique by line, each the
/// representative of its line, and every line (other than 0) represented.
#[verifier::opaque]
pub open spec fn are_line_candidates(locs: Seq<LocationInfo>, n: int, c: Seq<LocationInfo>) -> bool {
    &&& strictly_sorted_by_key(c)
    &&& forall|k: int| 0 <= k < c.len() ==> represents_line(locs, n, #[trigger] c[k])
    &&& forall|j: int|
        0 <= j < n && locs[j].line != 0 ==> exists|k: int| 0 <= k < c.len() && #[trigger] same_key(c[k], locs[j])
}

fn key_less(a: &LocationInfo, b: &LocationInfo) -> (r: bool)
    ensures
        r == key_lt(*a, *b),
{
    a.file < b.file || (a.file == b.file && a.line < b.line)
}

/// First position in `c` whose line is not before `loc`'s.
fn lower_bound(c: &Vec<LocationInfo>, loc: &LocationInfo) -> (p: usize)
    requires
        strictly_sorted_by_key(c@),
    ensures
        p <= c@.len(),
        forall|k: int| 0 <= k < p ==> key_lt(#[trigger] c@[k], *loc),
        forall|k: int| p <= k < c@.len() ==> !key_lt(#[trigger] c@[k], *loc),
{
    let mut lo: usize = 0;
    let mut hi: usize = c.len();
    while lo < hi
        invariant
            lo <= hi <= c@.len(),
            strictly_sorted_by_key(c@),
            forall|k: int| 0 <= k < lo ==> key_lt(#[trigger] c@[k], *loc),
            forall|k: int| hi <= k < c@.len() ==> !key_lt(#[trigger] c@[k], *loc),
        decreases hi - lo,
    {
        let mid = lo + (hi - lo) / 2;
        if key_less(&c[mid], loc) {
            assert forall|k: int| 0 <= k < mid + 1 implies key_lt(#[trigger] c@[k], *loc) by {
                if k < mid {
                    assert(key_lt(c@[k], c@[mid as int]));
                }
            }
            lo = mid + 1;
        } else {
            assert forall|k: int| mid <= k < c@.len() implies !key_lt(#[trigger] c@[k], *loc) by {
                if k > mid {
                    assert(key_lt(c@[mid as int], c@[k]));
                }
            }
            hi = mid;
        }
    }
    lo
}

proof fn lemma_rep_extends(locs: Seq<LocationInfo>, i: int, r: int)
    requires
        is_line_representative(locs, i, r),
        i < locs.len(),
        !same_key(locs[r], locs[i]),
    ensures
        is_line_representative(locs, i + 1, r),
{
}

proof fn lemma_other_candidate_extends(locs: Seq<LocationInfo>, i: int, c: Seq<LocationInfo>, p: int, k: int)
    requires
        strictly_sorted_by_key(c),
        0 <= i < locs.len(),
        0 <= p < c.len(),
        0 <= k < c.len(),
        k != p,
        same_key(c[p], locs[i]),
        represents_line(locs, i, c[k]),
    ensures
        represents_line(locs, i + 1, c[k]),
{
    let r = choose|r: int| is_line_representative(locs, i, r) && c[k] == locs[r];
    if k < p {
        assert(key_lt(c[k], c[p]));
    } else {
        assert(key_lt(c[p], c[k]));
    }
    lemma_rep_extends(locs, i, r);
}

pub(crate) proof fn lemma_candidates_sorted(locs: Seq<LocationInfo>, n: int, c: Seq<LocationInfo>)
    requires
        are_line_candidates(locs, n, c),
    ensures
        strictly_sorted_by_key(c),
{
    reveal(are_line_candidates);
}

proof fn lemma_candidates_empty(locs: Seq<LocationInfo>)
    ensures
        are_line_candidates(locs, 0, Seq::empty()),
{
    reveal(are_line_candidates);
}

proof fn lemma_candidates_skip(locs: Seq<LocationInfo>, i: int, c: Seq<LocationInfo>)
    requires
        are_line_candidates(locs, i, c),
        0 <= i < locs.len(),
        locs[i].line == 0,
    ensures
        are_line_candidates(locs, i + 1, c),
{
    reveal(are_line_candidates);
    assert forall|k: int| 0 <= k < c.len() implies represents_line(locs, i + 1, #[trigger] c[k]) by {
        let r = choose|r: int| is_line_representative(locs, i, r) && c[k] == locs[r];
        lemma_rep_extends(locs, i, r);
    }
}

proof fn lemma_candidates_keep(locs: Seq<LocationInfo>, i: int, c: Seq<LocationInfo>, p: int)
    requires
        are_line_candidates(locs, i, c),
        0 <= i < locs.len(),
        locs[i].line != 0,
        0 <= p < c.len(),
        same_key(c[p], locs[i]),
        c[p].address <= locs[i].address,
    ensures
        are_line_candidates(locs, i + 1, c),
{
    reveal(are_line_candidates);
    let r0 = choose|r: int| is_line_representative(locs, i, r) && c[p] == locs[r];
    assert(is_line_representative(locs, i + 1, r0)) by {
        assert(same_key(locs[r0], locs[i]));
    }
    assert forall|k: int| 0 <= k < c.len() implies represents_line(locs, i + 1, #[trigger] c[k]) by {
        if k != p {
            lemma_other_candidate_extends(locs, i, c, p, k);
        }
    }
    lemma_keep_covers(locs, i, c, p);
}

proof fn lemma_keep_covers(locs: Seq<LocationInfo>, i: int, c: Seq<LocationInfo>, p: int)
    requires
        0 <= i < locs.len(),
        0 <= p < c.len(),
        same_key(c[p], locs[i]),
        forall|j: int|
            0 <= j < i && locs[j].line != 0 ==> exists|k: int| 0 <= k < c.len() && #[trigger] same_key(c[k], locs[j]),
    ensures
        forall|j: int|
            0 <= j < i + 1 && locs[j].line != 0 ==> exists|k: int| 0 <= k < c.len() && #[trigger] same_key(c[k], locs[j]),
{
    assert forall|j: int| 0 <= j < i + 1 && locs[j].line != 0 implies exists|k: int|
        0 <= k < c.len() && #[trigger] same_key(c[k], locs[j]) by {
        if j == i {
            assert(same_key(c[p], locs[j]));
        }
    }
}

proof fn lemma_replace_sorted(c: Seq<LocationInfo>, p: int, loc: LocationInfo)
    requires
        strictly_sorted_by_key(c),
        0 <= p < c.len(),
        same_key(c[p], loc),
    ensures
        strictly_sorted_by_key(c.update(p, loc)),
{
    let c2 = c.update(p, loc);
    assert forall|a: int, b: int| 0 <= a < b < c2.len() implies key_lt(#[trigger] c2[a], #[trigger] c2[b]) by {
        assert(key_lt(c[a], c[b]));
    }
}

proof fn lemma_replace_covers(locs: Seq<LocationInfo>, i: int, c: Seq<LocationInfo>, p: int)
    requires
        0 <= i < locs.len(),
        0 <= p < c.len(),
        same_key(c[p], locs[i]),
        forall|j: int|
            0 <= j < i && locs[j].line != 0 ==> exists|k: int| 0 <= k < c.len() && #[trigger] same_key(c[k], locs[j]),
    ensures
        forall|j: int|
            0 <= j < i + 1 && locs[j].line != 0 ==> exists|k: int|
                0 <= k < c.len() && #[trigger] same_key(c.update(p, locs[i])[k], locs[j]),
{
    let c2 = c.update(p, locs[i]);
    assert forall|j: int| 0 <= j < i + 1 && locs[j].line != 0 implies exists|k: int|
        0 <= k < c2.len() && #[trigger] same_key(c2[k], locs[j]) by {
        if j < i {
            let k = choose|k: int| 0 <= k < c.len() && same_key(c[k], locs[j]);
            assert(same_key(c2[k], locs[j]));
        } else {
            assert(same_key(c2[p], locs[j]));
        }
    }
}

proof fn lemma_candidates_replace(locs: Seq<LocationInfo>, i: int, c: Seq<LocationInfo>, p: int)
    requires
        are_line_candidates(locs, i, c),
        0 <= i < locs.len(),
        locs[i].line != 0,
        0 <= p < c.len(),
        same_key(c[p], locs[i]),
        locs[i].address < c[p].address,
    ensures
        are_line_candidates(locs, i + 1, c.update(p, locs[i])),
{
    reveal(are_line_candidates);
    let c2 = c.update(p, locs[i]);
    let r0 = choose|r: int| is_line_representative(locs, i, r) && c[p] == locs[r];
    assert(is_line_representative(locs, i + 1, i)) by {
        assert forall|j: int|
            0 <= j < i + 1 && #[trigger] same_key(locs[j], locs[i]) implies (j < i ==> locs[i].address
                < locs[j].address) && (i <= j ==> locs[i].address <= locs[j].address) by {
            if j < i {
                assert(same_key(locs[j], locs[r0]));
            }
        }
    }
    assert forall|k: int| 0 <= k < c2.len() implies represents_line(locs, i + 1, #[trigger] c2[k]) by {
        if k == p {
            assert(c2[k] == locs[i]);
        } else {
            lemma_other_candidate_extends(locs, i, c, p, k);
        }
    }
    lemma_replace_covers(locs, i, c, p);
    lemma_replace_sorted(c, p, locs[i]);
}

proof fn lemma_insert_sorted(c: Seq<LocationInfo>, p: int, loc: LocationInfo)
    requires
        strictly_sorted_by_key(c),
        0 <= p <= c.len(),
        forall|k: int| 0 <= k < p ==> key_lt(#[trigger] c[k], loc),
        forall|k: int| p <= k < c.len() ==> key_lt(loc, #[trigger] c[k]),
    ensures
        strictly_sorted_by_key(c.insert(p, loc)),
{
    let c2 = c.insert(p, loc);
    assert forall|a: int, b: int| 0 <= a < b < c2.len() implies key_lt(#[trigger] c2[a], #[trigger] c2[b]) by {
        let a0 = if a < p { a } else { a - 1 };
        let b0 = if b < p { b } else { b - 1 };
        if a == p {
            assert(key_lt(loc, c[b0]));
        } else if b == p {
            assert(key_lt(c[a0], loc));
        } else {
            assert(key_lt(c[a0], c[b0]));
        }
    }
}

proof fn lemma_insert_represents(locs: Seq<LocationInfo>, i: int, c: Seq<LocationInfo>, p: int)
    requires
        0 <= i < locs.len(),
        0 <= p <= c.len(),
        forall|k: int| 0 <= k < c.len() ==> represents_line(locs, i, #[trigger] c[k]),
        forall|k: int| 0 <= k < c.len() ==> !same_key(#[trigger] c[k], locs[i]),
        is_line_representative(locs, i + 1, i),
    ensures
        forall|k: int| 0 <= k < c.len() + 1 ==> represents_line(locs, i + 1, #[trigger] c.insert(p, locs[i])[k]),
{
    let c2 = c.insert(p, locs[i]);
    assert forall|k: int| 0 <= k < c2.len() implies represents_line(locs, i + 1, #[trigger] c2[k]) by {
        if k == p {
            assert(c2[k] == locs[i]);
        } else {
            let k0 = if k < p { k } else { k - 1 };
            assert(c2[k] == c[k0]);
            assert(represents_line(locs, i, c[k0]));
            let r = choose|r: int| is_line_representative(locs, i, r) && c[k0] == locs[r];
            assert(!same_key(c[k0], locs[i]));
            lemma_rep_extends(locs, i, r);
        }
    }
}

proof fn lemma_insert_covers(locs: Seq<LocationInfo>, i: int, c: Seq<LocationInfo>, p: int)
    requires
        0 <= i < locs.len(),
        0 <= p <= c.len(),
        forall|j: int|
            0 <= j < i && locs[j].line != 0 ==> exists|k: int| 0 <= k < c.len() && #[trigger] same_key(c[k], locs[j]),
    ensures
        forall|j: int|
            0 <= j < i + 1 && locs[j].line != 0 ==> exists|k: int|
                0 <= k < c.len() + 1 && #[trigger] same_key(c.insert(p, locs[i])[k], locs[j]),
{
    let c2 = c.insert(p, locs[i]);
    assert forall|j: int| 0 <= j < i + 1 && locs[j].line != 0 implies exists|k: int|
        0 <= k < c2.len() && #[trigger] same_key(c2[k], locs[j]) by {
        if j < i {
            let k = choose|k: int| 0 <= k < c.len() && same_key(c[k], locs[j]);
            if k < p {
                assert(same_key(c2[k], locs[j]));
            } else {
                assert(same_key(c2[k + 1], locs[j]));
            }
        } else {
            assert(same_key(c2[p], locs[j]));
        }
    }
}

proof fn lemma_candidates_insert(locs: Seq<LocationInfo>, i: int, c: Seq<LocationInfo>, p: int)
    requires
        are_line_candidates(locs, i, c),
        0 <= i < locs.len(),
        locs[i].line != 0,
        0 <= p <= c.len(),
        forall|k: int| 0 <= k < p ==> key_lt(#[trigger] c[k], locs[i]),
        forall|k: int| p <= k < c.len() ==> !key_lt(#[trigger] c[k], locs[i]),
        p < c.len() ==> !same_key(c[p], locs[i]),
    ensures
        are_line_candidates(locs, i + 1, c.insert(p, locs[i])),
{
    reveal(are_line_candidates);
    let loc = locs[i];
    assert forall|k: int| p <= k < c.len() implies key_lt(loc, #[trigger] c[k]) by {
        if k > p {
            assert(key_lt(c[p], c[k]));
        }
    }
    assert forall|k: int| 0 <= k < c.len() implies !same_key(#[trigger] c[k], loc) by {
        if k < p {
            assert(key_lt(c[k], loc));
        } else {
            assert(key_lt(loc, c[k]));
        }
    }
    assert(is_line_representative(locs, i + 1, i)) by {
        assert forall|j: int| 0 <= j < i + 1 && #[trigger] same_key(locs[j], locs[i]) implies j == i by {
            if j < i {
                let k = choose|k: int| 0 <= k < c.len() && same_key(c[k], locs[j]);
                assert(same_key(c[k], loc));
            }
        }
    }
    lemma_insert_sorted(c, p, loc);
    lemma_insert_represents(locs, i, c, p);
    lemma_insert_covers(locs, i, c, p);
}

/// One breakpoint candidate per source line: for every (file, line) with a
/// non-zero line, the first of its locations with the lowest address, in
/// (file, line) order.
pub fn select_line_candidates(locations: &[LocationInfo]) -> (c: Vec<LocationInfo>)
    ensures
        are_line_candidates(locations@, locations@.len() as int, c@),
{
    let mut c: Vec<LocationInfo> = Vec::new();
    let n = locations.len();
    proof {
        lemma_candidates_empty(locations@);
    }
    for i in 0..n
        invariant
            n == locations@.len(),
            are_line_candidates(locations@, i as int, c@),
    {
        let loc = locations[i];
        if loc.line == 0 {
            proof {
                lemma_candidates_skip(locations@, i as int, c@);
            }
        } else {
            proof {
                lemma_candidates_sorted(locations@, i as int, c@);
            }
            let p = lower_bound(&c, &loc);
            if p < c.len() && c[p].file == loc.file && c[p].line == loc.line {
                if loc.address < c[p].address {
                    proof {
                        lemma_candidates_replace(locations@, i as int, c@, p as int);
                    }
                    c.set(p, loc);
                } else {
                    proof {
                        lemma_candidates_keep(locations@, i as int, c@, p as int);
                    }
                }
            } else {
                proof {
                    lemma_candidates_insert(locations@, i as int, c@, p as int);
                }
                c.insert(p, loc);
            }
        }
    }
    c
}

/// One instruction of a local function: the id of its location in the code as read,
/// the instruction sequence (block) that holds it, and its position there.
#[derive(Clone, Copy, Debug, PartialEq, Eq, Structural)]
pub struct InstrSite {
    pub loc: u32,
    pub seq: usize,
    pub idx: usize,
}

/// What placement needs of one local function: its instructions, and its
/// table of (code offset, location id) in code order.
pub struct FunctionLayout {
    pub sites: Vec<InstrSite>,
    pub offsets: Vec<(usize, u32)>,
}

/// A candidate that was given an instruction: `funcs[func].sites[site]`.
#[derive(Clone, Copy, Debug, PartialEq, Eq, Structural)]
pub struct ResolvedBreakpoint {
    pub location: LocationInfo,
    pub func: usize,
    pub site: usize,
}

/// The offset of table entry `k` of function `f`: absolute, or relative to the
/// function's first entry (never below 0).
pub open spec fn entry_offset(funcs: Seq<FunctionLayout>, rel: bool, f: int, k: int) -> int {
    let offs = funcs[f].offsets@;
    if rel {
        if offs[k].0 >= offs[0].0 {
            offs[k].0 - offs[0].0
        } else {
            0
        }
    } else {
        offs[k].0 as int
    }
}

/// Entry `(f, k)` exists, is among the first `f_end` functions (and the first
/// `k_end` entries of function `f_end`), and does not lie past `addr`.
pub open spec fn entry_fits(
    funcs: Seq<FunctionLayout>,
    rel: bool,
    addr: u64,
    f_end: int,
    k_end: int,
    f: int,
    k: int,
) -> bool {
    &&& 0 <= f < funcs.len()
    &&& 0 <= k < funcs[f].offsets@.len()
    &&& (f < f_end || (f == f_end && k < k_end))
    &&& entry_offset(funcs, rel, f, k) <= addr
}

/// Entry `(f, k)` is the one that a lookup of `addr` in the table sorted by
/// offset (keeping table order among equal offsets) lands on: the last entry
/// whose offset is the greatest not past `addr`.
pub open spec fn is_best_entry(
    funcs: Seq<FunctionLayout>,
    rel: bool,
    addr: u64,
    f_end: int,
    k_end: int,
    f: int,
    k: int,
) -> bool {
    &&& entry_fits(funcs, rel, addr, f_end, k_end, f, k)
    &&& forall|f2: int, k2: int|
        #[trigger] entry_fits(funcs, rel, addr, f_end, k_end, f2, k2) ==> entry_offset(funcs, rel, f2, k2)
            < entry_offset(funcs, rel, f, k) || (entry_offset(funcs, rel, f2, k2) == entry_offset(
            funcs,
            rel,
            f,
            k,
        ) && (f2 < f || (f2 == f && k2 <= k)))
}

/// `sites[s]` is the last instruction with location id `loc`.
pub open spec fn is_last_site(sites: Seq<InstrSite>, loc: u32, s: int) -> bool {
    &&& 0 <= s < sites.len()
    &&& sites[s].loc == loc
    &&& forall|t: int| s < t < sites.len() ==> #[trigger] sites[t].loc != loc
}

/// The instruction (function, site) that `addr` resolves to in one table.
pub open spec fn resolve_in(funcs: Seq<FunctionLayout>, rel: bool, addr: u64) -> Option<(int, int)> {
    let n = funcs.len() as int;
    if exists|f: int, k: int| is_best_entry(funcs, rel, addr, n, 0, f, k) {
        let (f, k) = choose|f: int, k: int| is_best_entry(funcs, rel, addr, n, 0, f, k);
        let loc = funcs[f].offsets@[k].1;
        if exists|s: int| is_last_site(funcs[f].sites@, loc, s) {
            Some((f, choose|s: int| is_last_site(funcs[f].sites@, loc, s)))
        } else {
            None
        }
    } else {
        None
    }
}

/// The instruction that `addr` resolves to: by absolute offset, else by offset
/// relative to each function's start.
pub open spec fn resolve_address(funcs: Seq<FunctionLayout>, addr: u64) -> Option<(int, int)> {
    match resolve_in(funcs, false, addr) {
        Some(x) => Some(x),
        None => resolve_in(funcs, true, addr),
    }
}

/// Some breakpoint of `r` already sits at the instruction place of `funcs[f].sites[s]`.
pub open spec fn site_taken(funcs: Seq<FunctionLayout>, r: Seq<ResolvedBreakpoint>, f: int, s: int) -> bool {
    exists|i: int|
        0 <= i < r.len() && r[i].func == f && #[trigger] funcs[f].sites@[r[i].site as int].seq
            == funcs[f].sites@[s].seq && funcs[f].sites@[r[i].site as int].idx == funcs[f].sites@[s].idx
}

/// The breakpoints given to `cands` in order, and how many found no instruction:
/// a candidate whose instruction is already taken is dropped.
pub open spec fn resolve_all(funcs: Seq<FunctionLayout>, cands: Seq<LocationInfo>) -> (
    Seq<ResolvedBreakpoint>,
    nat,
)
    decreases cands.len(),
{
    if cands.len() == 0 {
        (Seq::empty(), 0)
    } else {
        let (r, u) = resolve_all(funcs, cands.drop_last());
        let c = cands.last();
        match resolve_address(funcs, c.address) {
            None => (r, u + 1),
            Some((f, s)) => if site_taken(funcs, r, f, s) {
                (r, u)
            } else {
                (r.push(ResolvedBreakpoint { location: c, func: f as usize, site: s as usize }), u)
            },
        }
    }
}

proof fn lemma_best_entry_unique(
    funcs: Seq<FunctionLayout>,
    rel: bool,
    addr: u64,
    f_end: int,
    k_end: int,
    f1: int,
    k1: int,
    f2: int,
    k2: int,
)
    requires
        is_best_entry(funcs, rel, addr, f_end, k_end, f1, k1),
        is_best_entry(funcs, rel, addr, f_end, k_end, f2, k2),
    ensures
        f1 == f2 && k1 == k2,
{
    assert(entry_fits(funcs, rel, addr, f_end, k_end, f2, k2));
    assert(entry_fits(funcs, rel, addr, f_end, k_end, f1, k1));
}

/// The offset of table entry `(f, k)` is a `usize` offset or a difference of two.
proof fn lemma_entry_offset_bounds(funcs: Seq<FunctionLayout>, rel: bool, f: int, k: int)
    requires
        0 <= f < funcs.len(),
        0 <= k < funcs[f].offsets@.len(),
    ensures
        0 <= entry_offset(funcs, rel, f, k) <= usize::MAX,
        k < usize::MAX,
{
    assert(funcs[f].offsets@.len() == funcs[f].offsets.len());
}

/// The triple that stands for table entry `(f, k)`: its offset, then `f` and `k`.
pub open spec fn entry_triple(funcs: Seq<FunctionLayout>, rel: bool, f: int, k: int) -> Triple {
    (entry_offset(funcs, rel, f, k) as u64, f as usize, k as usize)
}

/// `t` holds the triple of every entry of every function's table (absolute or
/// relative offsets) and nothing else, in ascending order.
pub open spec fn is_entry_table(funcs: Seq<FunctionLayout>, rel: bool, t: Seq<Triple>) -> bool {
    &&& is_sorted(t)
    &&& forall|i: int|
        0 <= i < t.len() ==> {
            &&& (#[trigger] t[i]).1 < funcs.len()
            &&& t[i].2 < funcs[t[i].1 as int].offsets@.len()
            &&& t[i] == entry_triple(funcs, rel, t[i].1 as int, t[i].2 as int)
        }
    &&& forall|f: int, k: int|
        0 <= f < funcs.len() && 0 <= k < funcs[f].offsets@.len() ==> t.contains(
            #[trigger] entry_triple(funcs, rel, f, k),
        )
}

/// `t` holds, for every instruction `s` of `sites`, the triple (its location
/// id, `s`, 0) and nothing else, in ascending order.
pub open spec fn is_site_table(sites: Seq<InstrSite>, t: Seq<Triple>) -> bool {
    &&& is_sorted(t)
    &&& forall|i: int|
        0 <= i < t.len() ==> (#[trigger] t[i]).1 < sites.len() && t[i] == (
            sites[t[i].1 as int].loc as u64,
            t[i].1,
            0usize,
        )
    &&& forall|s: int| 0 <= s < sites.len() ==> t.contains((#[trigger] sites[s].loc as u64, s as usize, 0usize))
}

/// The sorted tables through which instructions are found: entries by
/// absolute and by relative offset, and each function's instructions by
/// location id.
struct LayoutIndex {
    abs: Vec<Triple>,
    rel: Vec<Triple>,
    sites: Vec<Vec<Triple>>,
}

spec fn index_valid(funcs: Seq<FunctionLayout>, ix: LayoutIndex) -> bool {
    &&& is_entry_table(funcs, false, ix.abs@)
    &&& is_entry_table(funcs, true, ix.rel@)
    &&& ix.sites@.len() == funcs.len()
    &&& forall|f: int| 0 <= f < funcs.len() ==> is_site_table(funcs[f].sites@, #[trigger] ix.sites@[f]@)
}

/// The sorted table of every function's entries, by absolute or relative offset.
fn entry_table(funcs: &Vec<FunctionLayout>, rel: bool) -> (t: Vec<Triple>)
    ensures
        is_entry_table(funcs@, rel, t@),
{
    let mut v: Vec<Triple> = Vec::new();
    let nf = funcs.len();
    let mut f: usize = 0;
    while f < nf
        invariant
            nf == funcs@.len(),
            f <= nf,
            forall|i: int|
                0 <= i < v@.len() ==> {
                    &&& (#[trigger] v@[i]).1 < funcs@.len()
                    &&& v@[i].2 < funcs@[v@[i].1 as int].offsets@.len()
                    &&& v@[i] == entry_triple(funcs@, rel, v@[i].1 as int, v@[i].2 as int)
                },
            forall|f2: int, k2: int|
                0 <= f2 < f && 0 <= k2 < funcs@[f2].offsets@.len() ==> v@.contains(
                    #[trigger] entry_triple(funcs@, rel, f2, k2),
                ),
        decreases nf - f,
    {
        let offs = &funcs[f].offsets;
        let nk = offs.len();
        let mut k: usize = 0;
        while k < nk
            invariant
                nf == funcs@.len(),
                f < nf,
                offs@ == funcs@[f as int].offsets@,
                nk == offs@.len(),
                k <= nk,
                forall|i: int|
                    0 <= i < v@.len() ==> {
                        &&& (#[trigger] v@[i]).1 < funcs@.len()
                        &&& v@[i].2 < funcs@[v@[i].1 as int].offsets@.len()
                        &&& v@[i] == entry_triple(funcs@, rel, v@[i].1 as int, v@[i].2 as int)
                    },
                forall|f2: int, k2: int|
                    0 <= f2 < funcs@.len() && 0 <= k2 < funcs@[f2].offsets@.len() && (f2 < f || (f2 == f
                        && k2 < k)) ==> v@.contains(#[trigger] entry_triple(funcs@, rel, f2, k2)),
            decreases nk - k,
        {
            let raw = offs[k].0;
            let off: usize = if rel {
                raw.saturating_sub(offs[0].0)
            } else {
                raw
            };
            let ghost old_v = v@;
            let e: Triple = (off as u64, f, k);
            assert(e == entry_triple(funcs@, rel, f as int, k as int));
            v.push(e);
            assert(v@[old_v.len() as int] == e);
            assert forall|f2: int, k2: int|
                0 <= f2 < funcs@.len() && 0 <= k2 < funcs@[f2].offsets@.len() && (f2 < f || (f2 == f && k2 < k
                    + 1)) implies v@.contains(#[trigger] entry_triple(funcs@, rel, f2, k2)) by {
                if f2 == f && k2 == k {
                } else {
                    let i = choose|i: int| 0 <= i < old_v.len() && old_v[i] == entry_triple(funcs@, rel, f2, k2);
                    assert(v@[i] == old_v[i]);
                }
            }
            k = k + 1;
        }
        f = f + 1;
    }
    let t = sorted_triples(v);
    assert forall|i: int| 0 <= i < t@.len() implies {
        &&& (#[trigger] t@[i]).1 < funcs@.len()
        &&& t@[i].2 < funcs@[t@[i].1 as int].offsets@.len()
        &&& t@[i] == entry_triple(funcs@, rel, t@[i].1 as int, t@[i].2 as int)
    } by {
        assert(t@.contains(t@[i]));
    }
    t
}

/// The sorted table of the instructions of `sites` by location id.
fn site_table(sites: &Vec<InstrSite>) -> (t: Vec<Triple>)
    ensures
        is_site_table(sites@, t@),
{
    let mut v: Vec<Triple> = Vec::new();
    let n = sites.len();
    let mut s: usize = 0;
    while s < n
        invariant
            n == sites@.len(),
            s <= n,
            v@.len() == s,
            forall|i: int| 0 <= i < s ==> #[trigger] v@[i] == (sites@[i].loc as u64, i as usize, 0usize),
        decreases n - s,
    {
        v.push((sites[s].loc as u64, s, 0));
        s = s + 1;
    }
    assert forall|s2: int| 0 <= s2 < sites@.len() implies v@.contains(
        (#[trigger] sites@[s2].loc as u64, s2 as usize, 0usize),
    ) by {
        assert(v@[s2] == (sites@[s2].loc as u64, s2 as usize, 0usize));
    }
    let t = sorted_triples(v);
    assert forall|i: int| 0 <= i < t@.len() implies (#[trigger] t@[i]).1 < sites@.len() && t@[i] == (
        sites@[t@[i].1 as int].loc as u64,
        t@[i].1,
        0usize,
    ) by {
        assert(t@.contains(t@[i]));
    }
    t
}

fn build_index(funcs: &Vec<FunctionLayout>) -> (ix: LayoutIndex)
    ensures
        index_valid(funcs@, ix),
{
    let abs = entry_table(funcs, false);
    let rel = entry_table(funcs, true);
    let mut sites: Vec<Vec<Triple>> = Vec::new();
    let nf = funcs.len();
    let mut f: usize = 0;
    while f < nf
        invariant
            nf == funcs@.len(),
            f <= nf,
            sites@.len() == f,
            forall|g: int| 0 <= g < f ==> is_site_table(funcs@[g].sites@, #[trigger] sites@[g]@),
        decreases nf - f,
    {
        sites.push(site_table(&funcs[f].sites));
        f = f + 1;
    }
    LayoutIndex { abs, rel, sites }
}

/// Look `addr` up in one table: the entry that a lookup in the table sorted by
/// offset lands on, if any.
fn best_entry(funcs: &Vec<FunctionLayout>, table: &Vec<Triple>, rel: bool, addr: u64) -> (res: Option<
    (usize, usize),
>)
    requires
        is_entry_table(funcs@, rel, table@),
    ensures
        res is Some ==> is_best_entry(
            funcs@,
            rel,
            addr,
            funcs@.len() as int,
            0,
            res.unwrap().0 as int,
            res.unwrap().1 as int,
        ),
        res is None ==> forall|f: int, k: int|
            !#[trigger] entry_fits(funcs@, rel, addr, funcs@.len() as int, 0, f, k),
{
    let ghost n = funcs@.len() as int;
    match last_at_most(table, addr) {
        None => {
            assert forall|f: int, k: int| !#[trigger] entry_fits(funcs@, rel, addr, n, 0, f, k) by {
                if entry_fits(funcs@, rel, addr, n, 0, f, k) {
                    lemma_entry_offset_bounds(funcs@, rel, f, k);
                    let x = entry_triple(funcs@, rel, f, k);
                    assert(table@.contains(x));
                    let j = choose|j: int| 0 <= j < table@.len() && table@[j] == x;
                    assert(table@[j].0 > addr);
                }
            }
            None
        },
        Some(i) => {
            let (o, f, k) = table[i];
            proof {
                assert(table@[i as int] == (o, f, k));
                lemma_entry_offset_bounds(funcs@, rel, f as int, k as int);
                assert(entry_fits(funcs@, rel, addr, n, 0, f as int, k as int));
                assert forall|f2: int, k2: int|
                    #[trigger] entry_fits(funcs@, rel, addr, n, 0, f2, k2) implies entry_offset(funcs@, rel, f2, k2)
                        < entry_offset(funcs@, rel, f as int, k as int) || (entry_offset(funcs@, rel, f2, k2)
                        == entry_offset(funcs@, rel, f as int, k as int) && (f2 < f || (f2 == f && k2 <= k))) by {
                    lemma_entry_offset_bounds(funcs@, rel, f2, k2);
                    let x = entry_triple(funcs@, rel, f2, k2);
                    assert(table@.contains(x));
                    let j = choose|j: int| 0 <= j < table@.len() && table@[j] == x;
                    assert(funcs@.len() == funcs.len());
                    assert(table@[j].0 == entry_offset(funcs@, rel, f2, k2));
                    assert(table@[j].1 == f2 && table@[j].2 == k2);
                    assert(triple_le(table@[j], table@[i as int]));
                }
            }
            Some((f, k))
        },
    }
}

proof fn lemma_last_site_unique(sites: Seq<InstrSite>, loc: u32, s1: int, s2: int)
    requires
        is_last_site(sites, loc, s1),
        is_last_site(sites, loc, s2),
    ensures
        s1 == s2,
{
    if s1 < s2 {
        assert(sites[s2].loc != loc);
    } else if s2 < s1 {
        assert(sites[s1].loc != loc);
    }
}

/// The last instruction of `sites` with location id `loc`, found in its table.
fn last_site(sites: &Vec<InstrSite>, table: &Vec<Triple>, loc: u32) -> (res: Option<usize>)
    requires
        is_site_table(sites@, table@),
    ensures
        res is Some ==> is_last_site(sites@, loc, res.unwrap() as int),
        res is None ==> !exists|s: int| is_last_site(sites@, loc, s),
{
    let key = loc as u64;
    let found = last_at_most(table, key);
    let hit: Option<usize> = match found {
        Some(i) => if table[i].0 == key {
            Some(i)
        } else {
            None
        },
        None => None,
    };
    match hit {
        Some(i) => {
            let s = table[i].1;
            proof {
                assert(table@[i as int] == (sites@[s as int].loc as u64, s, 0usize));
                assert(sites@.len() == sites.len());
                assert forall|t: int| s < t < sites@.len() implies #[trigger] sites@[t].loc != loc by {
                    if sites@[t].loc == loc {
                        let x = (sites@[t].loc as u64, t as usize, 0usize);
                        assert(table@.contains(x));
                        let j = choose|j: int| 0 <= j < table@.len() && table@[j] == x;
                        assert(triple_le(table@[j], table@[i as int]));
                    }
                }
            }
            Some(s)
        },
        None => {
            assert(!exists|s: int| is_last_site(sites@, loc, s)) by {
                if exists|s: int| is_last_site(sites@, loc, s) {
                    let s = choose|s: int| is_last_site(sites@, loc, s);
                    let x = (sites@[s].loc as u64, s as usize, 0usize);
                    assert(table@.contains(x));
                    let j = choose|j: int| 0 <= j < table@.len() && table@[j] == x;
                    assert(table@[j].0 <= key);
                    if let Some(i) = found {
                        assert(triple_le(table@[j], table@[i as int]));
                    }
                }
            }
            None
        },
    }
}

/// Resolve `addr` in one table (absolute or relative offsets).
fn resolve_in_table(funcs: &Vec<FunctionLayout>, ix: &LayoutIndex, rel: bool, addr: u64) -> (res: Option<
    (usize, usize),
>)
    requires
        index_valid(funcs@, *ix),
    ensures
        res is Some ==> resolve_in(funcs@, rel, addr) == Some((res.unwrap().0 as int, res.unwrap().1 as int)),
        res is None ==> resolve_in(funcs@, rel, addr) is None,
{
    let ghost n = funcs@.len() as int;
    let table = if rel {
        &ix.rel
    } else {
        &ix.abs
    };
    match best_entry(funcs, table, rel, addr) {
        None => {
            assert(!exists|f: int, k: int| is_best_entry(funcs@, rel, addr, n, 0, f, k)) by {
                if exists|f: int, k: int| is_best_entry(funcs@, rel, addr, n, 0, f, k) {
                    let (f, k) = choose|f: int, k: int| is_best_entry(funcs@, rel, addr, n, 0, f, k);
                    assert(entry_fits(funcs@, rel, addr, n, 0, f, k));
                }
            }
            None
        },
        Some((f, k)) => {
            proof {
                let (f2, k2) = choose|f2: int, k2: int| is_best_entry(funcs@, rel, addr, n, 0, f2, k2);
                lemma_best_entry_unique(funcs@, rel, addr, n, 0, f as int, k as int, f2, k2);
            }
            let loc = funcs[f].offsets[k].1;
            assert(is_site_table(funcs@[f as int].sites@, ix.sites@[f as int]@));
            match last_site(&funcs[f].sites, &ix.sites[f], loc) {
                None => None,
                Some(s) => {
                    proof {
                        let s2 = choose|s2: int| is_last_site(funcs@[f as int].sites@, loc, s2);
                        lemma_last_site_unique(funcs@[f as int].sites@, loc, s as int, s2);
                    }
                    Some((f, s))
                },
            }
        },
    }
}

/// The instruction that `addr` resolves to, looked up in the index of `funcs`.
fn resolve_indexed(funcs: &Vec<FunctionLayout>, ix: &LayoutIndex, addr: u64) -> (res: Option<(usize, usize)>)
    requires
        index_valid(funcs@, *ix),
    ensures
        res is Some ==> resolve_address(funcs@, addr) == Some((res.unwrap().0 as int, res.unwrap().1 as int)),
        res is None ==> resolve_address(funcs@, addr) is None,
{
    match resolve_in_table(funcs, ix, false, addr) {
        Some(x) => Some(x),
        None => resolve_in_table(funcs, ix, true, addr),
    }
}

/// The instruction that `addr` resolves to, if any.
pub fn resolve_instruction(funcs: &Vec<FunctionLayout>, addr: u64) -> (res: Option<(usize, usize)>)
    ensures
        res is Some ==> resolve_address(funcs@, addr) == Some((res.unwrap().0 as int, res.unwrap().1 as int)),
        res is None ==> resolve_address(funcs@, addr) is None,
{
    let ix = build_index(funcs);
    resolve_indexed(funcs, &ix, addr)
}

/// Every breakpoint of `r` names an existing instruction.
pub open spec fn resolved_valid(funcs: Seq<FunctionLayout>, r: Seq<ResolvedBreakpoint>) -> bool {
    forall|i: int|
        0 <= i < r.len() ==> (#[trigger] r[i]).func < funcs.len() && r[i].site < funcs[r[i].func as int].sites.len()
}

proof fn lemma_resolve_in_valid(funcs: Seq<FunctionLayout>, rel: bool, addr: u64)
    ensures
        resolve_in(funcs, rel, addr) matches Some((f, s)) ==> 0 <= f < funcs.len() && 0 <= s
            < funcs[f].sites.len(),
{
    let n = funcs.len() as int;
    if exists|f: int, k: int| is_best_entry(funcs, rel, addr, n, 0, f, k) {
        let (f, k) = choose|f: int, k: int| is_best_entry(funcs, rel, addr, n, 0, f, k);
        let loc = funcs[f].offsets@[k].1;
        if exists|s: int| is_last_site(funcs[f].sites@, loc, s) {
            let s = choose|s: int| is_last_site(funcs[f].sites@, loc, s);
        }
    }
}

proof fn lemma_resolve_address_valid(funcs: Seq<FunctionLayout>, addr: u64)
    ensures
        resolve_address(funcs, addr) matches Some((f, s)) ==> 0 <= f < funcs.len() && 0 <= s
            < funcs[f].sites.len(),
{
    lemma_resolve_in_valid(funcs, false, addr);
    lemma_resolve_in_valid(funcs, true, addr);
}

pub(crate) proof fn lemma_resolve_all_valid(funcs: Seq<FunctionLayout>, cands: Seq<LocationInfo>)
    requires
        funcs.len() <= usize::MAX,
    ensures
        resolved_valid(funcs, resolve_all(funcs, cands).0),
        resolve_all(funcs, cands).0.len() + resolve_all(funcs, cands).1 <= cands.len(),
    decreases cands.len(),
{
    if cands.len() > 0 {
        lemma_resolve_all_valid(funcs, cands.drop_last());
        lemma_resolve_address_valid(funcs, cands.last().address);
    }
}

/// Whether a breakpoint of `r` already sits at the place of `funcs[f].sites[s]`.
fn site_is_taken(funcs: &Vec<FunctionLayout>, r: &Vec<ResolvedBreakpoint>, f: usize, s: usize) -> (res: bool)
    requires
        f < funcs@.len(),
        s < funcs@[f as int].sites@.len(),
        resolved_valid(funcs@, r@),
    ensures
        res == site_taken(funcs@, r@, f as int, s as int),
{
    let target = funcs[f].sites[s];
    let n = r.len();
    let mut i: usize = 0;
    while i < n
        invariant
            n == r@.len(),
            i <= n,
            f < funcs@.len(),
            s < funcs@[f as int].sites@.len(),
            target == funcs@[f as int].sites@[s as int],
            resolved_valid(funcs@, r@),
            forall|j: int|
                0 <= j < i ==> !(r@[j].func == f && #[trigger] funcs@[f as int].sites@[r@[j].site as int].seq
                    == target.seq && funcs@[f as int].sites@[r@[j].site as int].idx == target.idx),
        decreases n - i,
    {
        let b = r[i];
        if b.func == f {
            assert(r@[i as int] == b);
            let other = funcs[f].sites[b.site];
            if other.seq == target.seq && other.idx == target.idx {
                return true;
            }
        }
        i = i + 1;
    }
    false
}

/// Give each candidate, in order, the instruction its address resolves to,
/// dropping a candidate whose instruction another one already took; also count
/// the candidates that resolve to no instruction.
pub fn resolve_candidates(funcs: &Vec<FunctionLayout>, cands: &[LocationInfo]) -> (res: (
    Vec<ResolvedBreakpoint>,
    usize,
))
    ensures
        (res.0@, res.1 as nat) == resolve_all(funcs@, cands@),
{
    let ix = build_index(funcs);
    let mut r: Vec<ResolvedBreakpoint> = Vec::new();
    let mut unmatched: usize = 0;
    let n = cands.len();
    let mut i: usize = 0;
    assert(cands@.take(0) =~= Seq::<LocationInfo>::empty());
    while i < n
        invariant
            n == cands@.len(),
            i <= n,
            index_valid(funcs@, ix),
            (r@, unmatched as nat) == resolve_all(funcs@, cands@.take(i as int)),
        decreases n - i,
    {
        let c = cands[i];
        proof {
            assert(cands@.take(i + 1).drop_last() =~= cands@.take(i as int));
            assert(cands@.take(i + 1).last() == c);
            assert(funcs@.len() == funcs.len());
            lemma_resolve_all_valid(funcs@, cands@.take(i as int));
            lemma_resolve_address_valid(funcs@, c.address);
        }
        match resolve_indexed(funcs, &ix, c.address) {
            None => {
                unmatched = unmatched + 1;
            },
            Some((f, s)) => {
                if !site_is_taken(funcs, &r, f, s) {
                    r.push(ResolvedBreakpoint { location: c, func: f, site: s });
                }
            },
        }
        i = i + 1;
    }
    assert(cands@.take(n as int) =~= cands@);
    (r, unmatched)
}

/// The lines of breakpoint `i + 1`: from the line of `locs[i]` up to the line
/// before the next breakpoint of the same file (or only its own line, for the
/// last one of a file).
pub open spec fn range_for(locs: Seq<LocationInfo>, i: int) -> BreakpointRange {
    BreakpointRange {
        file: locs[i].file,
        start_line: locs[i].line,
        end_line: if i + 1 < locs.len() && locs[i + 1].file == locs[i].file {
            (locs[i + 1].line - 1) as u32
        } else {
            locs[i].line
        },
        bkpt: (i + 1) as u32,
    }
}

/// The line ranges of the breakpoints at `locs` (breakpoint `i + 1` at `locs[i]`).
pub open spec fn ranges_for(locs: Seq<LocationInfo>) -> Seq<BreakpointRange> {
    Seq::new(locs.len(), |i: int| range_for(locs, i))
}

/// The line ranges that resolve to each inserted breakpoint. The locations are
/// those of breakpoints `1, 2, ...`, in (file, line) order without repeats, so
/// grouping them by file keeps their order.
pub fn breakpoint_ranges(locs: &[LocationInfo]) -> (r: Vec<BreakpointRange>)
    requires
        strictly_sorted_by_key(locs@),
    ensures
        r@ == ranges_for(locs@),
{
    let mut r: Vec<BreakpointRange> = Vec::new();
    let n = locs.len();
    let mut i: usize = 0;
    while i < n
        invariant
            n == locs@.len(),
            i <= n,
            strictly_sorted_by_key(locs@),
            r@.len() == i,
            forall|k: int| 0 <= k < i ==> r@[k] == #[trigger] range_for(locs@, k),
        decreases n - i,
    {
        let loc = locs[i];
        let end_line = if i + 1 < n && locs[i + 1].file == loc.file {
            assert(key_lt(locs@[i as int], locs@[i + 1]));
            let next = locs[i + 1].line;
            if next > loc.line {
                next - 1
            } else {
                loc.line
            }
        } else {
            loc.line
        };
        let bkpt = (i + 1) as u32;
        r.push(BreakpointRange { file: loc.file, start_line: loc.line, end_line, bkpt });
        i = i + 1;
    }
    assert(r@ =~= ranges_for(locs@));
    r
}

/// Position, in its instruction sequence, of the instruction of breakpoint `i` of `r`.
pub open spec fn site_pos(funcs: Seq<FunctionLayout>, r: Seq<ResolvedBreakpoint>, i: int) -> int {
    funcs[r[i].func as int].sites@[r[i].site as int].idx as int
}

/// Breakpoint `a` of `r` is inserted before breakpoint `b`: it sits further
/// down (or, at the same place, has the higher number).
pub open spec fn inserted_before(funcs: Seq<FunctionLayout>, r: Seq<ResolvedBreakpoint>, a: int, b: int) -> bool {
    site_pos(funcs, r, a) > site_pos(funcs, r, b) || (site_pos(funcs, r, a) == site_pos(funcs, r, b)
        && a > b)
}

fn site_position(funcs: &Vec<FunctionLayout>, r: &Vec<ResolvedBreakpoint>, i: usize) -> (pos: usize)
    requires
        resolved_valid(funcs@, r@),
        i < r@.len(),
    ensures
        pos == site_pos(funcs@, r@, i as int),
{
    let b = r[i];
    funcs[b.func].sites[b.site].idx
}

/// `order` lists exactly the breakpoints of `r` in function `f` (by index into
/// `r`), each once, in insertion order.
pub open spec fn is_insertion_order(
    funcs: Seq<FunctionLayout>,
    r: Seq<ResolvedBreakpoint>,
    f: int,
    n: int,
    order: Seq<usize>,
) -> bool {
    &&& forall|k: int| 0 <= k < order.len() ==> #[trigger] order[k] < n && r[order[k] as int].func == f
    &&& forall|i: int| 0 <= i < n && r[i].func == f ==> #[trigger] order.contains(i as usize)
    &&& forall|a: int, b: int|
        0 <= a < b < order.len() ==> inserted_before(funcs, r, #[trigger] order[a] as int, #[trigger] order[b] as int)
}

/// The breakpoints of function `f`, in the order to insert them: an insertion
/// never moves the place of one still to come, so each goes where its
/// instruction was.
pub fn insertion_order(funcs: &Vec<FunctionLayout>, r: &Vec<ResolvedBreakpoint>, f: usize) -> (order: Vec<usize>)
    requires
        resolved_valid(funcs@, r@),
    ensures
        is_insertion_order(funcs@, r@, f as int, r@.len() as int, order@),
{
    let mut order: Vec<usize> = Vec::new();
    let n = r.len();
    let mut i: usize = 0;
    while i < n
        invariant
            n == r@.len(),
            i <= n,
            resolved_valid(funcs@, r@),
            is_insertion_order(funcs@, r@, f as int, i as int, order@),
        decreases n - i,
    {
        if r[i].func == f {
            let pos_i = site_position(funcs, r, i);
            let m = order.len();
            let mut p: usize = 0;
            while p < m && site_position(funcs, r, order[p]) > pos_i
                invariant
                    m == order@.len(),
                    p <= m,
                    n == r@.len(),
                    i < n,
                    r@[i as int].func == f,
                    pos_i == site_pos(funcs@, r@, i as int),
                    resolved_valid(funcs@, r@),
                    is_insertion_order(funcs@, r@, f as int, i as int, order@),
                    forall|k: int| 0 <= k < p ==> inserted_before(funcs@, r@, #[trigger] order@[k] as int, i as int),
                decreases m - p,
            {
                p = p + 1;
            }
            let ghost old_order = order@;
            proof {
                assert forall|k: int| p <= k < m implies inserted_before(funcs@, r@, i as int, #[trigger] old_order[k] as int) by {
                    assert(old_order[k] < i);
                    if k > p {
                        assert(inserted_before(funcs@, r@, old_order[p as int] as int, old_order[k] as int));
                    }
                }
            }
            order.insert(p, i);
            proof {
                let o2 = order@;
                assert forall|a: int, b: int| 0 <= a < b < o2.len() implies inserted_before(
                    funcs@,
                    r@,
                    #[trigger] o2[a] as int,
                    #[trigger] o2[b] as int,
                ) by {
                    let a0 = if a < p { a } else { a - 1 };
                    let b0 = if b < p { b } else { b - 1 };
                    if a == p {
                        assert(o2[b] == old_order[b0]);
                    } else if b == p {
                        assert(o2[a] == old_order[a0]);
                    } else {
                        assert(o2[a] == old_order[a0] && o2[b] == old_order[b0]);
                    }
                }
                assert forall|j: int| 0 <= j < i + 1 && r@[j].func == f implies #[trigger] o2.contains(j as usize) by {
                    if j < i {
                        assert(old_order.contains(j as usize));
                        let k = choose|k: int| 0 <= k < old_order.len() && old_order[k] == j as usize;
                        if k < p {
                            assert(o2[k] == j as usize);
                        } else {
                            assert(o2[k + 1] == j as usize);
                        }
                    } else {
                        assert(o2[p as int] == j as usize);
                    }
                }
            }
        } else {
            proof {
                assert forall|j: int| 0 <= j < i + 1 && r@[j].func == f implies #[trigger] order@.contains(j as usize) by {}
            }
        }
        i = i + 1;
    }
    order
}

/// The source locations of the breakpoints `r`, breakpoint `i + 1` at position `i`.
pub open spec fn resolved_locations(r: Seq<ResolvedBreakpoint>) -> Seq<LocationInfo> {
    r.map_values(|b: ResolvedBreakpoint| b.location)
}

proof fn lemma_resolved_from_candidates(funcs: Seq<FunctionLayout>, cands: Seq<LocationInfo>)
    ensures
        forall|i: int|
            0 <= i < resolve_all(funcs, cands).0.len() ==> exists|t: int|
                0 <= t < cands.len() && #[trigger] resolve_all(funcs, cands).0[i].location == cands[t],
    decreases cands.len(),
{
    if cands.len() > 0 {
        let prev = cands.drop_last();
        lemma_resolved_from_candidates(funcs, prev);
        let r = resolve_all(funcs, cands).0;
        let r0 = resolve_all(funcs, prev).0;
        assert forall|i: int| 0 <= i < r.len() implies exists|t: int|
            0 <= t < cands.len() && #[trigger] r[i].location == cands[t] by {
            if i < r0.len() {
                assert(r[i] == r0[i]);
                let t = choose|t: int| 0 <= t < prev.len() && r0[i].location == prev[t];
                assert(cands[t] == prev[t]);
            } else {
                assert(r[i].location == cands[cands.len() - 1]);
            }
        }
    }
}

/// At most one breakpoint per source line: the breakpoints given to line
/// candidates are in (file, line) order, no line twice.
pub proof fn law_one_breakpoint_per_line(funcs: Seq<FunctionLayout>, cands: Seq<LocationInfo>)
    requires
        strictly_sorted_by_key(cands),
    ensures
        strictly_sorted_by_key(resolved_locations(resolve_all(funcs, cands).0)),
    decreases cands.len(),
{
    if cands.len() > 0 {
        let prev = cands.drop_last();
        assert(strictly_sorted_by_key(prev)) by {
            assert forall|i: int, j: int| 0 <= i < j < prev.len() implies key_lt(#[trigger] prev[i], #[trigger] prev[j]) by {
                assert(key_lt(cands[i], cands[j]));
            }
        }
        law_one_breakpoint_per_line(funcs, prev);
        lemma_resolved_from_candidates(funcs, prev);
        let r = resolve_all(funcs, cands).0;
        let r0 = resolve_all(funcs, prev).0;
        let l = resolved_locations(r);
        let l0 = resolved_locations(r0);
        assert forall|i: int, j: int| 0 <= i < j < l.len() implies key_lt(#[trigger] l[i], #[trigger] l[j]) by {
            if j < r0.len() {
                assert(r[i] == r0[i] && r[j] == r0[j]);
                assert(key_lt(l0[i], l0[j]));
            } else {
                assert(r[i] == r0[i]);
                let t = choose|t: int| 0 <= t < prev.len() && r0[i].location == prev[t];
                assert(key_lt(cands[t], cands[cands.len() - 1]));
            }
        }
    }
}

/// The places (instruction sequence and position) of breakpoints `i` and `j` of `r` differ.
pub open spec fn distinct_places(funcs: Seq<FunctionLayout>, r: Seq<ResolvedBreakpoint>, i: int, j: int) -> bool {
    let a = funcs[r[i].func as int].sites@[r[i].site as int];
    let b = funcs[r[j].func as int].sites@[r[j].site as int];
    r[i].func != r[j].func || a.seq != b.seq || a.idx != b.idx
}

/// No two breakpoints go to the same instruction place.
pub proof fn law_breakpoints_at_distinct_places(funcs: Seq<FunctionLayout>, cands: Seq<LocationInfo>)
    requires
        funcs.len() <= usize::MAX,
    ensures
        forall|i: int, j: int|
            0 <= i < j < resolve_all(funcs, cands).0.len() ==> #[trigger] distinct_places(
                funcs,
                resolve_all(funcs, cands).0,
                i,
                j,
            ),
    decreases cands.len(),
{
    if cands.len() > 0 {
        let prev = cands.drop_last();
        law_breakpoints_at_distinct_places(funcs, prev);
        lemma_resolve_address_valid(funcs, cands.last().address);
        let r = resolve_all(funcs, cands).0;
        let r0 = resolve_all(funcs, prev).0;
        assert forall|i: int, j: int| 0 <= i < j < r.len() implies #[trigger] distinct_places(funcs, r, i, j) by {
            if j < r0.len() {
                assert(r[i] == r0[i] && r[j] == r0[j]);
                assert(distinct_places(funcs, r0, i, j));
            } else {
                assert(r[i] == r0[i]);
                if !distinct_places(funcs, r, i, j) {
                    assert(site_taken(funcs, r0, r[j].func as int, r[j].site as int));
                }
            }
        }
    }
}

/// Breakpoint `i` of `r` sits at the same place (function, instruction
/// sequence and position in it) as instruction `s` of function `f`.
pub open spec fn at_place_of(funcs: Seq<FunctionLayout>, r: Seq<ResolvedBreakpoint>, i: int, f: int, s: int) -> bool {
    &&& r[i].func == f
    &&& funcs[f].sites@[r[i].site as int].seq == funcs[f].sites@[s].seq
    &&& funcs[f].sites@[r[i].site as int].idx == funcs[f].sites@[s].idx
}

/// Taking one more candidate: one whose address resolves to no instruction
/// adds nothing; one whose instruction's place (function, sequence and
/// position) an earlier breakpoint already holds adds nothing; any other gets
/// a breakpoint at that instruction, after the earlier ones.
pub proof fn law_candidate_kept_unless_place_taken(funcs: Seq<FunctionLayout>, cands: Seq<LocationInfo>)
    requires
        cands.len() > 0,
    ensures
        ({
            let r0 = resolve_all(funcs, cands.drop_last()).0;
            let r = resolve_all(funcs, cands).0;
            let c = cands.last();
            match resolve_address(funcs, c.address) {
                None => r == r0,
                Some((f, s)) => if exists|i: int| 0 <= i < r0.len() && #[trigger] at_place_of(funcs, r0, i, f, s) {
                    r == r0
                } else {
                    r == r0.push(ResolvedBreakpoint { location: c, func: f as usize, site: s as usize })
                },
            }
        }),
{
    let r0 = resolve_all(funcs, cands.drop_last()).0;
    if let Some((f, s)) = resolve_address(funcs, cands.last().address) {
        if site_taken(funcs, r0, f, s) {
            let i = choose|i: int|
                0 <= i < r0.len() && r0[i].func == f && #[trigger] funcs[f].sites@[r0[i].site as int].seq
                    == funcs[f].sites@[s].seq && funcs[f].sites@[r0[i].site as int].idx == funcs[f].sites@[s].idx;
            assert(at_place_of(funcs, r0, i, f, s));
        } else {
            assert forall|i: int| 0 <= i < r0.len() implies !#[trigger] at_place_of(funcs, r0, i, f, s) by {
                if at_place_of(funcs, r0, i, f, s) {
                    assert(funcs[f].sites@[r0[i].site as int].seq == funcs[f].sites@[s].seq);
                }
            }
        }
    }
}

/// No resolved candidate is lost: for every candidate whose address resolves
/// to an instruction, some breakpoint sits at that instruction's place
/// (function, sequence and position).
pub proof fn law_every_resolved_place_has_breakpoint(funcs: Seq<FunctionLayout>, cands: Seq<LocationInfo>)
    requires
        funcs.len() <= usize::MAX,
    ensures
        forall|t: int|
            #![trigger cands[t]]
            0 <= t < cands.len() ==> (resolve_address(funcs, cands[t].address) matches Some((f, s)) ==> exists|i: int|
                0 <= i < resolve_all(funcs, cands).0.len() && #[trigger] at_place_of(
                    funcs,
                    resolve_all(funcs, cands).0,
                    i,
                    f,
                    s,
                )),
    decreases cands.len(),
{
    if cands.len() > 0 {
        let prev = cands.drop_last();
        law_every_resolved_place_has_breakpoint(funcs, prev);
        law_candidate_kept_unless_place_taken(funcs, cands);
        let r = resolve_all(funcs, cands).0;
        let r0 = resolve_all(funcs, prev).0;
        assert(r0.len() <= r.len());
        assert(forall|i: int| 0 <= i < r0.len() ==> r[i] == r0[i]);
        assert forall|t: int|
            #![trigger cands[t]]
            0 <= t < cands.len() implies (resolve_address(funcs, cands[t].address) matches Some((f, s)) ==> exists|i: int|
                0 <= i < r.len() && #[trigger] at_place_of(funcs, r, i, f, s)) by {
            if let Some((f, s)) = resolve_address(funcs, cands[t].address) {
                if t < prev.len() {
                    assert(prev[t] == cands[t]);
                    let i = choose|i: int| 0 <= i < r0.len() && #[trigger] at_place_of(funcs, r0, i, f, s);
                    assert(at_place_of(funcs, r, i, f, s));
                } else {
                    assert(cands[t] == cands.last());
                    if exists|i: int| 0 <= i < r0.len() && #[trigger] at_place_of(funcs, r0, i, f, s) {
                        let i = choose|i: int| 0 <= i < r0.len() && #[trigger] at_place_of(funcs, r0, i, f, s);
                        assert(at_place_of(funcs, r, i, f, s));
                    } else {
                        lemma_resolve_address_valid(funcs, cands.last().address);
                        assert(funcs[f].sites@.len() == funcs[f].sites.len());
                        assert(at_place_of(funcs, r, r0.len() as int, f, s));
                    }
                }
            }
        }
    }
}

/// Each breakpoint sits at the instruction that its source address resolves to.
pub proof fn law_breakpoint_at_its_address(funcs: Seq<FunctionLayout>, cands: Seq<LocationInfo>)
    requires
        funcs.len() <= usize::MAX,
    ensures
        ({
            let r = resolve_all(funcs, cands).0;
            forall|i: int|
                0 <= i < r.len() ==> resolve_address(funcs, #[trigger] r[i].location.address) == Some(
                    (r[i].func as int, r[i].site as int),
                )
        }),
    decreases cands.len(),
{
    if cands.len() > 0 {
        let prev = cands.drop_last();
        law_breakpoint_at_its_address(funcs, prev);
        lemma_resolve_address_valid(funcs, cands.last().address);
        let r = resolve_all(funcs, cands).0;
        let r0 = resolve_all(funcs, prev).0;
        assert forall|i: int| 0 <= i < r.len() implies resolve_address(funcs, #[trigger] r[i].location.address)
            == Some((r[i].func as int, r[i].site as int)) by {
            if i < r0.len() {
                assert(r[i] == r0[i]);
            }
        }
    }
}

/// The line ranges split each file's lines among its breakpoints: breakpoint
/// `i + 1` (never 0, which is reserved) starts at the line of its location and
/// ends where the next breakpoint of the same file begins, so the ranges of a
/// file are ordered, do not overlap and leave no gap.
pub proof fn law_ranges_partition_lines(locs: Seq<LocationInfo>)
    requires
        strictly_sorted_by_key(locs),
        locs.len() < u32::MAX,
    ensures
        ({
            let r = ranges_for(locs);
            &&& r.len() == locs.len()
            &&& forall|i: int|
                0 <= i < r.len() ==> (#[trigger] r[i]).bkpt == i + 1 && r[i].file == locs[i].file
                    && r[i].start_line == locs[i].line && r[i].start_line <= r[i].end_line
            &&& forall|i: int|
                0 <= i < r.len() - 1 && r[i].file == r[i + 1].file ==> #[trigger] r[i].end_line + 1
                    == r[i + 1].start_line
            &&& forall|i: int, j: int|
                0 <= i < j < r.len() && r[i].file == r[j].file ==> #[trigger] r[i].end_line
                    < #[trigger] r[j].start_line
        }),
{
    let r = ranges_for(locs);
    assert forall|i: int| 0 <= i < r.len() - 1 && r[i].file == r[i + 1].file implies #[trigger] r[i].end_line + 1
        == r[i + 1].start_line by {
        assert(key_lt(locs[i], locs[i + 1]));
    }
    assert forall|i: int| 0 <= i < r.len() implies (#[trigger] r[i]).bkpt == i + 1 && r[i].file == locs[i].file
        && r[i].start_line == locs[i].line && r[i].start_line <= r[i].end_line by {
        if i + 1 < locs.len() && locs[i + 1].file == locs[i].file {
            assert(key_lt(locs[i], locs[i + 1]));
        }
    }
    assert forall|i: int, j: int| 0 <= i < j < r.len() && r[i].file == r[j].file implies #[trigger] r[i].end_line
        < #[trigger] r[j].start_line by {
        assert(key_lt(locs[i], locs[j]));
        if i + 1 < locs.len() && locs[i + 1].file == locs[i].file {
            assert(key_lt(locs[i], locs[i + 1]));
            if i + 1 < j {
                assert(key_lt(locs[i + 1], locs[j]));
            }
        }
    }
}

proof fn lemma_candidates_parts(locs: Seq<LocationInfo>, n: int, c: Seq<LocationInfo>)
    requires
        are_line_candidates(locs, n, c),
    ensures
        strictly_sorted_by_key(c),
        forall|k: int| 0 <= k < c.len() ==> represents_line(locs, n, #[trigger] c[k]),
        forall|j: int|
            0 <= j < n && locs[j].line != 0 ==> exists|k: int| 0 <= k < c.len() && #[trigger] same_key(c[k], locs[j]),
{
    reveal(are_line_candidates);
}

proof fn lemma_candidates_from_parts(locs: Seq<LocationInfo>, n: int, c: Seq<LocationInfo>)
    requires
        strictly_sorted_by_key(c),
        forall|k: int| 0 <= k < c.len() ==> represents_line(locs, n, #[trigger] c[k]),
        forall|j: int|
            0 <= j < n && locs[j].line != 0 ==> exists|k: int| 0 <= k < c.len() && #[trigger] same_key(c[k], locs[j]),
    ensures
        are_line_candidates(locs, n, c),
{
    reveal(are_line_candidates);
}

proof fn lemma_same_members(a: Seq<LocationInfo>, b: Seq<LocationInfo>)
    requires
        a.to_multiset() == b.to_multiset(),
    ensures
        forall|x: LocationInfo| a.contains(x) <==> b.contains(x),
{
    a.to_multiset_ensures();
    b.to_multiset_ensures();
    assert forall|x: LocationInfo| a.contains(x) <==> b.contains(x) by {
        assert(a.contains(x) <==> a.to_multiset().count(x) > 0);
        assert(b.contains(x) <==> b.to_multiset().count(x) > 0);
        assert(a.to_multiset().count(x) == b.to_multiset().count(x));
    }
}

proof fn lemma_rep_unique(locs: Seq<LocationInfo>, n: int, i: int, i2: int)
    requires
        is_line_representative(locs, n, i),
        is_line_representative(locs, n, i2),
        same_key(locs[i], locs[i2]),
    ensures
        i == i2,
{
    assert(same_key(locs[i2], locs[i]));
}

/// Two sequences strictly sorted by line that hold the same locations are equal.
proof fn lemma_sorted_same_elements(c1: Seq<LocationInfo>, c2: Seq<LocationInfo>)
    requires
        strictly_sorted_by_key(c1),
        strictly_sorted_by_key(c2),
        forall|k: int| 0 <= k < c1.len() ==> c2.contains(#[trigger] c1[k]),
        forall|k: int| 0 <= k < c2.len() ==> c1.contains(#[trigger] c2[k]),
    ensures
        c1 == c2,
    decreases c1.len() + c2.len(),
{
    if c1.len() == 0 || c2.len() == 0 {
        if c1.len() > 0 {
            assert(c2.contains(c1[0]));
        }
        if c2.len() > 0 {
            assert(c1.contains(c2[0]));
        }
        assert(c1 =~= c2);
    } else {
        assert(c2.contains(c1[0]));
        let k2 = choose|k: int| 0 <= k < c2.len() && c2[k] == c1[0];
        assert(c1.contains(c2[0]));
        let k1 = choose|k: int| 0 <= k < c1.len() && c1[k] == c2[0];
        if k2 > 0 {
            assert(key_lt(c2[0], c2[k2]));
            if k1 > 0 {
                assert(key_lt(c1[0], c1[k1]));
            }
        }
        assert(c1[0] == c2[0]);
        let d1 = c1.drop_first();
        let d2 = c2.drop_first();
        assert forall|k: int| 0 <= k < d1.len() implies d2.contains(#[trigger] d1[k]) by {
            assert(c2.contains(c1[k + 1]));
            let m = choose|m: int| 0 <= m < c2.len() && c2[m] == c1[k + 1];
            assert(key_lt(c1[0], c1[k + 1]));
            assert(m != 0);
            assert(d2[m - 1] == c2[m]);
        }
        assert forall|k: int| 0 <= k < d2.len() implies d1.contains(#[trigger] d2[k]) by {
            assert(c1.contains(c2[k + 1]));
            let m = choose|m: int| 0 <= m < c1.len() && c1[m] == c2[k + 1];
            assert(key_lt(c2[0], c2[k + 1]));
            assert(m != 0);
            assert(d1[m - 1] == c1[m]);
        }
        lemma_sorted_same_elements(d1, d2);
        assert(c1 =~= c2) by {
            assert forall|k: int| 0 <= k < c1.len() implies c1[k] == c2[k] by {
                if k > 0 {
                    assert(c1[k] == d1[k - 1]);
                    assert(c2[k] == d2[k - 1]);
                }
            }
        }
    }
}

/// The candidates of a list of locations are determined by it: there is
/// one list of them.
pub proof fn law_candidates_unique(locs: Seq<LocationInfo>, c1: Seq<LocationInfo>, c2: Seq<LocationInfo>)
    requires
        are_line_candidates(locs, locs.len() as int, c1),
        are_line_candidates(locs, locs.len() as int, c2),
    ensures
        c1 == c2,
{
    let n = locs.len() as int;
    lemma_candidates_parts(locs, n, c1);
    lemma_candidates_parts(locs, n, c2);
    assert forall|k: int| 0 <= k < c1.len() implies c2.contains(#[trigger] c1[k]) by {
        lemma_member_of_other(locs, c1, c2, k);
    }
    assert forall|k: int| 0 <= k < c2.len() implies c1.contains(#[trigger] c2[k]) by {
        lemma_member_of_other(locs, c2, c1, k);
    }
    lemma_sorted_same_elements(c1, c2);
}

proof fn lemma_member_of_other(locs: Seq<LocationInfo>, c1: Seq<LocationInfo>, c2: Seq<LocationInfo>, k: int)
    requires
        0 <= k < c1.len(),
        represents_line(locs, locs.len() as int, c1[k]),
        forall|k: int| 0 <= k < c2.len() ==> represents_line(locs, locs.len() as int, #[trigger] c2[k]),
        forall|j: int|
            0 <= j < locs.len() && locs[j].line != 0 ==> exists|k: int|
                0 <= k < c2.len() && #[trigger] same_key(c2[k], locs[j]),
    ensures
        c2.contains(c1[k]),
{
    let n = locs.len() as int;
    let i = choose|i: int| is_line_representative(locs, n, i) && c1[k] == locs[i];
    assert(locs[i].line != 0);
    let k2 = choose|k2: int| 0 <= k2 < c2.len() && #[trigger] same_key(c2[k2], locs[i]);
    assert(represents_line(locs, n, c2[k2]));
    let i2 = choose|i2: int| is_line_representative(locs, n, i2) && c2[k2] == locs[i2];
    lemma_rep_unique(locs, n, i, i2);
    assert(c2[k2] == c1[k]);
}

/// `l` adds nothing to `locs`: it is on line 0, or its line already has a
/// location at an address no higher.
pub open spec fn is_redundant(locs: Seq<LocationInfo>, l: LocationInfo) -> bool {
    l.line == 0 || exists|j: int| 0 <= j < locs.len() && #[trigger] same_key(locs[j], l) && locs[j].address <= l.address
}

proof fn lemma_rep_with_redundant(locs: Seq<LocationInfo>, l: LocationInfo, i: int)
    requires
        is_redundant(locs, l),
    ensures
        is_line_representative(locs.push(l), locs.len() + 1 as int, i) <==> is_line_representative(
            locs,
            locs.len() as int,
            i,
        ),
{
    let n = locs.len() as int;
    let ext = locs.push(l);
    if is_line_representative(ext, n + 1, i) {
        if i == n {
            let j0 = choose|j: int| 0 <= j < locs.len() && #[trigger] same_key(locs[j], l) && locs[j].address <= l.address;
            assert(same_key(ext[j0], ext[i]));
        }
        assert forall|j: int| 0 <= j < n && #[trigger] same_key(locs[j], locs[i]) implies (j < i ==> locs[i].address
            < locs[j].address) && (i <= j ==> locs[i].address <= locs[j].address) by {
            assert(ext[j] == locs[j]);
            assert(same_key(ext[j], ext[i]));
        }
    }
    if is_line_representative(locs, n, i) {
        assert forall|j: int| 0 <= j < n + 1 && #[trigger] same_key(ext[j], ext[i]) implies (j < i ==> ext[i].address
            < ext[j].address) && (i <= j ==> ext[i].address <= ext[j].address) by {
            if j == n {
                let j0 = choose|j0: int| 0 <= j0 < locs.len() && #[trigger] same_key(locs[j0], l) && locs[j0].address <= l.address;
                assert(same_key(locs[j0], locs[i]));
            } else {
                assert(ext[j] == locs[j]);
                assert(same_key(locs[j], locs[i]));
            }
        }
    }
}

proof fn lemma_represents_with_redundant(locs: Seq<LocationInfo>, l: LocationInfo, x: LocationInfo)
    requires
        is_redundant(locs, l),
    ensures
        represents_line(locs.push(l), locs.len() + 1 as int, x) <==> represents_line(locs, locs.len() as int, x),
{
    let n = locs.len() as int;
    let ext = locs.push(l);
    if represents_line(ext, n + 1, x) {
        let i = choose|i: int| #[trigger] is_line_representative(ext, n + 1, i) && x == ext[i];
        lemma_rep_with_redundant(locs, l, i);
        assert(ext[i] == locs[i]);
    }
    if represents_line(locs, n, x) {
        let i = choose|i: int| #[trigger] is_line_representative(locs, n, i) && x == locs[i];
        lemma_rep_with_redundant(locs, l, i);
        assert(ext[i] == locs[i]);
    }
}

/// A location of line 0, or one whose line already has a location at an
/// address no higher, changes nothing: appended to the locations, it leaves
/// their candidates as they were.
pub proof fn law_redundant_location_ignored(locs: Seq<LocationInfo>, l: LocationInfo, c: Seq<LocationInfo>)
    requires
        is_redundant(locs, l),
    ensures
        are_line_candidates(locs.push(l), locs.len() + 1 as int, c) <==> are_line_candidates(locs, locs.len() as int, c),
{
    let n = locs.len() as int;
    let ext = locs.push(l);
    if are_line_candidates(locs, n, c) {
        lemma_candidates_parts(locs, n, c);
        assert forall|k: int| 0 <= k < c.len() implies represents_line(ext, n + 1, #[trigger] c[k]) by {
            lemma_represents_with_redundant(locs, l, c[k]);
        }
        assert forall|j: int| 0 <= j < n + 1 && ext[j].line != 0 implies exists|k: int|
            0 <= k < c.len() && #[trigger] same_key(c[k], ext[j]) by {
            if j == n {
                let j0 = choose|j0: int| 0 <= j0 < locs.len() && #[trigger] same_key(locs[j0], l) && locs[j0].address <= l.address;
                let k = choose|k: int| 0 <= k < c.len() && #[trigger] same_key(c[k], locs[j0]);
                assert(same_key(c[k], ext[j]));
            } else {
                assert(ext[j] == locs[j]);
            }
        }
        lemma_candidates_from_parts(ext, n + 1, c);
    }
    if are_line_candidates(ext, n + 1, c) {
        lemma_candidates_parts(ext, n + 1, c);
        assert forall|k: int| 0 <= k < c.len() implies represents_line(locs, n, #[trigger] c[k]) by {
            lemma_represents_with_redundant(locs, l, c[k]);
        }
        assert forall|j: int| 0 <= j < n && locs[j].line != 0 implies exists|k: int|
            0 <= k < c.len() && #[trigger] same_key(c[k], locs[j]) by {
            assert(ext[j] == locs[j]);
        }
        lemma_candidates_from_parts(locs, n, c);
    }
}

/// `x` is a location of `locs`, on a line other than 0, with the lowest
/// address on its line.
pub open spec fn is_lowest_on_line(locs: Seq<LocationInfo>, x: LocationInfo) -> bool {
    &&& locs.contains(x)
    &&& x.line != 0
    &&& forall|j: int| 0 <= j < locs.len() && #[trigger] same_key(locs[j], x) ==> x.address <= locs[j].address
}

/// The lowest address of each line is carried by one location only (or by
/// equal ones).
pub open spec fn lowest_unique(locs: Seq<LocationInfo>) -> bool {
    forall|x: LocationInfo, y: LocationInfo|
        #[trigger] is_lowest_on_line(locs, x) && #[trigger] is_lowest_on_line(locs, y) && same_key(x, y) ==> x == y
}

proof fn lemma_first_index(s: Seq<LocationInfo>, x: LocationInfo) -> (i: int)
    requires
        s.contains(x),
    ensures
        0 <= i < s.len(),
        s[i] == x,
        forall|j: int| 0 <= j < i ==> #[trigger] s[j] != x,
    decreases s.len(),
{
    if s[0] == x {
        0
    } else {
        let k = choose|k: int| 0 <= k < s.len() && s[k] == x;
        assert(s.drop_first()[k - 1] == x);
        let i = lemma_first_index(s.drop_first(), x);
        assert forall|j: int| 0 <= j < i + 1 implies #[trigger] s[j] != x by {
            if j > 0 {
                assert(s[j] == s.drop_first()[j - 1]);
            }
        }
        i + 1
    }
}

proof fn lemma_represents_lowest(locs: Seq<LocationInfo>, x: LocationInfo)
    requires
        lowest_unique(locs),
    ensures
        represents_line(locs, locs.len() as int, x) <==> is_lowest_on_line(locs, x),
{
    let n = locs.len() as int;
    if represents_line(locs, n, x) {
        let i = choose|i: int| #[trigger] is_line_representative(locs, n, i) && x == locs[i];
        assert(locs[i] == x);
        assert forall|j: int| 0 <= j < locs.len() && #[trigger] same_key(locs[j], x) implies x.address
            <= locs[j].address by {
            assert(same_key(locs[j], locs[i]));
        }
    }
    if is_lowest_on_line(locs, x) {
        let i = lemma_first_index(locs, x);
        assert forall|j: int| 0 <= j < n && #[trigger] same_key(locs[j], locs[i]) implies (j < i ==> locs[i].address
            < locs[j].address) && (i <= j ==> locs[i].address <= locs[j].address) by {
            assert(same_key(locs[j], x));
            if j < i && locs[j].address == x.address {
                let y = locs[j];
                assert(locs.contains(y));
                assert forall|m: int| 0 <= m < locs.len() && #[trigger] same_key(locs[m], y) implies y.address
                    <= locs[m].address by {
                    assert(same_key(locs[m], x));
                }
                assert(is_lowest_on_line(locs, y));
                assert(same_key(y, x));
            }
        }
        assert(is_line_representative(locs, n, i));
    }
}

proof fn lemma_lowest_same_members(a: Seq<LocationInfo>, b: Seq<LocationInfo>, x: LocationInfo)
    requires
        forall|y: LocationInfo| a.contains(y) <==> b.contains(y),
        is_lowest_on_line(a, x),
    ensures
        is_lowest_on_line(b, x),
{
    assert forall|j: int| 0 <= j < b.len() && #[trigger] same_key(b[j], x) implies x.address <= b[j].address by {
        assert(b.contains(b[j]));
        assert(a.contains(b[j]));
        let m = choose|m: int| 0 <= m < a.len() && a[m] == b[j];
        assert(same_key(a[m], x));
    }
}

proof fn lemma_covered_same_members(a: Seq<LocationInfo>, b: Seq<LocationInfo>, c: Seq<LocationInfo>)
    requires
        forall|y: LocationInfo| a.contains(y) <==> b.contains(y),
        forall|j: int|
            0 <= j < a.len() && a[j].line != 0 ==> exists|k: int| 0 <= k < c.len() && #[trigger] same_key(c[k], a[j]),
    ensures
        forall|j: int|
            0 <= j < b.len() && b[j].line != 0 ==> exists|k: int| 0 <= k < c.len() && #[trigger] same_key(c[k], b[j]),
{
    assert forall|j: int| 0 <= j < b.len() && b[j].line != 0 implies exists|k: int|
        0 <= k < c.len() && #[trigger] same_key(c[k], b[j]) by {
        assert(b.contains(b[j]));
        assert(a.contains(b[j]));
        let m = choose|m: int| 0 <= m < a.len() && a[m] == b[j];
        let k = choose|k: int| 0 <= k < c.len() && #[trigger] same_key(c[k], a[m]);
        assert(same_key(c[k], b[j]));
    }
}

proof fn lemma_candidates_same_members(a: Seq<LocationInfo>, b: Seq<LocationInfo>, c: Seq<LocationInfo>)
    requires
        forall|y: LocationInfo| a.contains(y) <==> b.contains(y),
        lowest_unique(a),
        lowest_unique(b),
        are_line_candidates(a, a.len() as int, c),
    ensures
        are_line_candidates(b, b.len() as int, c),
{
    lemma_candidates_parts(a, a.len() as int, c);
    assert forall|k: int| 0 <= k < c.len() implies represents_line(b, b.len() as int, #[trigger] c[k]) by {
        lemma_represents_lowest(a, c[k]);
        lemma_lowest_same_members(a, b, c[k]);
        lemma_represents_lowest(b, c[k]);
    }
    lemma_covered_same_members(a, b, c);
    lemma_candidates_from_parts(b, b.len() as int, c);
}

/// The candidates do not depend on the order of the locations, as long as
/// the lowest address of each line is carried by one location only (or by
/// equal ones); otherwise the first of them in the list is taken.
pub proof fn law_candidates_ignore_order(locs: Seq<LocationInfo>, perm: Seq<LocationInfo>, c: Seq<LocationInfo>)
    requires
        perm.to_multiset() == locs.to_multiset(),
        lowest_unique(locs),
    ensures
        are_line_candidates(perm, perm.len() as int, c) <==> are_line_candidates(locs, locs.len() as int, c),
{
    lemma_same_members(perm, locs);
    assert forall|x: LocationInfo, y: LocationInfo|
        #[trigger] is_lowest_on_line(perm, x) && #[trigger] is_lowest_on_line(perm, y) && same_key(x, y) implies x
        == y by {
        lemma_lowest_same_members(perm, locs, x);
        lemma_lowest_same_members(perm, locs, y);
    }
    if are_line_candidates(locs, locs.len() as int, c) {
        lemma_candidates_same_members(locs, perm, c);
    }
    if are_line_candidates(perm, perm.len() as int, c) {
        lemma_candidates_same_members(perm, locs, c);
    }
}

/// `funcs1` and `funcs2` hold the same instructions and offset tables.
pub open spec fn same_views(funcs1: Seq<FunctionLayout>, funcs2: Seq<FunctionLayout>) -> bool {
    &&& funcs1.len() == funcs2.len()
    &&& forall|k: int|
        #![trigger funcs1[k]]
        0 <= k < funcs1.len() ==> funcs1[k].sites@ == funcs2[k].sites@ && funcs1[k].offsets@ == funcs2[k].offsets@
}

proof fn lemma_same_views_resolve_in(funcs1: Seq<FunctionLayout>, funcs2: Seq<FunctionLayout>, rel: bool, addr: u64)
    requires
        same_views(funcs1, funcs2),
    ensures
        resolve_in(funcs1, rel, addr) == resolve_in(funcs2, rel, addr),
{
    let n = funcs1.len() as int;
    assert forall|f: int, k: int| #[trigger] entry_fits(funcs1, rel, addr, n, 0, f, k) == entry_fits(funcs2, rel, addr, n, 0, f, k)
        by {
        if 0 <= f < n {
            assert(funcs1[f].offsets@ == funcs2[f].offsets@);
        }
    }
    assert forall|f: int, k: int| #[trigger] is_best_entry(funcs1, rel, addr, n, 0, f, k) implies is_best_entry(funcs2, rel, addr, n, 0, f, k)
        by {
        lemma_best_entry_same_views(funcs1, funcs2, rel, addr, f, k);
    }
    assert forall|f: int, k: int| #[trigger] is_best_entry(funcs2, rel, addr, n, 0, f, k) implies is_best_entry(funcs1, rel, addr, n, 0, f, k)
        by {
        lemma_best_entry_same_views(funcs2, funcs1, rel, addr, f, k);
    }
    if exists|f: int, k: int| is_best_entry(funcs1, rel, addr, n, 0, f, k) {
        let (f1, k1) = choose|f: int, k: int| is_best_entry(funcs1, rel, addr, n, 0, f, k);
        assert(is_best_entry(funcs2, rel, addr, n, 0, f1, k1));
        let (f2, k2) = choose|f: int, k: int| is_best_entry(funcs2, rel, addr, n, 0, f, k);
        assert(is_best_entry(funcs1, rel, addr, n, 0, f2, k2));
        lemma_best_entry_unique(funcs1, rel, addr, n, 0, f1, k1, f2, k2);
        assert(funcs1[f1].sites@ == funcs2[f1].sites@ && funcs1[f1].offsets@ == funcs2[f1].offsets@);
        let loc = funcs1[f1].offsets@[k1].1;
        if exists|s: int| is_last_site(funcs1[f1].sites@, loc, s) {
            let s1 = choose|s: int| is_last_site(funcs1[f1].sites@, loc, s);
            let s2 = choose|s: int| is_last_site(funcs2[f1].sites@, loc, s);
            lemma_last_site_unique(funcs1[f1].sites@, loc, s1, s2);
        }
    } else {
        assert(!exists|f: int, k: int| is_best_entry(funcs2, rel, addr, n, 0, f, k)) by {
            if exists|f: int, k: int| is_best_entry(funcs2, rel, addr, n, 0, f, k) {
                let (f2, k2) = choose|f: int, k: int| is_best_entry(funcs2, rel, addr, n, 0, f, k);
                assert(is_best_entry(funcs1, rel, addr, n, 0, f2, k2));
            }
        }
    }
}

proof fn lemma_best_entry_same_views(
    funcs1: Seq<FunctionLayout>,
    funcs2: Seq<FunctionLayout>,
    rel: bool,
    addr: u64,
    f: int,
    k: int,
)
    requires
        same_views(funcs1, funcs2),
        is_best_entry(funcs1, rel, addr, funcs1.len() as int, 0, f, k),
    ensures
        is_best_entry(funcs2, rel, addr, funcs2.len() as int, 0, f, k),
{
    let n = funcs1.len() as int;
    assert(funcs1[f].offsets@ == funcs2[f].offsets@);
    assert(entry_offset(funcs1, rel, f, k) == entry_offset(funcs2, rel, f, k));
    assert forall|f2: int, k2: int| #[trigger] entry_fits(funcs2, rel, addr, n, 0, f2, k2) implies entry_offset(funcs2, rel, f2, k2)
        < entry_offset(funcs2, rel, f, k) || (entry_offset(funcs2, rel, f2, k2) == entry_offset(funcs2, rel, f, k) && (f2 < f
        || (f2 == f && k2 <= k))) by {
        assert(funcs1[f2].offsets@ == funcs2[f2].offsets@);
        assert(entry_offset(funcs1, rel, f2, k2) == entry_offset(funcs2, rel, f2, k2));
        assert(entry_fits(funcs1, rel, addr, n, 0, f2, k2));
    }
}

/// Layouts that hold the same instructions and offset tables give every candidate
/// the same breakpoint.
pub proof fn lemma_same_views_resolve_all(funcs1: Seq<FunctionLayout>, funcs2: Seq<FunctionLayout>, cands: Seq<LocationInfo>)
    requires
        same_views(funcs1, funcs2),
    ensures
        resolve_all(funcs1, cands) == resolve_all(funcs2, cands),
    decreases cands.len(),
{
    if cands.len() > 0 {
        lemma_same_views_resolve_all(funcs1, funcs2, cands.drop_last());
        let addr = cands.last().address;
        lemma_same_views_resolve_in(funcs1, funcs2, false, addr);
        lemma_same_views_resolve_in(funcs1, funcs2, true, addr);
        let r = resolve_all(funcs1, cands.drop_last()).0;
        lemma_resolve_address_valid(funcs1, addr);
        if let Some((f, s)) = resolve_address(funcs1, addr) {
            assert(funcs1[f].sites@ == funcs2[f].sites@);
            if site_taken(funcs1, r, f, s) {
                let i = choose|i: int|
                    0 <= i < r.len() && r[i].func == f && #[trigger] funcs1[f].sites@[r[i].site as int].seq
                        == funcs1[f].sites@[s].seq && funcs1[f].sites@[r[i].site as int].idx == funcs1[f].sites@[s].idx;
                assert(funcs2[f].sites@[r[i].site as int].seq == funcs2[f].sites@[s].seq);
            }
            if site_taken(funcs2, r, f, s) {
                let i = choose|i: int|
                    0 <= i < r.len() && r[i].func == f && #[trigger] funcs2[f].sites@[r[i].site as int].seq
                        == funcs2[f].sites@[s].seq && funcs2[f].sites@[r[i].site as int].idx == funcs2[f].sites@[s].idx;
                assert(funcs1[f].sites@[r[i].site as int].seq == funcs1[f].sites@[s].seq);
            }
        }
    }
}

/// `inserted_before` orders any two different breakpoints one way.
proof fn lemma_inserted_before_total(funcs: Seq<FunctionLayout>, r: Seq<ResolvedBreakpoint>, a: int, b: int)
    requires
        a != b,
    ensures
        inserted_before(funcs, r, a, b) || inserted_before(funcs, r, b, a),
{
}

/// Where `x` goes in `o`: after the breakpoints inserted before it, before the others.
proof fn lemma_insert_point(funcs: Seq<FunctionLayout>, r: Seq<ResolvedBreakpoint>, o: Seq<usize>, x: int) -> (p: int)
    requires
        forall|a: int, b: int| 0 <= a < b < o.len() ==> inserted_before(funcs, r, #[trigger] o[a] as int, #[trigger] o[b] as int),
        forall|k: int| 0 <= k < o.len() ==> #[trigger] o[k] != x,
    ensures
        0 <= p <= o.len(),
        forall|k: int| 0 <= k < p ==> inserted_before(funcs, r, #[trigger] o[k] as int, x),
        forall|k: int| p <= k < o.len() ==> inserted_before(funcs, r, x, #[trigger] o[k] as int),
    decreases o.len(),
{
    if o.len() == 0 {
        0
    } else {
        let d = o.drop_last();
        assert forall|a: int, b: int| 0 <= a < b < d.len() implies inserted_before(funcs, r, #[trigger] d[a] as int, #[trigger] d[b] as int) by {
            assert(d[a] == o[a] && d[b] == o[b]);
        }
        let q = lemma_insert_point(funcs, r, d, x);
        let last = o.len() - 1;
        assert(o[last] != x);
        lemma_inserted_before_total(funcs, r, o[last] as int, x);
        if inserted_before(funcs, r, o[last] as int, x) {
            assert forall|k: int| 0 <= k < o.len() implies inserted_before(funcs, r, #[trigger] o[k] as int, x) by {
                if k < last {
                    assert(inserted_before(funcs, r, o[k] as int, o[last] as int));
                }
            }
            o.len() as int
        } else {
            assert forall|k: int| 0 <= k < q implies inserted_before(funcs, r, #[trigger] o[k] as int, x) by {
                assert(d[k] == o[k]);
            }
            assert forall|k: int| q <= k < o.len() implies inserted_before(funcs, r, x, #[trigger] o[k] as int) by {
                if k < last {
                    assert(d[k] == o[k]);
                }
            }
            q
        }
    }
}

/// Every function's breakpoints among the first `n` have an insertion order.
pub proof fn lemma_insertion_order_exists(funcs: Seq<FunctionLayout>, r: Seq<ResolvedBreakpoint>, f: int, n: int)
    requires
        0 <= n <= r.len(),
        n <= usize::MAX + 1,
    ensures
        exists|o: Seq<usize>| is_insertion_order(funcs, r, f, n, o),
    decreases n,
{
    if n == 0 {
        assert(is_insertion_order(funcs, r, f, 0, Seq::<usize>::empty()));
    } else {
        let x = n - 1;
        lemma_insertion_order_exists(funcs, r, f, x);
        let o = choose|o: Seq<usize>| is_insertion_order(funcs, r, f, x, o);
        if r[x].func != f {
            assert forall|i: int| 0 <= i < n && r[i].func == f implies #[trigger] o.contains(i as usize) by {
                assert(i < n - 1);
            }
            assert(is_insertion_order(funcs, r, f, n, o));
        } else {
            assert forall|k: int| 0 <= k < o.len() implies #[trigger] o[k] != x by {
                assert(o[k] < n - 1);
            }
            let p = lemma_insert_point(funcs, r, o, x);
            let o2 = o.insert(p, x as usize);
            assert forall|k: int| 0 <= k < o2.len() implies #[trigger] o2[k] < n && r[o2[k] as int].func == f by {
                if k < p {
                    assert(o2[k] == o[k]);
                } else if k > p {
                    assert(o2[k] == o[k - 1]);
                }
            }
            assert forall|i: int| 0 <= i < n && r[i].func == f implies #[trigger] o2.contains(i as usize) by {
                if i == x {
                    assert(o2[p] == x as usize);
                } else {
                    assert(o.contains(i as usize));
                    let k = choose|k: int| 0 <= k < o.len() && o[k] == i as usize;
                    if k < p {
                        assert(o2[k] == o[k]);
                    } else {
                        assert(o2[k + 1] == o[k]);
                    }
                }
            }
            assert forall|a: int, b: int| 0 <= a < b < o2.len() implies inserted_before(funcs, r, #[trigger] o2[a] as int, #[trigger] o2[b] as int) by {
                if a < p && b < p {
                    assert(o2[a] == o[a] && o2[b] == o[b]);
                } else if a < p && b == p {
                    assert(o2[a] == o[a]);
                } else if a < p {
                    assert(o2[a] == o[a] && o2[b] == o[b - 1]);
                } else if a == p {
                    assert(o2[b] == o[b - 1]);
                } else {
                    assert(o2[a] == o[a - 1] && o2[b] == o[b - 1]);
                }
            }
            assert(is_insertion_order(funcs, r, f, n, o2));
        }
    }
}

/// No more breakpoints than candidates.
pub proof fn lemma_resolve_all_len(funcs: Seq<FunctionLayout>, cands: Seq<LocationInfo>)
    ensures
        resolve_all(funcs, cands).0.len() <= cands.len(),
    decreases cands.len(),
{
    if cands.len() > 0 {
        lemma_resolve_all_len(funcs, cands.drop_last());
    }
}

} // verus!
