//! Instrumenting a WebAssembly binary with breakpoint calls: the module is read
//! and rewritten by `walrus`; which calls go where is decided in `breakpoints`.
use vstd::prelude::*;
use vstd::set_lib::{lemma_int_range, lemma_len_subset, set_int_range};

use crate::breakpoints;
use crate::breakpoints::{
    breakpoint_ranges, insertion_order, resolve_candidates, select_line_candidates, FunctionLayout, InstrSite,
    ResolvedBreakpoint,
};
use crate::types::{BreakpointRange, LocationInfo};
use crate::wasm_module::{
    add_bkpt_import, emit_wasm, insert_planned, instruction_offsets, instruction_sites, loc_data, local_function_count,
    parse_module, walrus_accepts, walrus_emit, walrus_placement, walrus_local_count, walrus_offsets, walrus_sites, ParsedModule,
    insert_call, insert_i32_const, seq_contents, seq_len, INSTR_CALL, INSTR_I32_CONST,
};
use walrus::ir::{Instr, InstrLocId, InstrSeq, InstrSeqId, Visitor, VisitorMut};
use walrus::{FunctionId, LocalFunction, Module};

verus! {

#[verifier::external_type_specification]
#[verifier::external_body]
pub struct ExAnyhowError(anyhow::Error);

#[verifier::external_type_specification]
#[verifier::external_body]
pub struct ExModule(Module);

#[verifier::external_type_specification]
#[verifier::external_body]
pub struct ExLocalFunction(LocalFunction);

#[verifier::external_type_specification]
#[verifier::external_body]
#[verifier::reject_recursive_types(T)]
pub struct ExArenaId<T>(id_arena::Id<T>);

#[verifier::external_type_specification]
#[verifier::external_body]
pub struct ExFunction(walrus::Function);

#[verifier::external_type_specification]
#[verifier::external_body]
pub struct ExType(walrus::Type);

#[verifier::external_type_specification]
#[verifier::external_body]
pub struct ExInstrSeq(InstrSeq);

#[verifier::external_type_specification]
#[verifier::external_body]
pub struct ExInstr(Instr);

#[verifier::external_type_specification]
#[verifier::external_body]
pub struct ExInstrLocId(InstrLocId);

/// The `Debug` rendering of an error (`format!("{:?}", ..)`).
#[verifier::external_body]
fn debug_text(e: &anyhow::Error) -> String {
    format!("{:?}", e)
}

/// `id_arena::Id::index` of an instruction sequence id.
#[verifier::external_body]
fn seq_index(seq: InstrSeqId) -> usize {
    seq.index()
}

pub assume_specification[ InstrSeq::id ](seq: &InstrSeq) -> InstrSeqId;

/// Walks a function body and records, for each instruction, its location id
/// (`None` for the default id), the index of the sequence it belongs to and
/// its position in that sequence.
pub struct SiteCollector {
    stack: Vec<(usize, usize)>,
    visits: Vec<(Option<u32>, usize, usize)>,
}

impl SiteCollector {
    /// The sequences entered and not yet left, innermost last, each (by its
    /// index) with the position of the next instruction in it.
    pub closed spec fn open_seqs(&self) -> Seq<(usize, usize)> {
        self.stack@
    }

    /// What has been recorded so far: for each instruction visited inside a
    /// sequence, its location id, its sequence's index and its position there.
    pub closed spec fn visits(&self) -> Seq<(Option<u32>, usize, usize)> {
        self.visits@
    }

    /// A collector that is in no sequence and has recorded nothing.
    pub fn new() -> (c: Self)
        ensures
            c.open_seqs() == Seq::<(usize, usize)>::empty(),
            c.visits() == Seq::<(Option<u32>, usize, usize)>::empty(),
    {
        SiteCollector { stack: Vec::new(), visits: Vec::new() }
    }

    /// What was recorded.
    pub fn into_visits(self) -> (s: Vec<(Option<u32>, usize, usize)>)
        ensures
            s@ == self.visits(),
    {
        self.visits
    }
}

impl<'instr> Visitor<'instr> for SiteCollector {
    /// Entering a sequence: it becomes the innermost open one, at position 0.
    fn start_instr_seq(&mut self, seq: &'instr InstrSeq)
        ensures
            final(self).open_seqs().len() == old(self).open_seqs().len() + 1,
            final(self).open_seqs().drop_last() == old(self).open_seqs(),
            final(self).open_seqs().last().1 == 0,
            final(self).visits() == old(self).visits(),
    {
        let id = seq_index(seq.id());
        self.stack.push((id, 0));
    }

    /// Leaving a sequence: the innermost open one is closed.
    fn end_instr_seq(&mut self, _seq: &'instr InstrSeq)
        ensures
            final(self).open_seqs() == (if old(self).open_seqs().len() == 0 {
                old(self).open_seqs()
            } else {
                old(self).open_seqs().drop_last()
            }),
            final(self).visits() == old(self).visits(),
    {
        let _ = self.stack.pop();
    }

    /// Visiting an instruction inside a sequence: it is recorded, with its
    /// location id as `loc_data` gives it, at the innermost sequence's current
    /// position, which then moves on by one (it stays at `usize::MAX`).
    /// Outside any sequence nothing changes.
    fn visit_instr(&mut self, _instr: &'instr Instr, loc: &'instr InstrLocId)
        ensures
            old(self).open_seqs().len() == 0 ==> *final(self) == *old(self),
            old(self).open_seqs().len() > 0 ==> {
                let (seq, idx) = old(self).open_seqs().last();
                let n = old(self).open_seqs().len() - 1;
                &&& final(self).visits().len() == old(self).visits().len() + 1
                &&& final(self).visits().drop_last() == old(self).visits()
                &&& final(self).visits().last().1 == seq
                &&& final(self).visits().last().2 == idx
                &&& final(self).open_seqs() == old(self).open_seqs().update(
                    n,
                    (seq, if idx < usize::MAX { (idx + 1) as usize } else { idx }),
                )
            },
    {
        let n = self.stack.len();
        if n > 0 {
            let (seq, idx) = self.stack[n - 1];
            let data = loc_data(loc);
            self.visits.push((data, seq, idx));
            if idx < usize::MAX {
                self.stack.set(n - 1, (seq, idx + 1));
            }
        }
    }
}

/// Inserts the breakpoint calls of one function while its body is walked.
/// `plan[j]` is (sequence index, position, breakpoint number), in the order
/// to insert them; `status[j]` is 0 while the entry is pending, 1 once its
/// calls are inserted, 2 when its position lay past the end of its sequence;
/// `visited` lists the indices of the sequences entered so far.
pub struct BreakpointInserter {
    plan: Vec<(usize, usize, u32)>,
    status: Vec<u8>,
    bkpt_func: FunctionId,
    visited: Vec<usize>,
}

impl BreakpointInserter {
    /// The plan that this inserter applies.
    pub closed spec fn planned(&self) -> Seq<(usize, usize, u32)> {
        self.plan@
    }

    /// The function that the inserted calls call.
    pub closed spec fn target(&self) -> FunctionId {
        self.bkpt_func
    }

    /// What became of each entry of the plan (0 pending, 1 inserted, 2 skipped).
    pub closed spec fn statuses(&self) -> Seq<u8> {
        self.status@
    }

    /// The indices of the sequences entered so far.
    pub closed spec fn visited_seqs(&self) -> Seq<usize> {
        self.visited@
    }

    /// Every entry of the plan is pending.
    pub closed spec fn all_pending(&self) -> bool {
        &&& self.status@.len() == self.plan@.len()
        &&& forall|j: int| 0 <= j < self.status@.len() ==> #[trigger] self.status@[j] == 0
    }
}

/// The breakpoint number `n` as the operand of `i32.const n`.
pub open spec fn const_operand(n: u32) -> i64 {
    (n as i32) as i64
}

/// The contents of a sequence with index `sid`, and the statuses, after the
/// first `j` entries of `plan` were taken in turn: a pending entry of this
/// sequence gets `i32.const n; call` at its position, or is skipped when the
/// position lies past the end; other entries leave both unchanged.
pub open spec fn plan_effect(
    contents: Seq<(u8, i64)>,
    status: Seq<u8>,
    plan: Seq<(usize, usize, u32)>,
    sid: usize,
    j: int,
) -> (Seq<(u8, i64)>, Seq<u8>)
    decreases j,
{
    if j <= 0 {
        (contents, status)
    } else {
        let (c, st) = plan_effect(contents, status, plan, sid, j - 1);
        let e = plan[j - 1];
        if e.0 == sid && j - 1 < st.len() && st[j - 1] == 0 {
            if e.1 > c.len() {
                (c, st.update(j - 1, 2))
            } else {
                (
                    c.insert(e.1 as int, (INSTR_I32_CONST, const_operand(e.2))).insert(e.1 + 1, (INSTR_CALL, 0i64)),
                    st.update(j - 1, 1),
                )
            }
        } else {
            (c, st)
        }
    }
}

proof fn lemma_plan_effect_status_len(
    contents: Seq<(u8, i64)>,
    status: Seq<u8>,
    plan: Seq<(usize, usize, u32)>,
    sid: usize,
    j: int,
)
    ensures
        plan_effect(contents, status, plan, sid, j).1.len() == status.len(),
    decreases j,
{
    if j > 0 {
        lemma_plan_effect_status_len(contents, status, plan, sid, j - 1);
    }
}

impl VisitorMut for BreakpointInserter {
    /// Entering a sequence: its index is added to `visited`, and each pending
    /// entry of the plan for this sequence, in plan order, gets
    /// `i32.const n; call bkpt` at its position (status 1), or is skipped when
    /// the position lies past the end (status 2).
    fn start_instr_seq_mut(&mut self, seq: &mut InstrSeq)
        ensures
            final(self).planned() == old(self).planned(),
            final(self).target() == old(self).target(),
            final(self).visited_seqs().len() == old(self).visited_seqs().len() + 1,
            final(self).visited_seqs().drop_last() == old(self).visited_seqs(),
            (seq_contents(*final(seq)), final(self).statuses()) == plan_effect(
                seq_contents(*old(seq)),
                old(self).statuses(),
                old(self).planned(),
                final(self).visited_seqs().last(),
                old(self).planned().len() as int,
            ),
    {
        let ghost start = *self;
        let ghost start_seq = seq_contents(*seq);
        let sid = seq_index(seq.id());
        self.visited.push(sid);
        let n = self.plan.len();
        let mut j: usize = 0;
        while j < n
            invariant
                n == self.plan@.len(),
                j <= n,
                self.plan@ == start.plan@,
                self.bkpt_func == start.bkpt_func,
                self.visited@ == start.visited@.push(sid),
                (seq_contents(*seq), self.status@) == plan_effect(start_seq, start.status@, start.plan@, sid, j as int),
            decreases n - j,
        {
            proof {
                lemma_plan_effect_status_len(start_seq, start.status@, start.plan@, sid, j as int);
            }
            let (sq, idx, bkpt) = self.plan[j];
            if sq == sid && j < self.status.len() && self.status[j] == 0 {
                if idx > seq_len(seq) {
                    self.status.set(j, 2);
                } else {
                    insert_i32_const(seq, idx, #[verifier::truncate] (bkpt as i32));
                    let grown = seq_len(seq);
                    assert(idx < grown);
                    insert_call(seq, idx + 1, self.bkpt_func);
                    self.status.set(j, 1);
                }
            }
            j = j + 1;
        }
        assert(self.visited@.drop_last() =~= start.visited@);
    }
}

/// What instrumenting reports: the candidates that were considered (those
/// given a breakpoint and those that resolved to no instruction), the calls
/// inserted, the candidates without an instruction, and the calls whose place
/// lay past the end of their sequence.
#[derive(Clone, Copy, Debug, PartialEq, Eq, Structural)]
pub struct InstrumentSummary {
    pub candidates: usize,
    pub inserted: usize,
    pub unmatched: usize,
    pub skipped_out_of_bounds: usize,
}

/// The visited instructions that have a location id, as a layout holds them.
pub open spec fn known_sites(s: Seq<(Option<u32>, usize, usize)>) -> Seq<InstrSite>
    decreases s.len(),
{
    if s.len() == 0 {
        Seq::empty()
    } else {
        let prev = known_sites(s.drop_last());
        let (loc, seq, idx) = s.last();
        match loc {
            Some(d) => prev.push(InstrSite { loc: d, seq, idx }),
            None => prev,
        }
    }
}

/// The instructions of a function as its layout holds them.
pub open spec fn sites_model(s: Option<Seq<(Option<u32>, usize, usize)>>) -> Seq<InstrSite> {
    match s {
        Some(v) => known_sites(v),
        None => Seq::empty(),
    }
}

/// The entries of an offset table that have a location id.
pub open spec fn known_offsets(s: Seq<(usize, Option<u32>)>) -> Seq<(usize, u32)>
    decreases s.len(),
{
    if s.len() == 0 {
        Seq::empty()
    } else {
        let prev = known_offsets(s.drop_last());
        match s.last().1 {
            Some(d) => prev.push((s.last().0, d)),
            None => prev,
        }
    }
}

/// The offset table of a function as its layout holds it.
pub open spec fn offsets_model(s: Option<Seq<(usize, Option<u32>)>>) -> Seq<(usize, u32)> {
    match s {
        Some(v) => known_offsets(v),
        None => Seq::empty(),
    }
}

/// `funcs` is the layout of the functions of the module `walrus` reads from
/// `wasm`: one per defined function, with its instructions and offsets.
pub open spec fn layout_matches(funcs: Seq<FunctionLayout>, wasm: Seq<u8>) -> bool {
    &&& funcs.len() == walrus_local_count(wasm)
    &&& forall|k: int|
        0 <= k < funcs.len() ==> #[trigger] funcs[k].sites@ == sites_model(walrus_sites(wasm, k))
            && funcs[k].offsets@ == offsets_model(walrus_offsets(wasm, k))
}

/// Reads the layout of the `f`-th local function: its instructions (each with
/// the index of its sequence and its position there) and its offset table.
fn read_layout(module: &ParsedModule, f: usize) -> (l: FunctionLayout)
    ensures
        l.sites@ == sites_model(walrus_sites(module@, f as int)),
        l.offsets@ == offsets_model(walrus_offsets(module@, f as int)),
{
    let raw = match instruction_sites(module, f) {
        Some(v) => v,
        None => Vec::new(),
    };
    let ghost rs = walrus_sites(module@, f as int);
    assert(sites_model(rs) == known_sites(raw@));
    let mut sites: Vec<InstrSite> = Vec::new();
    let m = raw.len();
    let mut k: usize = 0;
    assert(raw@.take(0) =~= Seq::<(Option<u32>, usize, usize)>::empty());
    while k < m
        invariant
            m == raw@.len(),
            k <= m,
            sites@ == known_sites(raw@.take(k as int)),
        decreases m - k,
    {
        let (loc, seq, idx) = raw[k];
        assert(raw@.take(k + 1).drop_last() =~= raw@.take(k as int));
        match loc {
            Some(d) => sites.push(InstrSite { loc: d, seq, idx }),
            None => {},
        }
        k = k + 1;
    }
    assert(raw@.take(m as int) =~= raw@);
    let table = match instruction_offsets(module, f) {
        Some(v) => v,
        None => Vec::new(),
    };
    let ghost ro = walrus_offsets(module@, f as int);
    assert(offsets_model(ro) == known_offsets(table@));
    let mut offsets: Vec<(usize, u32)> = Vec::new();
    let mt = table.len();
    let mut t: usize = 0;
    assert(table@.take(0) =~= Seq::<(usize, Option<u32>)>::empty());
    while t < mt
        invariant
            mt == table@.len(),
            t <= mt,
            offsets@ == known_offsets(table@.take(t as int)),
        decreases mt - t,
    {
        let (off, loc) = table[t];
        assert(table@.take(t + 1).drop_last() =~= table@.take(t as int));
        match loc {
            Some(d) => offsets.push((off, d)),
            None => {},
        }
        t = t + 1;
    }
    assert(table@.take(mt as int) =~= table@);
    FunctionLayout { sites, offsets }
}

/// Reads the layout of every local function.
fn read_layouts(module: &ParsedModule) -> (layouts: Vec<FunctionLayout>)
    ensures
        layout_matches(layouts@, module@),
{
    let mut layouts: Vec<FunctionLayout> = Vec::new();
    let n = local_function_count(module);
    let mut f: usize = 0;
    while f < n
        invariant
            f <= n,
            n == walrus_local_count(module@),
            layouts@.len() == f,
            forall|k: int|
                0 <= k < f ==> #[trigger] layouts@[k].sites@ == sites_model(walrus_sites(module@, k))
                    && layouts@[k].offsets@ == offsets_model(walrus_offsets(module@, k)),
        decreases n - f,
    {
        let l = read_layout(module, f);
        let ghost prev = layouts@;
        layouts.push(l);
        assert forall|k: int|
            0 <= k < f + 1 implies #[trigger] layouts@[k].sites@ == sites_model(walrus_sites(module@, k))
                && layouts@[k].offsets@ == offsets_model(walrus_offsets(module@, k)) by {
            if k < f {
                assert(layouts@[k] == prev[k]);
                assert(prev[k].sites@ == sites_model(walrus_sites(module@, k)));
                assert(prev[k].offsets@ == offsets_model(walrus_offsets(module@, k)));
            } else {
                assert(layouts@[k] == l);
            }
        }
        f = f + 1;
    }
    layouts
}

/// How many entries of `s` are `v`.
pub open spec fn count_of(s: Seq<u8>, v: u8) -> nat
    decreases s.len(),
{
    if s.len() == 0 {
        0
    } else {
        count_of(s.drop_last(), v) + if s.last() == v {
            1nat
        } else {
            0nat
        }
    }
}

proof fn lemma_count_prefix(s: Seq<u8>, j: int)
    requires
        0 <= j <= s.len(),
    ensures
        count_of(s.take(j), 1) + count_of(s.take(j), 2) <= count_of(s, 1) + count_of(s, 2),
    decreases s.len() - j,
{
    if j < s.len() {
        lemma_count_prefix(s, j + 1);
        assert(s.take(j + 1).drop_last() =~= s.take(j));
    } else {
        assert(s.take(j) =~= s);
    }
}

proof fn lemma_counts_bounded(s: Seq<u8>)
    ensures
        count_of(s, 1) + count_of(s, 2) <= s.len(),
    decreases s.len(),
{
    if s.len() > 0 {
        lemma_counts_bounded(s.drop_last());
    }
}

/// How many planned breakpoints of `plans`, applied in turn to the module read
/// from `wasm`, ended as `v` (1 inserted, 2 past the end of their sequence).
pub open spec fn placed_total(wasm: Seq<u8>, plans: Seq<(usize, Seq<(usize, usize, u32)>)>, v: u8) -> nat
    decreases plans.len(),
{
    if plans.len() == 0 {
        0
    } else {
        placed_total(wasm, plans.drop_last(), v) + count_of(
            walrus_placement(wasm, plans.drop_last(), plans.last().0 as int, plans.last().1),
            v,
        )
    }
}

/// The plan entry of breakpoint `i` of `r`: the sequence and position of its
/// instruction, and its number `i + 1`.
pub open spec fn plan_entry(funcs: Seq<FunctionLayout>, r: Seq<ResolvedBreakpoint>, i: int) -> (usize, usize, u32) {
    let s = funcs[r[i].func as int].sites@[r[i].site as int];
    (s.seq, s.idx, (i + 1) as u32)
}

/// The plan of function `f`: the entries of its breakpoints in the order to
/// insert them.
pub open spec fn function_plan(funcs: Seq<FunctionLayout>, r: Seq<ResolvedBreakpoint>, f: int) -> Seq<
    (usize, usize, u32),
> {
    let order = choose|o: Seq<usize>| breakpoints::is_insertion_order(funcs, r, f, r.len() as int, o);
    order.map_values(|i: usize| plan_entry(funcs, r, i as int))
}

/// The plans of all functions, in function order.
pub open spec fn breakpoint_plans(funcs: Seq<FunctionLayout>, r: Seq<ResolvedBreakpoint>) -> Seq<
    (usize, Seq<(usize, usize, u32)>),
> {
    Seq::new(funcs.len(), |f: int| (f as usize, function_plan(funcs, r, f)))
}

/// Two sequences in insertion order that hold the same breakpoints are equal.
proof fn lemma_ordered_same_elements(funcs: Seq<FunctionLayout>, r: Seq<ResolvedBreakpoint>, o1: Seq<usize>, o2: Seq<usize>)
    requires
        forall|a: int, b: int|
            0 <= a < b < o1.len() ==> breakpoints::inserted_before(funcs, r, #[trigger] o1[a] as int, #[trigger] o1[b] as int),
        forall|a: int, b: int|
            0 <= a < b < o2.len() ==> breakpoints::inserted_before(funcs, r, #[trigger] o2[a] as int, #[trigger] o2[b] as int),
        forall|x: usize| o1.contains(x) <==> o2.contains(x),
    ensures
        o1 == o2,
    decreases o1.len() + o2.len(),
{
    if o1.len() == 0 || o2.len() == 0 {
        if o1.len() > 0 {
            assert(o1.contains(o1[0]));
        }
        if o2.len() > 0 {
            assert(o2.contains(o2[0]));
        }
        assert(o1 =~= o2);
    } else {
        assert(o1.contains(o1[0]));
        let k2 = choose|k: int| 0 <= k < o2.len() && o2[k] == o1[0];
        assert(o2.contains(o2[0]));
        let k1 = choose|k: int| 0 <= k < o1.len() && o1[k] == o2[0];
        if k2 > 0 {
            assert(breakpoints::inserted_before(funcs, r, o2[0] as int, o2[k2] as int));
        }
        if k1 > 0 {
            assert(breakpoints::inserted_before(funcs, r, o1[0] as int, o1[k1] as int));
        }
        assert(o1[0] == o2[0]);
        let d1 = o1.drop_first();
        let d2 = o2.drop_first();
        assert forall|x: usize| d1.contains(x) <==> d2.contains(x) by {
            if d1.contains(x) {
                let m = choose|m: int| 0 <= m < d1.len() && d1[m] == x;
                assert(o1[m + 1] == x);
                assert(breakpoints::inserted_before(funcs, r, o1[0] as int, o1[m + 1] as int));
                assert(o1.contains(x));
                let m2 = choose|m2: int| 0 <= m2 < o2.len() && o2[m2] == x;
                assert(m2 != 0);
                assert(d2[m2 - 1] == x);
            }
            if d2.contains(x) {
                let m = choose|m: int| 0 <= m < d2.len() && d2[m] == x;
                assert(o2[m + 1] == x);
                assert(breakpoints::inserted_before(funcs, r, o2[0] as int, o2[m + 1] as int));
                assert(o2.contains(x));
                let m1 = choose|m1: int| 0 <= m1 < o1.len() && o1[m1] == x;
                assert(m1 != 0);
                assert(d1[m1 - 1] == x);
            }
        }
        assert forall|a: int, b: int| 0 <= a < b < d1.len() implies breakpoints::inserted_before(
            funcs,
            r,
            #[trigger] d1[a] as int,
            #[trigger] d1[b] as int,
        ) by {
            assert(d1[a] == o1[a + 1] && d1[b] == o1[b + 1]);
        }
        assert forall|a: int, b: int| 0 <= a < b < d2.len() implies breakpoints::inserted_before(
            funcs,
            r,
            #[trigger] d2[a] as int,
            #[trigger] d2[b] as int,
        ) by {
            assert(d2[a] == o2[a + 1] && d2[b] == o2[b + 1]);
        }
        lemma_ordered_same_elements(funcs, r, d1, d2);
        assert forall|k: int| 0 <= k < o1.len() implies o1[k] == o2[k] by {
            if k > 0 {
                assert(o1[k] == d1[k - 1] && o2[k] == d2[k - 1]);
            }
        }
        assert(o1 =~= o2);
    }
}

/// There is one insertion order of a function's breakpoints.
proof fn lemma_insertion_order_unique(
    funcs: Seq<FunctionLayout>,
    r: Seq<ResolvedBreakpoint>,
    f: int,
    o1: Seq<usize>,
    o2: Seq<usize>,
)
    requires
        breakpoints::is_insertion_order(funcs, r, f, r.len() as int, o1),
        breakpoints::is_insertion_order(funcs, r, f, r.len() as int, o2),
    ensures
        o1 == o2,
{
    assert forall|x: usize| o1.contains(x) <==> o2.contains(x) by {
        if o1.contains(x) {
            let m = choose|m: int| 0 <= m < o1.len() && o1[m] == x;
            assert(o1[m] < r.len() && r[o1[m] as int].func == f);
            assert(o2.contains(x as int as usize));
        }
        if o2.contains(x) {
            let m = choose|m: int| 0 <= m < o2.len() && o2[m] == x;
            assert(o2[m] < r.len() && r[o2[m] as int].func == f);
            assert(o1.contains(x as int as usize));
        }
    }
    lemma_ordered_same_elements(funcs, r, o1, o2);
}

/// The message for bytes that `walrus` does not read as a module.
fn parse_error_message(e: &anyhow::Error) -> (msg: String)
    ensures
        exists|detail: Seq<char>| msg@ == "Failed to parse WASM: "@ + detail,
{
    let mut msg = String::from_str("Failed to parse WASM: ");
    let detail = debug_text(e);
    msg.append(detail.as_str());
    assert(msg@ == "Failed to parse WASM: "@ + detail@);
    msg
}

/// Instrument a WebAssembly binary with a call `debug.bkpt(n)` before the
/// instruction of each breakpoint `n` (numbered from 1; 0 is the sentinel).
///
/// Breakpoints go at line boundaries, not at every instruction: one candidate
/// per (file, line) of `locations` (its lowest address), resolved to the
/// instruction at or before that address; instructions from the same line
/// share one breakpoint. Adds the import `(import "debug" "bkpt" (func (param i32)))`.
///
/// Returns the instrumented bytes, the location of each breakpoint (breakpoint
/// `n` at position `n - 1`), the line range that resolves to each breakpoint,
/// and the counts of what happened. Bytes that `walrus` does not read as a
/// module give the error "Failed to parse WASM: " followed by the parser's
/// error.
pub fn instrument_binary(wasm_bytes: &[u8], locations: &[LocationInfo]) -> (res: Result<
    (Vec<u8>, Vec<LocationInfo>, Vec<BreakpointRange>, InstrumentSummary),
    String,
>)
    ensures
        res is Ok <==> walrus_accepts(wasm_bytes@),
        res matches Err(msg) ==> exists|detail: Seq<char>| msg@ == "Failed to parse WASM: "@ + detail,
        res matches Ok((out, locs, ranges, summary)) ==> {
            &&& exists|funcs: Seq<FunctionLayout>, cands: Seq<LocationInfo>|
                {
                    &&& layout_matches(funcs, wasm_bytes@)
                    &&& breakpoints::are_line_candidates(locations@, locations@.len() as int, cands)
                    &&& locs@ == breakpoints::resolved_locations(#[trigger] breakpoints::resolve_all(funcs, cands).0)
                    &&& summary.unmatched == breakpoints::resolve_all(funcs, cands).1
                    &&& out@ == walrus_emit(wasm_bytes@, breakpoint_plans(funcs, breakpoints::resolve_all(funcs, cands).0))
                    &&& summary.inserted == placed_total(
                        wasm_bytes@,
                        breakpoint_plans(funcs, breakpoints::resolve_all(funcs, cands).0),
                        1,
                    )
                    &&& summary.skipped_out_of_bounds == placed_total(
                        wasm_bytes@,
                        breakpoint_plans(funcs, breakpoints::resolve_all(funcs, cands).0),
                        2,
                    )
                }
            &&& breakpoints::strictly_sorted_by_key(locs@)
            &&& ranges@ == breakpoints::ranges_for(locs@)
            &&& summary.candidates == locs@.len() + summary.unmatched
            &&& summary.inserted + summary.skipped_out_of_bounds <= locs@.len()
        },
{
    let candidates = select_line_candidates(locations);
    let parsed = match parse_module(wasm_bytes) {
        Ok(m) => m,
        Err(e) => {
            return Err(parse_error_message(&e));
        },
    };
    let layouts = read_layouts(&parsed);
    let (resolved, unmatched) = resolve_candidates(&layouts, &candidates);
    proof {
        breakpoints::lemma_candidates_sorted(locations@, locations@.len() as int, candidates@);
        breakpoints::law_one_breakpoint_per_line(layouts@, candidates@);
        assert(layouts@.len() == layouts.len());
        breakpoints::lemma_resolve_all_valid(layouts@, candidates@);
    }
    let (mut module, bkpt_func) = add_bkpt_import(parsed);
    let mut inserted_locations: Vec<LocationInfo> = Vec::new();
    let nr = resolved.len();
    let mut i: usize = 0;
    while i < nr
        invariant
            nr == resolved@.len(),
            i <= nr,
            inserted_locations@.len() == i,
            forall|k: int| 0 <= k < i ==> #[trigger] inserted_locations@[k] == resolved@[k].location,
        decreases nr - i,
    {
        inserted_locations.push(resolved[i].location);
        i = i + 1;
    }
    assert(inserted_locations@ =~= breakpoints::resolved_locations(resolved@));
    let ghost plans = breakpoint_plans(layouts@, resolved@);
    // Each breakpoint is planned once: `done` holds those planned so far.
    let mut inserted: usize = 0;
    let mut skipped: usize = 0;
    let ghost mut done: Set<int> = Set::empty();
    let nf = layouts.len();
    let mut f: usize = 0;
    assert(plans.take(0) =~= Seq::<(usize, Seq<(usize, usize, u32)>)>::empty());
    while f < nf
        invariant
            nf == layouts@.len(),
            f <= nf,
            plans == breakpoint_plans(layouts@, resolved@),
            module@ == (wasm_bytes@, plans.take(f as int)),
            module.bkpt() == bkpt_func,
            breakpoints::resolved_valid(layouts@, resolved@),
            forall|j: int| #[trigger] done.contains(j) <==> 0 <= j < resolved@.len() && resolved@[j].func < f,
            inserted + skipped <= done.len(),
            inserted == placed_total(wasm_bytes@, plans.take(f as int), 1),
            skipped == placed_total(wasm_bytes@, plans.take(f as int), 2),
        decreases nf - f,
    {
        let order = insertion_order(&layouts, &resolved, f);
        let no = order.len();
        let mut plan: Vec<(usize, usize, u32)> = Vec::new();
        let mut status: Vec<u8> = Vec::new();
        let mut k: usize = 0;
        while k < no
            invariant
                no == order@.len(),
                k <= no,
                f < nf,
                nf == layouts@.len(),
                breakpoints::resolved_valid(layouts@, resolved@),
                breakpoints::is_insertion_order(layouts@, resolved@, f as int, resolved@.len() as int, order@),
                plan@.len() == k,
                status@.len() == k,
                forall|m: int| 0 <= m < k ==> #[trigger] status@[m] == 0,
                forall|m: int| 0 <= m < k ==> #[trigger] plan@[m] == plan_entry(layouts@, resolved@, order@[m] as int),
                forall|j: int|
                    #[trigger] done.contains(j) <==> 0 <= j < resolved@.len() && (resolved@[j].func < f || exists|m: int|
                        0 <= m < k && order@[m] == j),
                inserted + skipped + k <= done.len(),
            decreases no - k,
        {
            let i = order[k];
            assert(order@[k as int] < resolved@.len());
            assert(i < resolved.len());
            let b = resolved[i];
            assert(resolved@[i as int] == b);
            assert(b.func == f);
            proof {
                assert(done.subset_of(set_int_range(0, resolved@.len() as int)));
                lemma_int_range(0, resolved@.len() as int);
                lemma_len_subset(done, set_int_range(0, resolved@.len() as int));
                assert(!done.contains(i as int)) by {
                    assert forall|m: int| 0 <= m < k implies order@[m] != i by {
                        assert(breakpoints::inserted_before(layouts@, resolved@, order@[m] as int, order@[k as int] as int));
                    }
                }
                let old_done = done;
                done = done.insert(i as int);
                assert forall|j: int|
                    #[trigger] done.contains(j) <==> 0 <= j < resolved@.len() && (resolved@[j].func < f || exists|m: int|
                        0 <= m < k + 1 && order@[m] == j) by {
                    if j == i {
                        assert(order@[k as int] == j);
                    } else if old_done.contains(j) {
                    } else if 0 <= j < resolved@.len() && exists|m: int| 0 <= m < k + 1 && order@[m] == j {
                        let m = choose|m: int| 0 <= m < k + 1 && order@[m] == j;
                        assert(m != k);
                    }
                }
            }
            let site = layouts[f].sites[b.site];
            let next = i + 1;
            let bkpt = #[verifier::truncate] (next as u32);
            plan.push((site.seq, site.idx, bkpt));
            status.push(0);
            k = k + 1;
        }
        proof {
            assert(resolved@.len() == resolved.len());
            assert forall|j: int|
                #[trigger] done.contains(j) <==> 0 <= j < resolved@.len() && resolved@[j].func < f + 1 by {
                if 0 <= j < resolved@.len() && resolved@[j].func == f {
                    assert(j <= usize::MAX);
                    assert(order@.contains(j as usize));
                    let m = choose|m: int| 0 <= m < order@.len() && order@[m] == j as usize;
                    assert(order@[m] == j);
                }
                if done.contains(j) && !(resolved@[j].func < f) {
                    let m = choose|m: int| 0 <= m < no && order@[m] == j;
                    assert(resolved@[order@[m] as int].func == f);
                }
            }
            assert(done.subset_of(set_int_range(0, resolved@.len() as int)));
            lemma_int_range(0, resolved@.len() as int);
            lemma_len_subset(done, set_int_range(0, resolved@.len() as int));
            assert(resolved@.len() == resolved.len());
            let o = choose|o: Seq<usize>|
                breakpoints::is_insertion_order(layouts@, resolved@, f as int, resolved@.len() as int, o);
            lemma_insertion_order_unique(layouts@, resolved@, f as int, order@, o);
            assert(plan@ =~= function_plan(layouts@, resolved@, f as int));
            assert(plans.take(f + 1) =~= plans.take(f as int).push((f, plan@)));
        }
        let ghost plan_view = plan@;
        let mut inserter = BreakpointInserter { plan, status, bkpt_func, visited: Vec::new() };
        let ghost before = module@.1;
        insert_planned(&mut module, f, &mut inserter);
        let ghost placed = walrus_placement(wasm_bytes@, before, f as int, plan_view);
        // What happened to each planned breakpoint of this function.
        let mut j: usize = 0;
        let ghost base_ins = inserted;
        let ghost base_sk = skipped;
        proof {
            lemma_counts_bounded(placed);
            assert(placed.take(0) =~= Seq::<u8>::empty());
        }
        while j < no
            invariant
                j <= no,
                placed.len() == no,
                inserter.statuses() == placed,
                base_ins + base_sk + no <= done.len(),
                done.len() <= usize::MAX,
                count_of(placed, 1) + count_of(placed, 2) <= no,
                inserted == base_ins + count_of(placed.take(j as int), 1),
                skipped == base_sk + count_of(placed.take(j as int), 2),
            decreases no - j,
        {
            proof {
                assert(placed.take(j + 1).drop_last() =~= placed.take(j as int));
                lemma_counts_bounded(placed.take(j + 1));
                lemma_count_prefix(placed, j as int + 1);
            }
            let st = inserter.status[j];
            if st == 1 {
                inserted = inserted + 1;
            } else if st == 2 {
                skipped = skipped + 1;
            }
            j = j + 1;
        }
        proof {
            assert(placed.take(no as int) =~= placed);
            let p1 = plans.take(f + 1);
            assert(p1.drop_last() =~= plans.take(f as int));
            assert(p1.last() == (f, plan_view));
        }
        f = f + 1;
    }
    proof {
        assert(done.subset_of(set_int_range(0, resolved@.len() as int)));
        lemma_int_range(0, resolved@.len() as int);
        lemma_len_subset(done, set_int_range(0, resolved@.len() as int));
        assert(plans.take(nf as int) =~= plans);
    }
    assert(inserted_locations@.len() + unmatched <= candidates@.len());
    assert(candidates@.len() == candidates.len());
    let ranges = breakpoint_ranges(&inserted_locations);
    let wasm = emit_wasm(module);
    let summary = InstrumentSummary {
        candidates: inserted_locations.len() + unmatched,
        inserted,
        unmatched,
        skipped_out_of_bounds: skipped,
    };
    Ok((wasm, inserted_locations, ranges, summary))
}

proof fn lemma_matching_layouts_same_views(funcs1: Seq<FunctionLayout>, funcs2: Seq<FunctionLayout>, wasm: Seq<u8>)
    requires
        layout_matches(funcs1, wasm),
        layout_matches(funcs2, wasm),
    ensures
        breakpoints::same_views(funcs1, funcs2),
{
    assert forall|k: int|
        #![trigger funcs1[k]]
        0 <= k < funcs1.len() implies funcs1[k].sites@ == funcs2[k].sites@ && funcs1[k].offsets@ == funcs2[k].offsets@ by {
        assert(funcs1[k].sites@ == sites_model(walrus_sites(wasm, k)));
        assert(funcs2[k].sites@ == sites_model(walrus_sites(wasm, k)));
    }
}

proof fn lemma_same_views_function_plan(
    funcs1: Seq<FunctionLayout>,
    funcs2: Seq<FunctionLayout>,
    r: Seq<ResolvedBreakpoint>,
    f: int,
)
    requires
        breakpoints::same_views(funcs1, funcs2),
        0 <= f < funcs1.len(),
        r.len() <= usize::MAX,
    ensures
        function_plan(funcs1, r, f) == function_plan(funcs2, r, f),
{
    let n = r.len() as int;
    assert(funcs1[f].sites@ == funcs2[f].sites@);
    breakpoints::lemma_insertion_order_exists(funcs1, r, f, n);
    let o1 = choose|o: Seq<usize>| breakpoints::is_insertion_order(funcs1, r, f, n, o);
    assert forall|a: int, b: int| 0 <= a < b < o1.len() implies breakpoints::inserted_before(
        funcs2,
        r,
        #[trigger] o1[a] as int,
        #[trigger] o1[b] as int,
    ) by {
        assert(breakpoints::inserted_before(funcs1, r, o1[a] as int, o1[b] as int));
        assert(r[o1[a] as int].func == f && r[o1[b] as int].func == f);
    }
    assert(breakpoints::is_insertion_order(funcs2, r, f, n, o1));
    let o2 = choose|o: Seq<usize>| breakpoints::is_insertion_order(funcs2, r, f, n, o);
    lemma_insertion_order_unique(funcs2, r, f, o1, o2);
    assert forall|k: int| 0 <= k < o1.len() implies plan_entry(funcs1, r, o1[k] as int) == plan_entry(funcs2, r, o1[k] as int) by {
        assert(r[o1[k] as int].func == f);
    }
    assert(function_plan(funcs1, r, f) =~= function_plan(funcs2, r, f));
}

/// What `instrument_binary` returns of a module (the breakpoint locations,
/// the unmatched count and the bytes) depends on its bytes and the
/// candidates alone: any two layouts that match the bytes give the same.
pub proof fn law_instrument_result_determined(
    wasm: Seq<u8>,
    funcs1: Seq<FunctionLayout>,
    funcs2: Seq<FunctionLayout>,
    cands: Seq<LocationInfo>,
)
    requires
        layout_matches(funcs1, wasm),
        layout_matches(funcs2, wasm),
        cands.len() <= usize::MAX,
    ensures
        breakpoints::resolve_all(funcs1, cands) == breakpoints::resolve_all(funcs2, cands),
        breakpoint_plans(funcs1, breakpoints::resolve_all(funcs1, cands).0) == breakpoint_plans(
            funcs2,
            breakpoints::resolve_all(funcs2, cands).0,
        ),
{
    lemma_matching_layouts_same_views(funcs1, funcs2, wasm);
    breakpoints::lemma_same_views_resolve_all(funcs1, funcs2, cands);
    let r = breakpoints::resolve_all(funcs1, cands).0;
    breakpoints::lemma_resolve_all_len(funcs1, cands);
    assert forall|f: int| 0 <= f < funcs1.len() implies #[trigger] breakpoint_plans(funcs1, r)[f] == breakpoint_plans(
        funcs2,
        r,
    )[f] by {
        lemma_same_views_function_plan(funcs1, funcs2, r, f);
    }
    assert(breakpoint_plans(funcs1, r) =~= breakpoint_plans(funcs2, r));
}

/// A location of line 0, or one whose line already has a location at an
/// address no higher, changes nothing that `instrument_binary` returns: the
/// same breakpoint locations, unmatched count and bytes.
pub proof fn law_instrument_ignores_redundant_location(
    wasm: Seq<u8>,
    locs: Seq<LocationInfo>,
    l: LocationInfo,
    funcs1: Seq<FunctionLayout>,
    cands1: Seq<LocationInfo>,
    funcs2: Seq<FunctionLayout>,
    cands2: Seq<LocationInfo>,
)
    requires
        breakpoints::is_redundant(locs, l),
        layout_matches(funcs1, wasm),
        layout_matches(funcs2, wasm),
        breakpoints::are_line_candidates(locs, locs.len() as int, cands1),
        breakpoints::are_line_candidates(locs.push(l), locs.len() + 1 as int, cands2),
        cands1.len() <= usize::MAX,
    ensures
        breakpoints::resolve_all(funcs1, cands1) == breakpoints::resolve_all(funcs2, cands2),
        walrus_emit(wasm, breakpoint_plans(funcs1, breakpoints::resolve_all(funcs1, cands1).0)) == walrus_emit(
            wasm,
            breakpoint_plans(funcs2, breakpoints::resolve_all(funcs2, cands2).0),
        ),
{
    breakpoints::law_redundant_location_ignored(locs, l, cands2);
    breakpoints::law_candidates_unique(locs, cands1, cands2);
    law_instrument_result_determined(wasm, funcs1, funcs2, cands1);
}

/// `instrument_binary` does not depend on the order of the locations (as
/// long as each line's lowest address is carried by one location only, or by
/// equal ones): the same breakpoint locations, unmatched count and bytes.
pub proof fn law_instrument_ignores_order(
    wasm: Seq<u8>,
    locs: Seq<LocationInfo>,
    perm: Seq<LocationInfo>,
    funcs1: Seq<FunctionLayout>,
    cands1: Seq<LocationInfo>,
    funcs2: Seq<FunctionLayout>,
    cands2: Seq<LocationInfo>,
)
    requires
        perm.to_multiset() == locs.to_multiset(),
        breakpoints::lowest_unique(locs),
        layout_matches(funcs1, wasm),
        layout_matches(funcs2, wasm),
        breakpoints::are_line_candidates(locs, locs.len() as int, cands1),
        breakpoints::are_line_candidates(perm, perm.len() as int, cands2),
        cands1.len() <= usize::MAX,
    ensures
        breakpoints::resolve_all(funcs1, cands1) == breakpoints::resolve_all(funcs2, cands2),
        walrus_emit(wasm, breakpoint_plans(funcs1, breakpoints::resolve_all(funcs1, cands1).0)) == walrus_emit(
            wasm,
            breakpoint_plans(funcs2, breakpoints::resolve_all(funcs2, cands2).0),
        ),
{
    breakpoints::law_candidates_ignore_order(locs, perm, cands2);
    breakpoints::law_candidates_unique(locs, cands1, cands2);
    law_instrument_result_determined(wasm, funcs1, funcs2, cands1);
}

/// Plan entries from `j` on still have the statuses they started with after
/// the first `j` entries were taken.
proof fn lemma_plan_effect_later_status(
    contents: Seq<(u8, i64)>,
    status: Seq<u8>,
    plan: Seq<(usize, usize, u32)>,
    sid: usize,
    j: int,
    k: int,
)
    requires
        0 <= j <= k < status.len(),
    ensures
        plan_effect(contents, status, plan, sid, j).1[k] == status[k],
    decreases j,
{
    if j > 0 {
        lemma_plan_effect_later_status(contents, status, plan, sid, j - 1, k);
        lemma_plan_effect_status_len(contents, status, plan, sid, j - 1);
    }
}

/// Taking plan entry `j` (sequence, position, breakpoint number `n`) while
/// the sequence with index `sid` is entered: if it is for this sequence and
/// still pending, and its position is within the sequence, `i32.const n`
/// (the breakpoint's own number) goes at that position followed by the call,
/// with nothing else changed, and the entry is marked inserted; a position
/// past the end changes nothing but marks the entry skipped; an entry of
/// another sequence, or one no longer pending, changes nothing.
pub proof fn law_inserted_call_passes_breakpoint_number(
    contents: Seq<(u8, i64)>,
    status: Seq<u8>,
    plan: Seq<(usize, usize, u32)>,
    sid: usize,
    j: int,
)
    requires
        0 <= j < plan.len(),
        j < status.len(),
    ensures
        ({
            let (c1, s1) = plan_effect(contents, status, plan, sid, j);
            let (c2, s2) = plan_effect(contents, status, plan, sid, j + 1);
            let (seq, pos, n) = plan[j];
            &&& s1[j] == status[j]
            &&& if seq == sid && status[j] == 0 && pos <= c1.len() {
                &&& c2.len() == c1.len() + 2
                &&& c2[pos as int] == (INSTR_I32_CONST, (n as i32) as i64)
                &&& c2[pos + 1] == (INSTR_CALL, 0i64)
                &&& c2.take(pos as int) == c1.take(pos as int)
                &&& c2.skip(pos + 2) == c1.skip(pos as int)
                &&& s2 == s1.update(j, 1)
            } else if seq == sid && status[j] == 0 {
                c2 == c1 && s2 == s1.update(j, 2)
            } else {
                c2 == c1 && s2 == s1
            }
        }),
{
    lemma_plan_effect_later_status(contents, status, plan, sid, j, j);
    lemma_plan_effect_status_len(contents, status, plan, sid, j);
    let (c1, s1) = plan_effect(contents, status, plan, sid, j);
    let (c2, s2) = plan_effect(contents, status, plan, sid, j + 1);
    let (seq, pos, n) = plan[j];
    if seq == sid && status[j] == 0 && pos <= c1.len() {
        assert(c2.take(pos as int) =~= c1.take(pos as int));
        assert(c2.skip(pos + 2) =~= c1.skip(pos as int));
    }
}

/// Plan entry `e` of function `f` carries the number `n` of a breakpoint of
/// `f` (never 0, and at most the number of breakpoints) and the place
/// (sequence, position) of that breakpoint's instruction.
pub open spec fn numbered_entry(
    funcs: Seq<FunctionLayout>,
    r: Seq<ResolvedBreakpoint>,
    f: int,
    e: (usize, usize, u32),
) -> bool {
    &&& 1 <= e.2 <= r.len()
    &&& r[e.2 - 1].func == f
    &&& e.0 == funcs[f].sites@[r[e.2 - 1].site as int].seq
    &&& e.1 == funcs[f].sites@[r[e.2 - 1].site as int].idx
}

/// Every entry of a function's plan carries the number `n` of a breakpoint
/// of that function (never 0, which is reserved) and that breakpoint's
/// instruction place; and every breakpoint `i` has the entry with its number
/// `i + 1` in its function's plan. So distinct breakpoints pass distinct
/// numbers to the calls.
pub proof fn law_plans_carry_breakpoint_numbers(funcs: Seq<FunctionLayout>, r: Seq<ResolvedBreakpoint>)
    requires
        breakpoints::resolved_valid(funcs, r),
        funcs.len() <= usize::MAX,
        r.len() < u32::MAX,
    ensures
        breakpoint_plans(funcs, r).len() == funcs.len(),
        forall|f: int| 0 <= f < funcs.len() ==> #[trigger] breakpoint_plans(funcs, r)[f].0 == f,
        forall|f: int, k: int|
            0 <= f < funcs.len() && 0 <= k < breakpoint_plans(funcs, r)[f].1.len() ==> numbered_entry(
                funcs,
                r,
                f,
                #[trigger] breakpoint_plans(funcs, r)[f].1[k],
            ),
        forall|i: int|
            0 <= i < r.len() ==> breakpoint_plans(funcs, r)[#[trigger] r[i].func as int].1.contains(
                (
                    funcs[r[i].func as int].sites@[r[i].site as int].seq,
                    funcs[r[i].func as int].sites@[r[i].site as int].idx,
                    (i + 1) as u32,
                ),
            ),
{
    let plans = breakpoint_plans(funcs, r);
    let n = r.len() as int;
    assert forall|f: int, k: int|
        0 <= f < funcs.len() && 0 <= k < breakpoint_plans(funcs, r)[f].1.len() implies numbered_entry(
            funcs,
            r,
            f,
            #[trigger] breakpoint_plans(funcs, r)[f].1[k],
        ) by {
        breakpoints::lemma_insertion_order_exists(funcs, r, f, n);
        let o = choose|o: Seq<usize>| breakpoints::is_insertion_order(funcs, r, f, n, o);
        assert(plans[f].1 == function_plan(funcs, r, f));
        assert(o[k] < n && r[o[k] as int].func == f);
        assert(plans[f].1[k] == plan_entry(funcs, r, o[k] as int));
    }
    assert forall|i: int|
        0 <= i < r.len() implies plans[#[trigger] r[i].func as int].1.contains(
            (
                funcs[r[i].func as int].sites@[r[i].site as int].seq,
                funcs[r[i].func as int].sites@[r[i].site as int].idx,
                (i + 1) as u32,
            ),
        ) by {
        let f = r[i].func as int;
        assert(r[i].func < funcs.len());
        breakpoints::lemma_insertion_order_exists(funcs, r, f, n);
        let o = choose|o: Seq<usize>| breakpoints::is_insertion_order(funcs, r, f, n, o);
        assert(o.contains(i as usize));
        let k = choose|k: int| 0 <= k < o.len() && o[k] == i as usize;
        assert(plans[f].1 == function_plan(funcs, r, f));
        assert(plans[f].1[k] == plan_entry(funcs, r, i));
    }
}

} // verus!
