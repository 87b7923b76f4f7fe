//! A WebAssembly module as `walrus` reads and rewrites it. A module carries,
//! as its view, the bytes it was read from (and, once breakpoint calls go in,
//! the plans applied so far): what `walrus` reports of it is named as a
//! function of those.
use vstd::prelude::*;

use crate::instrument::{BreakpointInserter, SiteCollector};
use walrus::ir::{dfs_in_order, dfs_pre_order_mut, Call, Const, Instr, InstrLocId, InstrSeq, Value};
use walrus::{FunctionId, Module, ModuleConfig, ValType};

verus! {

/// Whether `walrus` reads (and validates) these bytes as a WebAssembly module.
pub uninterp spec fn walrus_accepts(wasm: Seq<u8>) -> bool;

/// How many functions the module that `walrus` reads from `wasm` defines.
pub uninterp spec fn walrus_local_count(wasm: Seq<u8>) -> nat;

/// The instructions of the `k`-th function that the module read from `wasm`
/// defines (in `iter_local` order), walked by `walrus::ir::dfs_in_order`
/// from its entry block: for each instruction, its location id (`None` for
/// the default id), the index of its sequence and its position there. `None`
/// when the module defines fewer functions.
pub uninterp spec fn walrus_sites(wasm: Seq<u8>, k: int) -> Option<Seq<(Option<u32>, usize, usize)>>;

/// The `instruction_mapping` of the `k`-th function that the module read from
/// `wasm` defines: (code offset, location id) of each instruction as read,
/// the id `None` where it is the default one. `None` when the module defines
/// fewer functions.
pub uninterp spec fn walrus_offsets(wasm: Seq<u8>, k: int) -> Option<Seq<(usize, Option<u32>)>>;

/// The bytes `walrus` emits for the module read from `wasm`, with the import
/// `debug.bkpt` of type `(param i32)` added, after each `(k, plan)` of `plans`
/// in turn was applied to the body of its `k`-th defined function by a walk
/// `walrus::ir::dfs_pre_order_mut` with a `BreakpointInserter` of that plan
/// (whose effect on each sequence it enters its own contract states).
pub uninterp spec fn walrus_emit(wasm: Seq<u8>, plans: Seq<(usize, Seq<(usize, usize, u32)>)>) -> Seq<u8>;

/// In the model of an instruction sequence: an instruction other than the two below.
pub const INSTR_OTHER: u8 = 0;

/// In the model of an instruction sequence: `i32.const`, with its value.
pub const INSTR_I32_CONST: u8 = 1;

/// In the model of an instruction sequence: `call` (of any function).
pub const INSTR_CALL: u8 = 2;

/// What an instruction sequence (its field `instrs`) holds, instruction by
/// instruction: the kind (`INSTR_I32_CONST`, `INSTR_CALL` or `INSTR_OTHER`)
/// and, for `i32.const`, its value (0 for the others).
pub uninterp spec fn seq_contents(seq: InstrSeq) -> Seq<(u8, i64)>;

/// `Vec::len` of a sequence's `instrs`.
#[verifier::external_body]
pub fn seq_len(seq: &InstrSeq) -> (n: usize)
    ensures
        n == seq_contents(*seq).len(),
{
    seq.instrs.len()
}

/// `Vec::insert` into a sequence's `instrs`, at `idx`, of `i32.const value`
/// with the default location id.
#[verifier::external_body]
pub fn insert_i32_const(seq: &mut InstrSeq, idx: usize, value: i32)
    requires
        idx <= seq_contents(*old(seq)).len(),
    ensures
        seq_contents(*final(seq)) == seq_contents(*old(seq)).insert(idx as int, (INSTR_I32_CONST, value as i64)),
{
    seq.instrs.insert(idx, (Instr::Const(Const { value: Value::I32(value) }), InstrLocId::default()))
}

/// `Vec::insert` into a sequence's `instrs`, at `idx`, of `call func` with
/// the default location id.
#[verifier::external_body]
pub fn insert_call(seq: &mut InstrSeq, idx: usize, func: FunctionId)
    requires
        idx <= seq_contents(*old(seq)).len(),
    ensures
        seq_contents(*final(seq)) == seq_contents(*old(seq)).insert(idx as int, (INSTR_CALL, 0i64)),
{
    seq.instrs.insert(idx, (Instr::Call(Call { func }), InstrLocId::default()))
}

/// The view of an optional vector.
pub open spec fn opt_vec_view<T>(r: Option<Vec<T>>) -> Option<Seq<T>> {
    match r {
        Some(v) => Some(v@),
        None => None,
    }
}

/// What became of each entry of `plan` when it is applied, as in
/// `walrus_emit`, to the `k`-th defined function of the module read from
/// `wasm` after the plans `before`: 1 where its calls were inserted, 2 where
/// its position lay past the end of its sequence, 0 where the walk did not
/// enter its sequence.
pub uninterp spec fn walrus_placement(
    wasm: Seq<u8>,
    before: Seq<(usize, Seq<(usize, usize, u32)>)>,
    k: int,
    plan: Seq<(usize, usize, u32)>,
) -> Seq<u8>;

/// A module read by `walrus`; its view is the bytes it was read from.
pub struct ParsedModule {
    module: Module,
    source: Ghost<Seq<u8>>,
}

impl View for ParsedModule {
    type V = Seq<u8>;

    closed spec fn view(&self) -> Seq<u8> {
        self.source@
    }
}

/// A module being instrumented: its view is the bytes it was read from and
/// the breakpoint plans applied to its functions so far, in order.
pub struct PatchedModule {
    module: Module,
    source: Ghost<Seq<u8>>,
    plans: Ghost<Seq<(usize, Seq<(usize, usize, u32)>)>>,
    bkpt_func: FunctionId,
}

impl PatchedModule {
    /// The imported function `debug.bkpt`.
    pub closed spec fn bkpt(&self) -> FunctionId {
        self.bkpt_func
    }
}

impl View for PatchedModule {
    type V = (Seq<u8>, Seq<(usize, Seq<(usize, usize, u32)>)>);

    closed spec fn view(&self) -> (Seq<u8>, Seq<(usize, Seq<(usize, usize, u32)>)>) {
        (self.source@, self.plans@)
    }
}

/// `walrus::ModuleConfig::parse` with the default configuration: it succeeds
/// exactly on the bytes `walrus` accepts, and the module read is theirs.
#[verifier::external_body]
pub fn parse_module(wasm: &[u8]) -> (res: Result<ParsedModule, anyhow::Error>)
    ensures
        res is Ok <==> walrus_accepts(wasm@),
        res matches Ok(m) ==> m@ == wasm@,
{
    match ModuleConfig::new().parse(wasm) {
        Ok(module) => Ok(ParsedModule { module, source: Ghost(wasm@) }),
        Err(e) => Err(e),
    }
}

/// `walrus::ModuleFunctions::iter_local`: how many functions the module defines.
#[verifier::external_body]
pub fn local_function_count(m: &ParsedModule) -> (n: usize)
    ensures
        n == walrus_local_count(m@),
{
    m.module.funcs.iter_local().count()
}

/// `walrus::ir::dfs_in_order` over the body of the `k`-th function that the
/// module defines, from its entry block, with `SiteCollector` as the visitor.
#[verifier::external_body]
pub fn instruction_sites(m: &ParsedModule, k: usize) -> (r: Option<Vec<(Option<u32>, usize, usize)>>)
    ensures
        opt_vec_view(r) == walrus_sites(m@, k as int),
{
    match m.module.funcs.iter_local().nth(k) {
        Some((_, local)) => {
            let mut collector = SiteCollector::new();
            dfs_in_order(&mut collector, local, local.entry_block());
            Some(collector.into_visits())
        },
        None => None,
    }
}

/// The field `instruction_mapping` of the `k`-th function that the module
/// defines, each location id as `InstrLocId::data` gives it (`None` for the
/// default id, on which `data` panics).
#[verifier::external_body]
pub fn instruction_offsets(m: &ParsedModule, k: usize) -> (r: Option<Vec<(usize, Option<u32>)>>)
    ensures
        opt_vec_view(r) == walrus_offsets(m@, k as int),
{
    match m.module.funcs.iter_local().nth(k) {
        Some((_, local)) => Some(local.instruction_mapping.iter().map(|(off, loc)| (*off, loc_data(loc))).collect()),
        None => None,
    }
}

/// `InstrLocId::data`, or `None` for the default id (`InstrLocId::is_default`),
/// on which `data` panics.
#[verifier::external_body]
pub fn loc_data(loc: &InstrLocId) -> Option<u32> {
    if loc.is_default() {
        None
    } else {
        Some(loc.data())
    }
}

/// `walrus::Module::add_import_func` of `debug.bkpt`, with its type `(param i32)`
/// added by `walrus::ModuleTypes::add`: the module from then on, with no plan
/// applied yet, and the id of the imported function.
#[verifier::external_body]
pub fn add_bkpt_import(m: ParsedModule) -> (r: (PatchedModule, FunctionId))
    ensures
        r.0@ == (m@, Seq::<(usize, Seq<(usize, usize, u32)>)>::empty()),
        r.0.bkpt() == r.1,
{
    let ParsedModule { mut module, source } = m;
    let ty = module.types.add(&[ValType::I32], &[]);
    let (func, _) = module.add_import_func("debug", "bkpt", ty);
    (PatchedModule { module, source, plans: Ghost(Seq::empty()), bkpt_func: func }, func)
}

/// `walrus::ir::dfs_pre_order_mut` over the body of the `k`-th function that
/// the module defines, from its entry block, with `inserter` as the visitor:
/// the inserter's plan is applied to that function.
#[verifier::external_body]
pub fn insert_planned(m: &mut PatchedModule, k: usize, inserter: &mut BreakpointInserter)
    requires
        old(inserter).all_pending(),
        old(inserter).target() == old(m).bkpt(),
    ensures
        final(m)@ == (old(m)@.0, old(m)@.1.push((k, old(inserter).planned()))),
        final(m).bkpt() == old(m).bkpt(),
        final(inserter).statuses() == walrus_placement(old(m)@.0, old(m)@.1, k as int, old(inserter).planned()),
        final(inserter).statuses().len() == old(inserter).statuses().len(),
{
    m.plans = Ghost(m.plans@.push((k, inserter.planned())));
    if let Some((_, local)) = m.module.funcs.iter_local_mut().nth(k) {
        let entry = local.entry_block();
        dfs_pre_order_mut(inserter, local, entry);
    }
}

/// `walrus::Module::emit_wasm`: the module's binary encoding.
#[verifier::external_body]
pub fn emit_wasm(m: PatchedModule) -> (out: Vec<u8>)
    ensures
        out@ == walrus_emit(m@.0, m@.1),
{
    let mut module = m.module;
    module.emit_wasm()
}

} // verus!
