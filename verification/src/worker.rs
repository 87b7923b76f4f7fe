//! The worker's build pipeline: finding the sources in the user's files, the
//! compiler and linker command lines, and the order of the steps from
//! compiling to running.
use vstd::prelude::*;
use vstd::string::*;

use crate::dwarf::names_view;
use crate::paths::{is_source_file, is_source_path, push_path, push_path_str};

verus! {

/// A node of the user's file tree: a file's contents, or a directory's
/// entries by name.
pub enum FsNode {
    File(String),
    Dir(Vec<(String, FsNode)>),
}

/// The paths of the C and C++ sources under `node`, which sits at `base`, in
/// entry order.
pub open spec fn sources_in(node: FsNode, base: Seq<char>) -> Seq<Seq<char>>
    decreases node, 0nat,
{
    match node {
        FsNode::File(_) => if is_source_path(base) {
            seq![base]
        } else {
            Seq::empty()
        },
        FsNode::Dir(children) => sources_in_dir(children@, base),
    }
}

/// The paths of the C and C++ sources under the entries `children` of the
/// directory at `base`, in entry order.
pub open spec fn sources_in_dir(children: Seq<(String, FsNode)>, base: Seq<char>) -> Seq<Seq<char>>
    decreases children, 1nat,
{
    if children.len() == 0 {
        Seq::empty()
    } else {
        let last = children.last();
        sources_in_dir(children.drop_last(), base) + sources_in(last.1, push_path(base, last.0@))
    }
}

/// Every directory at or under `node` names its entries distinctly, as a
/// file system does.
pub open spec fn tree_names_distinct(node: FsNode) -> bool
    decreases node, 0nat,
{
    match node {
        FsNode::File(_) => true,
        FsNode::Dir(children) => dir_names_distinct(children@),
    }
}

/// The entries `children` of a directory have distinct names, and so do the
/// directories under them.
pub open spec fn dir_names_distinct(children: Seq<(String, FsNode)>) -> bool
    decreases children, 1nat,
{
    if children.len() == 0 {
        true
    } else {
        let last = children.last();
        &&& dir_names_distinct(children.drop_last())
        &&& forall|i: int| 0 <= i < children.len() - 1 ==> #[trigger] children[i].0@ != last.0@
        &&& tree_names_distinct(last.1)
    }
}

/// Collect the C and C++ source files under `node`, which sits at `base_path`.
pub fn collect_sources(node: &FsNode, base_path: &str, sources: &mut Vec<String>)
    ensures
        names_view(final(sources)@) == names_view(old(sources)@) + sources_in(*node, base_path@),
    decreases node, 0nat,
{
    match node {
        FsNode::File(_) => {
            if is_source_file(base_path) {
                let ghost before = sources@;
                sources.push(String::from_str(base_path));
                assert(names_view(sources@) =~= names_view(before) + seq![base_path@]);
            } else {
                assert(names_view(sources@) =~= names_view(sources@) + Seq::<Seq<char>>::empty());
            }
        },
        FsNode::Dir(children) => {
            collect_dir_sources(children, base_path, sources);
        },
    }
}

/// Collect the C and C++ source files under the entries of the directory at `base_path`.
pub fn collect_dir_sources(children: &Vec<(String, FsNode)>, base_path: &str, sources: &mut Vec<String>)
    ensures
        names_view(final(sources)@) == names_view(old(sources)@) + sources_in_dir(children@, base_path@),
    decreases children@, 1nat,
{
    let n = children.len();
    let mut i: usize = 0;
    let ghost start = sources@;
    assert(children@.take(0) =~= Seq::<(String, FsNode)>::empty());
    assert(names_view(start) + Seq::<Seq<char>>::empty() =~= names_view(start));
    while i < n
        invariant
            n == children@.len(),
            i <= n,
            names_view(sources@) == names_view(start) + sources_in_dir(children@.take(i as int), base_path@),
        decreases n - i,
    {
        let (name, child) = &children[i];
        let child_path = push_path_str(base_path, name.as_str());
        proof {
            assert(children@.take(i + 1).drop_last() =~= children@.take(i as int));
            assert(children@.take(i + 1).last() == children@[i as int]);
        }
        let ghost mid = sources@;
        collect_sources(child, child_path.as_str(), sources);
        assert(names_view(sources@) =~= names_view(start) + sources_in_dir(children@.take(i + 1), base_path@));
        i = i + 1;
    }
    assert(children@.take(n as int) =~= children@);
}

/// `names` followed by `s`, as views.
fn push_text(names: &mut Vec<String>, s: &str)
    ensures
        names_view(final(names)@) == names_view(old(names)@).push(s@),
{
    let ghost before = names@;
    names.push(String::from_str(s));
    assert(names_view(names@) =~= names_view(before).push(s@));
}

/// The compiler's fixed arguments: a C++23 object for `wasm32-wasip1` at
/// `/main.o`, against the sysroot's headers.
pub open spec fn clang_base_args() -> Seq<Seq<char>> {
    seq![
        "-cc1"@,
        "-triple"@,
        "wasm32-wasip1"@,
        "-Werror"@,
        "-emit-obj"@,
        "-disable-free"@,
        "-isysroot"@,
        "/"@,
        "-internal-isystem"@,
        "/include/c++/v1"@,
        "-internal-isystem"@,
        "/include"@,
        "-internal-isystem"@,
        "/include/wasm32-wasip1"@,
        "-ferror-limit"@,
        "4"@,
        "-fcolor-diagnostics"@,
        "-x"@,
        "c++"@,
        "-std=c++23"@,
        "-o"@,
        "/main.o"@,
    ]
}

/// The compiler's arguments for a debug build: no optimisation, standalone DWARF 5.
pub open spec fn clang_debug_args() -> Seq<Seq<char>> {
    seq!["-O0"@, "-debug-info-kind=standalone"@, "-dwarf-version=5"@]
}

/// The compiler's command line: the fixed arguments, the debug ones in a debug
/// build, then the sources.
pub open spec fn clang_args_spec(is_debug: bool, sources: Seq<Seq<char>>) -> Seq<Seq<char>> {
    clang_base_args() + (if is_debug {
        clang_debug_args()
    } else {
        Seq::empty()
    }) + sources
}

/// The compiler's command line for `sources`.
pub fn clang_args(is_debug: bool, sources: &Vec<String>) -> (args: Vec<String>)
    ensures
        names_view(args@) == clang_args_spec(is_debug, names_view(sources@)),
        args@.len() == 22 + (if is_debug { 3int } else { 0int }) + sources@.len(),
        args@[17]@ == "-x"@,
        args@[18]@ == "c++"@,
        args@[19]@ == "-std=c++23"@,
        forall|i: int| 0 <= i < sources@.len() ==> #[trigger] args@[args@.len() - sources@.len() + i]@ == sources@[i]@,
{
    let mut args: Vec<String> = Vec::new();
    push_text(&mut args, "-cc1");
    push_text(&mut args, "-triple");
    push_text(&mut args, "wasm32-wasip1");
    push_text(&mut args, "-Werror");
    push_text(&mut args, "-emit-obj");
    push_text(&mut args, "-disable-free");
    push_text(&mut args, "-isysroot");
    push_text(&mut args, "/");
    push_text(&mut args, "-internal-isystem");
    push_text(&mut args, "/include/c++/v1");
    push_text(&mut args, "-internal-isystem");
    push_text(&mut args, "/include");
    push_text(&mut args, "-internal-isystem");
    push_text(&mut args, "/include/wasm32-wasip1");
    push_text(&mut args, "-ferror-limit");
    push_text(&mut args, "4");
    push_text(&mut args, "-fcolor-diagnostics");
    push_text(&mut args, "-x");
    push_text(&mut args, "c++");
    push_text(&mut args, "-std=c++23");
    push_text(&mut args, "-o");
    push_text(&mut args, "/main.o");
    assert(names_view(args@) =~= clang_base_args());
    if is_debug {
        push_text(&mut args, "-O0");
        push_text(&mut args, "-debug-info-kind=standalone");
        push_text(&mut args, "-dwarf-version=5");
    }
    let ghost fixed = names_view(args@);
    assert(fixed =~= clang_base_args() + (if is_debug {
        clang_debug_args()
    } else {
        Seq::empty()
    }));
    let n = sources.len();
    let mut i: usize = 0;
    while i < n
        invariant
            n == sources@.len(),
            i <= n,
            names_view(args@) == fixed + names_view(sources@).take(i as int),
        decreases n - i,
    {
        let ghost before = args@;
        let item = sources[i].clone();
        args.push(item);
        proof {
            assert(names_view(args@) =~= names_view(before).push(item@));
            assert(names_view(sources@).take(i + 1) =~= names_view(sources@).take(i as int).push(sources@[i as int]@));
            assert(names_view(args@) =~= fixed + names_view(sources@).take(i + 1));
        }
        i = i + 1;
    }
    assert(names_view(sources@).take(n as int) =~= names_view(sources@));
    proof {
        law_compiled_as_cpp23(is_debug, names_view(sources@));
        assert(names_view(args@)[17] == args@[17]@);
        assert(names_view(args@)[18] == args@[18]@);
        assert(names_view(args@)[19] == args@[19]@);
        assert forall|i: int| 0 <= i < sources@.len() implies #[trigger] args@[args@.len() - sources@.len() + i]@
            == sources@[i]@ by {
            assert(names_view(args@)[args@.len() - sources@.len() + i] == args@[args@.len() - sources@.len() + i]@);
            assert(names_view(sources@)[i] == sources@[i]@);
        }
    }
    args
}

/// Every compiler command line compiles its sources as C++23 (`-x c++
/// -std=c++23`) into `/main.o`, and ends with the sources, in the order given.
pub proof fn law_compiled_as_cpp23(is_debug: bool, sources: Seq<Seq<char>>)
    ensures
        ({
            let args = clang_args_spec(is_debug, sources);
            &&& args.len() == 22 + (if is_debug { 3int } else { 0int }) + sources.len()
            &&& args[0] == "-cc1"@
            &&& args[17] == "-x"@
            &&& args[18] == "c++"@
            &&& args[19] == "-std=c++23"@
            &&& args[20] == "-o"@
            &&& args[21] == "/main.o"@
            &&& args.skip(args.len() - sources.len()) == sources
        }),
{
    let args = clang_args_spec(is_debug, sources);
    assert(args.skip(args.len() - sources.len()) =~= sources);
}

/// The linker's command line: `/main.o` with the C and C++ runtimes into
/// `/main.wasm`, exporting all symbols, with a 1 MiB stack.
pub open spec fn linker_args_spec() -> Seq<Seq<char>> {
    seq![
        "--export-dynamic"@,
        "-z"@,
        "stack-size=1048576"@,
        "-L/lib/wasm32-wasip1"@,
        "/lib/wasm32-wasip1/crt1.o"@,
        "/main.o"@,
        "-lc++"@,
        "-lc++abi"@,
        "/lib/wasm32-unknown-wasip1/libclang_rt.builtins.a"@,
        "-lc"@,
        "-o"@,
        "/main.wasm"@,
    ]
}

/// The linker's command line.
pub fn linker_args() -> (args: Vec<String>)
    ensures
        names_view(args@) == linker_args_spec(),
{
    let mut args: Vec<String> = Vec::new();
    push_text(&mut args, "--export-dynamic");
    push_text(&mut args, "-z");
    push_text(&mut args, "stack-size=1048576");
    push_text(&mut args, "-L/lib/wasm32-wasip1");
    push_text(&mut args, "/lib/wasm32-wasip1/crt1.o");
    push_text(&mut args, "/main.o");
    push_text(&mut args, "-lc++");
    push_text(&mut args, "-lc++abi");
    push_text(&mut args, "/lib/wasm32-unknown-wasip1/libclang_rt.builtins.a");
    push_text(&mut args, "-lc");
    push_text(&mut args, "-o");
    push_text(&mut args, "/main.wasm");
    assert(names_view(args@) =~= linker_args_spec());
    args
}

/// `a` comes before `b` or equals it, comparing characters by code point
/// (which is how the UTF-8 bytes of strings compare).
pub open spec fn text_le(a: Seq<char>, b: Seq<char>) -> bool
    decreases a.len(),
{
    if a.len() == 0 {
        true
    } else if b.len() == 0 {
        false
    } else if a[0] != b[0] {
        (a[0] as u32) < (b[0] as u32)
    } else {
        text_le(a.drop_first(), b.drop_first())
    }
}

/// `slice::sort` on strings: the same strings, in ascending order.
#[verifier::external_body]
fn sort_strings(v: &mut Vec<String>)
    ensures
        names_view(final(v)@).to_multiset() == names_view(old(v)@).to_multiset(),
        forall|i: int, j: int|
            0 <= i < j < final(v)@.len() ==> text_le(#[trigger] final(v)@[i]@, #[trigger] final(v)@[j]@),
{
    v.sort()
}

/// Whether the tree under the root directory `fs` holds a C or C++ source.
pub fn has_sources(fs: &Vec<(String, FsNode)>) -> (r: bool)
    ensures
        r == (sources_in_dir(fs@, "/"@).len() > 0),
{
    let mut sources: Vec<String> = Vec::new();
    assert(names_view(sources@) =~= Seq::<Seq<char>>::empty());
    collect_dir_sources(fs, "/", &mut sources);
    assert(names_view(sources@) =~= sources_in_dir(fs@, "/"@));
    sources.len() > 0
}

/// The compiler's command line for the sources under the root directory
/// `fs`: all C and C++ sources, sorted. The tree must hold one (the worker
/// stops with "No C/C++ source files found in provided filesystem" before
/// any step otherwise).
pub fn compile_command(is_debug: bool, fs: &Vec<(String, FsNode)>) -> (args: Vec<String>)
    requires
        dir_names_distinct(fs@),
        sources_in_dir(fs@, "/"@).len() > 0,
    ensures
        exists|sorted: Seq<Seq<char>>|
            {
                &&& #[trigger] names_view(args@) == clang_args_spec(is_debug, sorted)
                &&& sorted.to_multiset() == sources_in_dir(fs@, "/"@).to_multiset()
                &&& forall|i: int, j: int| 0 <= i < j < sorted.len() ==> text_le(#[trigger] sorted[i], #[trigger] sorted[j])
            },
{
    let mut sources: Vec<String> = Vec::new();
    assert(names_view(sources@) =~= Seq::<Seq<char>>::empty());
    collect_dir_sources(fs, "/", &mut sources);
    assert(names_view(sources@) =~= sources_in_dir(fs@, "/"@));
    sort_strings(&mut sources);
    proof {
        names_view(sources@).to_multiset_ensures();
        sources_in_dir(fs@, "/"@).to_multiset_ensures();
    }
    let args = clang_args(is_debug, &sources);
    proof {
        let sorted = names_view(sources@);
        assert forall|i: int, j: int| 0 <= i < j < sorted.len() implies text_le(#[trigger] sorted[i], #[trigger] sorted[j]) by {
            assert(text_le(sources@[i]@, sources@[j]@));
        }
    }
    args
}

/// Where the worker's lifecycle stands.
#[derive(Clone, Copy, Debug, PartialEq, Eq, Structural)]
pub enum Stage {
    Compiling,
    Linking,
    Instrumenting,
    AwaitingRun,
    Running,
    Finished,
}

/// What the worker learns while its lifecycle runs.
#[derive(Clone, Copy, Debug, PartialEq, Eq, Structural)]
pub enum LifecycleEvent {
    /// The current step (compiler, linker or program) exited.
    StepExited { success: bool, exit_code: i32 },
    /// The program was instrumented for debugging.
    Instrumented,
    /// The main thread asked to run the program.
    RunRequested,
}

/// What the worker does next.
#[derive(Clone, Copy, Debug, PartialEq, Eq, Structural)]
pub enum LifecycleAction {
    /// Run the linker.
    Link,
    /// Instrument `/main.wasm` for debugging.
    Instrument,
    /// Wait for the main thread's go-ahead.
    WaitForRun,
    /// Run the program, with the debugger attached in a debug build.
    Run { debug: bool },
    /// Report that the worker stopped, with this exit code.
    Stop { exit_code: i32 },
    /// Nothing: the event does not apply here.
    Ignore,
}

/// The worker's lifecycle: compile and link during the prepare phase, (in a
/// debug build) instrument, wait for `run`, then execute.
#[derive(Clone, Copy, Debug, PartialEq, Eq, Structural)]
pub struct Lifecycle {
    pub stage: Stage,
    pub is_debug: bool,
}

/// The next lifecycle and action after `ev`: a failed compile or link stops
/// with its exit code; the program's exit stops with its exit code.
pub open spec fn lifecycle_step(lc: Lifecycle, ev: LifecycleEvent) -> (Lifecycle, LifecycleAction) {
    match (lc.stage, ev) {
        (Stage::Compiling, LifecycleEvent::StepExited { success, exit_code }) => if success {
            (Lifecycle { stage: Stage::Linking, ..lc }, LifecycleAction::Link)
        } else {
            (Lifecycle { stage: Stage::Finished, ..lc }, LifecycleAction::Stop { exit_code })
        },
        (Stage::Linking, LifecycleEvent::StepExited { success, exit_code }) => if !success {
            (Lifecycle { stage: Stage::Finished, ..lc }, LifecycleAction::Stop { exit_code })
        } else if lc.is_debug {
            (Lifecycle { stage: Stage::Instrumenting, ..lc }, LifecycleAction::Instrument)
        } else {
            (Lifecycle { stage: Stage::AwaitingRun, ..lc }, LifecycleAction::WaitForRun)
        },
        (Stage::Instrumenting, LifecycleEvent::Instrumented) => (
            Lifecycle { stage: Stage::AwaitingRun, ..lc },
            LifecycleAction::WaitForRun,
        ),
        (Stage::AwaitingRun, LifecycleEvent::RunRequested) => (
            Lifecycle { stage: Stage::Running, ..lc },
            LifecycleAction::Run { debug: lc.is_debug },
        ),
        (Stage::Running, LifecycleEvent::StepExited { success: _, exit_code }) => (
            Lifecycle { stage: Stage::Finished, ..lc },
            LifecycleAction::Stop { exit_code },
        ),
        _ => (lc, LifecycleAction::Ignore),
    }
}

impl Lifecycle {
    /// A lifecycle that starts by compiling.
    pub fn new(is_debug: bool) -> (lc: Lifecycle)
        ensures
            lc == (Lifecycle { stage: Stage::Compiling, is_debug }),
    {
        Lifecycle { stage: Stage::Compiling, is_debug }
    }

    /// Take in `ev`: the next lifecycle, and what to do.
    pub fn step(self, ev: LifecycleEvent) -> (res: (Lifecycle, LifecycleAction))
        ensures
            res == lifecycle_step(self, ev),
    {
        match (self.stage, ev) {
            (Stage::Compiling, LifecycleEvent::StepExited { success, exit_code }) => if success {
                (Lifecycle { stage: Stage::Linking, is_debug: self.is_debug }, LifecycleAction::Link)
            } else {
                (Lifecycle { stage: Stage::Finished, is_debug: self.is_debug }, LifecycleAction::Stop { exit_code })
            },
            (Stage::Linking, LifecycleEvent::StepExited { success, exit_code }) => if !success {
                (Lifecycle { stage: Stage::Finished, is_debug: self.is_debug }, LifecycleAction::Stop { exit_code })
            } else if self.is_debug {
                (Lifecycle { stage: Stage::Instrumenting, is_debug: self.is_debug }, LifecycleAction::Instrument)
            } else {
                (Lifecycle { stage: Stage::AwaitingRun, is_debug: self.is_debug }, LifecycleAction::WaitForRun)
            },
            (Stage::Instrumenting, LifecycleEvent::Instrumented) => (
                Lifecycle { stage: Stage::AwaitingRun, is_debug: self.is_debug },
                LifecycleAction::WaitForRun,
            ),
            (Stage::AwaitingRun, LifecycleEvent::RunRequested) => (
                Lifecycle { stage: Stage::Running, is_debug: self.is_debug },
                LifecycleAction::Run { debug: self.is_debug },
            ),
            (Stage::Running, LifecycleEvent::StepExited { success: _, exit_code }) => (
                Lifecycle { stage: Stage::Finished, is_debug: self.is_debug },
                LifecycleAction::Stop { exit_code },
            ),
            _ => (self, LifecycleAction::Ignore),
        }
    }
}

/// A stop reports the exit code of the step whose exit caused it: only a
/// step's exit stops the worker, and a failed compile or link, or the
/// program's exit, stops it with that step's exit code.
pub proof fn law_stop_reports_exit_code(lc: Lifecycle, ev: LifecycleEvent)
    ensures
        lifecycle_step(lc, ev).1 matches LifecycleAction::Stop { exit_code } ==> ev matches LifecycleEvent::StepExited {
            exit_code: code,
            ..
        } && code == exit_code && lifecycle_step(lc, ev).0 == (Lifecycle { stage: Stage::Finished, is_debug: lc.is_debug }),
        ev matches LifecycleEvent::StepExited { success, exit_code } ==> ((lc.stage is Compiling || lc.stage is Linking)
            && !success) || lc.stage is Running ==> lifecycle_step(lc, ev) == (
            Lifecycle { stage: Stage::Finished, is_debug: lc.is_debug },
            LifecycleAction::Stop { exit_code },
        ),
{
}

/// The lifecycle after `events`, and the actions taken along the way.
pub open spec fn lifecycle_run(lc: Lifecycle, events: Seq<LifecycleEvent>) -> (Lifecycle, Seq<LifecycleAction>)
    decreases events.len(),
{
    if events.len() == 0 {
        (lc, Seq::empty())
    } else {
        let (mid, acts) = lifecycle_run(lc, events.drop_last());
        let (next, act) = lifecycle_step(mid, events.last());
        (next, acts.push(act))
    }
}

/// How many steps exited successfully among `events`.
pub open spec fn successful_exits(events: Seq<LifecycleEvent>) -> nat
    decreases events.len(),
{
    if events.len() == 0 {
        0
    } else {
        successful_exits(events.drop_last()) + if events.last() matches LifecycleEvent::StepExited {
            success: true,
            ..
        } {
            1nat
        } else {
            0nat
        }
    }
}

/// Number of `Stop` actions among `acts`.
pub open spec fn stops(acts: Seq<LifecycleAction>) -> nat
    decreases acts.len(),
{
    if acts.len() == 0 {
        0
    } else {
        stops(acts.drop_last()) + if acts.last() is Stop {
            1nat
        } else {
            0nat
        }
    }
}

proof fn lemma_lifecycle_history(is_debug: bool, events: Seq<LifecycleEvent>)
    ensures
        ({
            let (lc, acts) = lifecycle_run(Lifecycle { stage: Stage::Compiling, is_debug }, events);
            &&& acts.len() == events.len()
            &&& lc.is_debug == is_debug
            &&& lc.stage is Linking ==> successful_exits(events) >= 1
            &&& (lc.stage is Instrumenting || lc.stage is AwaitingRun || lc.stage is Running) ==> successful_exits(events) >= 2
            &&& lc.stage is Instrumenting ==> is_debug
            &&& stops(acts) == (if lc.stage is Finished { 1nat } else { 0nat })
        }),
    decreases events.len(),
{
    if events.len() > 0 {
        let prev = events.drop_last();
        lemma_lifecycle_history(is_debug, prev);
        let (_, acts) = lifecycle_run(Lifecycle { stage: Stage::Compiling, is_debug }, events);
        let (_, acts0) = lifecycle_run(Lifecycle { stage: Stage::Compiling, is_debug }, prev);
        assert(acts.drop_last() =~= acts0);
    }
}

/// Over any sequence of events, the worker reports that it stopped at most
/// once, and it runs the program only when the compiler and the linker both
/// exited successfully before (and then, in a debug build, only instrumented).
pub proof fn law_lifecycle_order(is_debug: bool, events: Seq<LifecycleEvent>)
    ensures
        ({
            let (lc, acts) = lifecycle_run(Lifecycle { stage: Stage::Compiling, is_debug }, events);
            &&& stops(acts) <= 1
            &&& forall|k: int|
                0 <= k < acts.len() && #[trigger] acts[k] is Run ==> successful_exits(events.take(k)) >= 2
                    && acts[k] == (LifecycleAction::Run { debug: is_debug })
            &&& forall|k: int| 0 <= k < acts.len() && #[trigger] acts[k] is Instrument ==> is_debug
        }),
    decreases events.len(),
{
    lemma_lifecycle_history(is_debug, events);
    if events.len() > 0 {
        let prev = events.drop_last();
        law_lifecycle_order(is_debug, prev);
        lemma_lifecycle_history(is_debug, prev);
        let (lc, acts) = lifecycle_run(Lifecycle { stage: Stage::Compiling, is_debug }, events);
        let (_, acts0) = lifecycle_run(Lifecycle { stage: Stage::Compiling, is_debug }, prev);
        assert(events.take(events.len() - 1) =~= prev);
        assert forall|k: int|
            0 <= k < acts.len() && #[trigger] acts[k] is Run implies successful_exits(events.take(k)) >= 2
                && acts[k] == (LifecycleAction::Run { debug: is_debug }) by {
            if k < acts0.len() {
                assert(acts[k] == acts0[k]);
                assert(events.take(k) =~= prev.take(k));
            }
        }
        assert forall|k: int| 0 <= k < acts.len() && #[trigger] acts[k] is Instrument implies is_debug by {
            if k < acts0.len() {
                assert(acts[k] == acts0[k]);
            }
        }
    }
}

} // verus!
