use wasmdbg::paths::{file_name, is_source_file, push_path_str};
use wasmdbg::worker::{
    clang_args, collect_dir_sources, compile_command, has_sources, linker_args, FsNode, Lifecycle, LifecycleAction,
    LifecycleEvent, Stage,
};

#[test]
fn push_path_follows_path_buf() {
    assert_eq!(push_path_str("/", "a"), "/a");
    assert_eq!(push_path_str("/a", "b.c"), "/a/b.c");
    assert_eq!(push_path_str("", "b.c"), "b.c");
    assert_eq!(push_path_str("/a", "/b"), "/b");
}

#[test]
fn file_name_skips_trailing_separators_and_dots() {
    let f = |p: &str| file_name(p).map(|v| v.into_iter().collect::<String>());
    assert_eq!(f("/a/b.c"), Some("b.c".to_string()));
    assert_eq!(f("/a/b.c/"), Some("b.c".to_string()));
    assert_eq!(f("/a/b.c/."), Some("b.c".to_string()));
    assert_eq!(f("/a/.."), None);
    assert_eq!(f("/"), None);
    assert_eq!(f(""), None);
}

#[test]
fn sources_are_c_and_cpp_files() {
    for p in ["/main.c", "/x.CC", "/d/y.cp", "/z.Cpp", "/w.cxx", "/v.c++"] {
        assert!(is_source_file(p), "{}", p);
    }
    for p in ["/main.h", "/.c", "/c", "/a.cs", "/a.c.txt", "/dir/"] {
        assert!(!is_source_file(p), "{}", p);
    }
}

fn file(s: &str) -> FsNode {
    FsNode::File(s.to_string())
}

#[test]
fn sources_are_collected_from_the_tree() {
    let fs = vec![
        ("main.cpp".to_string(), file("int main() {}")),
        ("README".to_string(), file("")),
        ("lib".to_string(), FsNode::Dir(vec![("util.c".to_string(), file("")), ("util.h".to_string(), file(""))])),
    ];
    let mut sources = Vec::new();
    collect_dir_sources(&fs, "/", &mut sources);
    assert_eq!(sources, vec!["/main.cpp".to_string(), "/lib/util.c".to_string()]);
}

#[test]
fn compile_command_sorts_sources_and_adds_debug_flags() {
    let fs = vec![("z.c".to_string(), file("")), ("a.cpp".to_string(), file(""))];
    assert!(has_sources(&fs));
    let args = compile_command(true, &fs);
    let n = args.len();
    assert_eq!(args[0], "-cc1");
    assert_eq!(&args[n - 5..], &["-O0", "-debug-info-kind=standalone", "-dwarf-version=5", "/a.cpp", "/z.c"]);
    assert_eq!(n, 22 + 3 + 2);
    let release = clang_args(false, &vec!["/m.c".to_string()]);
    assert_eq!(release.len(), 23);
    assert_eq!(release[21], "/main.o");
    assert_eq!(release[22], "/m.c");
}

#[test]
fn tree_without_sources_has_none() {
    let fs = vec![("notes.txt".to_string(), file(""))];
    assert!(!has_sources(&fs));
    let nested = vec![("src".to_string(), FsNode::Dir(vec![("main.CPP".to_string(), file(""))]))];
    assert!(has_sources(&nested));
}

#[test]
fn linker_links_main_object() {
    let args = linker_args();
    assert_eq!(args.len(), 12);
    assert_eq!(args[0], "--export-dynamic");
    assert_eq!(args[11], "/main.wasm");
}

#[test]
fn lifecycle_debug_build_runs_after_instrumenting() {
    let lc = Lifecycle::new(true);
    let (lc, a) = lc.step(LifecycleEvent::StepExited { success: true, exit_code: 0 });
    assert_eq!(a, LifecycleAction::Link);
    let (lc, a) = lc.step(LifecycleEvent::RunRequested);
    assert_eq!(a, LifecycleAction::Ignore);
    let (lc, a) = lc.step(LifecycleEvent::StepExited { success: true, exit_code: 0 });
    assert_eq!(a, LifecycleAction::Instrument);
    let (lc, a) = lc.step(LifecycleEvent::Instrumented);
    assert_eq!(a, LifecycleAction::WaitForRun);
    let (lc, a) = lc.step(LifecycleEvent::RunRequested);
    assert_eq!(a, LifecycleAction::Run { debug: true });
    let (lc, a) = lc.step(LifecycleEvent::StepExited { success: false, exit_code: 3 });
    assert_eq!(a, LifecycleAction::Stop { exit_code: 3 });
    assert_eq!(lc.stage, Stage::Finished);
    let (_, a) = lc.step(LifecycleEvent::StepExited { success: true, exit_code: 0 });
    assert_eq!(a, LifecycleAction::Ignore);
}

#[test]
fn lifecycle_failed_compile_stops() {
    let (lc, a) = Lifecycle::new(false).step(LifecycleEvent::StepExited { success: false, exit_code: 1 });
    assert_eq!(a, LifecycleAction::Stop { exit_code: 1 });
    assert_eq!(lc.stage, Stage::Finished);
    let (_, a) = Lifecycle::new(false)
        .step(LifecycleEvent::StepExited { success: true, exit_code: 0 })
        .0
        .step(LifecycleEvent::StepExited { success: true, exit_code: 0 });
    assert_eq!(a, LifecycleAction::WaitForRun);
}
