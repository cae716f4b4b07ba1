//! Filesystems, dyndep files, cleaning and subtools.

use shuriken::build_log::{BuildLog, LogEntry};
use shuriken::clean::Cleaner;
use shuriken::deps_log::DepsLog;
use shuriken::disk::{make_dirs, read_file_text, DiskInterface, MemDisk};
use shuriken::dyndep::{load_dyndeps, parse_dyndep_text};
use shuriken::exec::{capacity, CommandRunner, DryRunCommandRunner};
use shuriken::parse::{ManifestParser, ParserOptions, PhonyCycleAction};
use shuriken::state::{EdgeId, State};
use shuriken::tools::{
    collect_target, collect_targets, command_with_rspfile_expanded, commands, compdb,
    compdb_targets, deps, graph, inputs, missing_deps, multi_inputs, query, rules, targets_all,
    targets_by_depth, targets_by_rule, targets_source_list, InputsOptions,
};

const CAT: &str = "rule cat\n  command = cat $in > $out\n\n";

fn setup(disk: &MemDisk, manifest: &str) -> State {
    let mut state = State::new();
    let mut p = ManifestParser::new(ParserOptions {
        phony_cycle_action: PhonyCycleAction::Warn,
        quiet: true,
    });
    p.parse_text(&mut state, disk, "input", manifest.as_bytes()).unwrap();
    state
}

#[test]
fn mem_disk_roundtrip() {
    let mut d = MemDisk::new();
    assert_eq!(d.stat("a").unwrap(), 0);
    d.create("a", b"hello");
    assert!(d.stat("a").unwrap() > 0);
    assert_eq!(d.read_file("a").unwrap().unwrap(), b"hello");
    assert!(d.remove_file("a").unwrap());
    assert!(!d.remove_file("a").unwrap());
}

#[test]
fn mem_disk_make_dirs() {
    let mut d = MemDisk::new();
    make_dirs(&mut d, "a/b/c/file.txt").unwrap();
    assert!(d.stat("a/b/c").unwrap() > 0);
    assert!(d.stat("a/b").unwrap() > 0);
    assert!(d.stat("a").unwrap() > 0);
}

#[test]
fn mem_disk_satisfies_the_disk_interface() {
    let mut disk = MemDisk::new();
    assert_eq!(disk.stat("nothing").unwrap(), 0);
    disk.write_file("some/file", "contents", false).unwrap();
    assert!(disk.stat("some/file").unwrap() > 0);
    assert_eq!(
        read_file_text(&disk, "some/file").unwrap().as_deref(),
        Some("contents")
    );
    assert!(disk.remove_file("some/file").unwrap());
    assert!(!disk.remove_file("some/file").unwrap());
    assert_eq!(read_file_text(&disk, "some/file").unwrap(), None);
}

#[test]
fn files_that_are_not_text_are_reported() {
    let mut disk = MemDisk::new();
    disk.create("bin", b"\xff\xfe");
    let e = read_file_text(&disk, "bin").unwrap_err();
    assert_eq!(e.message(), "bin: file is not valid UTF-8");
}

#[test]
fn written_files_are_newer_after_a_tick() {
    let mut disk = MemDisk::new();
    disk.create("a", b"1");
    disk.tick();
    disk.create("b", b"2");
    assert!(disk.stat("a").unwrap() < disk.stat("b").unwrap());
    assert_eq!(disk.stat("b").unwrap(), disk.now());
}

fn dyndep_setup() -> (State, MemDisk) {
    let disk = MemDisk::new();
    let state = setup(
        &disk,
        "rule r\n  command = touch $out\n  dyndep = dd\n\nbuild out: r in | dd\n",
    );
    (state, disk)
}

fn dyndep_error(text: &str) -> String {
    let (mut state, mut disk) = dyndep_setup();
    disk.create("dd", text.as_bytes());
    let dd = state.lookup_node("dd").unwrap();
    match load_dyndeps(&mut state, &disk, dd) {
        Ok(_) => panic!("loaded: {text:?}"),
        Err(e) => e.message(),
    }
}

#[test]
fn loads_implicit_inputs_and_outputs() {
    let (mut state, mut disk) = dyndep_setup();
    disk.create(
        "dd",
        b"ninja_dyndep_version = 1\nbuild out | imp_out: dyndep | imp_in\n",
    );
    let dd = state.lookup_node("dd").unwrap();
    load_dyndeps(&mut state, &disk, dd).map_err(|e| e.message()).unwrap();

    let edge = EdgeId(0);
    assert_eq!(state.edge(edge).outputs().len(), 2);
    assert_eq!(state.edge(edge).implicit_outs(), 1);
    assert_eq!(state.edge(edge).inputs().len(), 3);
    assert!(!state.node(dd).dyndep_pending);
}

#[test]
fn restat_is_recorded_on_the_edge() {
    let (mut state, mut disk) = dyndep_setup();
    disk.create(
        "dd",
        b"ninja_dyndep_version = 1\nbuild out: dyndep\n  restat = 1\n",
    );
    let dd = state.lookup_node("dd").unwrap();
    load_dyndeps(&mut state, &disk, dd).map_err(|e| e.message()).unwrap();
    assert!(state.edge_restat(EdgeId(0)));
}

#[test]
fn missing_version_is_an_error() {
    let e = dyndep_error("build out: dyndep\n");
    assert!(e.contains("ninja_dyndep_version"), "{e}");
}

#[test]
fn a_dyndep_text_without_a_version_adds_nothing() {
    let mut state = State::new();
    let e = parse_dyndep_text(&mut state, "dd", b"build out: dyndep\n").unwrap_err();
    assert_eq!(e.message(), "dd:1: expected 'ninja_dyndep_version = ...'\n");
    assert_eq!(state.node_count(), 0);
}

#[test]
fn a_dyndep_file_that_is_missing_is_passed_over() {
    let mut disk = MemDisk::new();
    disk.create("dd2", b"ninja_dyndep_version = 1\nbuild out2 | extra: dyndep\n");
    disk.create("out1", b"x");
    disk.create("out2", b"x");
    disk.create("extra", b"x");
    let manifest = "rule r\n  command = c\n\n\
                    build out1: r || dd1\n  dyndep = dd1\n\
                    build out2: r || dd2\n  dyndep = dd2\n";
    // What the files that can be loaded declare is cleaned.
    let mut state = setup(&disk, manifest);
    let report = Cleaner::new(false).clean_all(&mut state, &mut disk, false);
    assert_eq!(report.count, 3);
    assert!(!disk.contains("out1") && !disk.contains("out2") && !disk.contains("extra"));
    // What is known without them is told.
    let mut state = setup(&disk, manifest);
    let out1 = state.lookup_node("out1").unwrap();
    assert_eq!(
        query(&mut state, &disk, &[out1]),
        "out1:\n  input: r\n    || dd1\n  outputs:\n"
    );
}

#[test]
fn unknown_output_is_an_error() {
    let e = dyndep_error("ninja_dyndep_version = 1\nbuild nosuch: dyndep\n");
    assert!(e.contains("no build statement exists for 'nosuch'"), "{e}");
}

#[test]
fn edge_must_be_mentioned() {
    let e = dyndep_error("ninja_dyndep_version = 1\n");
    assert!(e.contains("not mentioned in its dyndep file"), "{e}");
}

#[test]
fn explicit_inputs_rejected() {
    let e = dyndep_error("ninja_dyndep_version = 1\nbuild out: dyndep explicit\n");
    assert!(e.contains("explicit inputs not supported"), "{e}");
}

#[test]
fn clean_all_removes_outputs() {
    let mut disk = MemDisk::new();
    disk.create("in", b"x");
    disk.create("out", b"x");
    let mut state = setup(&disk, &format!("{CAT}build out: cat in\n"));
    let report = Cleaner::new(false).clean_all(&mut state, &mut disk, false);
    assert_eq!(report.count, 1);
    assert!(!disk.contains("out"));
    assert!(disk.contains("in"));
}

#[test]
fn clean_all_keeps_generator_outputs() {
    let mut disk = MemDisk::new();
    disk.create("build.ninja", b"x");
    let mut state = setup(
        &disk,
        "rule gen\n  command = gen\n  generator = 1\n\nbuild build.ninja: gen\n",
    );
    let report = Cleaner::new(false).clean_all(&mut state, &mut disk, false);
    assert_eq!(report.count, 0);
    assert!(disk.contains("build.ninja"));

    let report = Cleaner::new(false).clean_all(&mut state, &mut disk, true);
    assert_eq!(report.count, 1);
}

#[test]
fn clean_removes_depfiles_and_rspfiles() {
    let mut disk = MemDisk::new();
    disk.create("out", b"x");
    disk.create("out.d", b"x");
    disk.create("out.rsp", b"x");
    let mut state = setup(
        &disk,
        "rule r\n  command = c\n  depfile = $out.d\n  rspfile = $out.rsp\n  \
         rspfile_content = x\n\nbuild out: r\n",
    );
    let report = Cleaner::new(false).clean_all(&mut state, &mut disk, false);
    assert_eq!(report.count, 3);
}

#[test]
fn clean_target_is_transitive() {
    let mut disk = MemDisk::new();
    disk.create("a", b"x");
    disk.create("b", b"x");
    disk.create("c", b"x");
    let mut state = setup(&disk, &format!("{CAT}build b: cat a\nbuild c: cat b\n"));
    let report =
        Cleaner::new(false).clean_targets(&mut state, &mut disk, &["c".to_string()]);
    assert_eq!(report.count, 2);
    assert!(disk.contains("a"));
    assert!(!disk.contains("b"));
    assert!(!disk.contains("c"));
}

#[test]
fn clean_rule() {
    let mut disk = MemDisk::new();
    disk.create("x", b"x");
    disk.create("y", b"y");
    let mut state = setup(
        &disk,
        &format!("{CAT}rule other\n  command = o\n\nbuild x: cat in\nbuild y: other\n"),
    );
    let report = Cleaner::new(false).clean_rules(&mut state, &mut disk, &["cat".to_string()]);
    assert_eq!(report.count, 1);
    assert!(!disk.contains("x"));
    assert!(disk.contains("y"));
}

#[test]
fn dry_run_keeps_files() {
    let mut disk = MemDisk::new();
    disk.create("out", b"x");
    let mut state = setup(&disk, &format!("{CAT}build out: cat in\n"));
    let report = Cleaner::new(true).clean_all(&mut state, &mut disk, false);
    assert_eq!(report.count, 1);
    assert!(disk.contains("out"));
}

#[test]
fn clean_dead_removes_unknown_log_entries() {
    let mut disk = MemDisk::new();
    disk.create("stale", b"x");
    disk.create("out", b"x");
    let mut state = setup(&disk, &format!("{CAT}build out: cat in\n"));
    let mut log = BuildLog::new();
    log.insert_entry(LogEntry::new("stale"));
    log.insert_entry(LogEntry::new("out"));
    let report = Cleaner::new(false).clean_dead(&mut state, &mut disk, &log);
    assert_eq!(report.removed, vec!["stale".to_string()]);
    assert!(disk.contains("out"));
}

#[test]
fn cleaning_reports_names_that_are_not_known() {
    let mut disk = MemDisk::new();
    let mut state = setup(&disk, &format!("{CAT}build out: cat in\n"));
    let mut cleaner = Cleaner::new(false);
    let names = ["./nope".to_string(), String::new()];
    let report = cleaner.clean_targets(&mut state, &mut disk, &names);
    assert_eq!(
        report.errors,
        vec!["unknown target 'nope'", "failed to canonicalize '': empty path"]
    );
    assert!(!report.ok());
    let report = cleaner.clean_rules(&mut state, &mut disk, &["nope".to_string()]);
    assert_eq!(report.errors, vec!["unknown rule 'nope'"]);
}

#[test]
fn cleaning_ends_on_a_cycle() {
    let mut disk = MemDisk::new();
    disk.create("a", b"x");
    disk.create("b", b"x");
    let mut state = setup(&disk, &format!("{CAT}build a: cat b\nbuild b: cat a\n"));
    let report = Cleaner::new(false).clean_targets(&mut state, &mut disk, &["a".to_string()]);
    assert_eq!(report.removed, vec!["a", "b"]);
}

#[test]
fn a_file_is_removed_only_once() {
    let mut disk = MemDisk::new();
    disk.create("a", b"x");
    disk.create("d", b"x");
    let mut state = setup(
        &disk,
        "rule r\n  command = c\n  depfile = d\n\nbuild a: r\nbuild b: r\n",
    );
    let report = Cleaner::new(true).clean_all(&mut state, &mut disk, false);
    assert_eq!(report.removed, vec!["a", "d"]);
}

#[test]
fn dry_run_runner() {
    let disk = MemDisk::new();
    let state = setup(&disk, "rule r\n  command = false\n\nbuild out: r\n");
    let mut runner = DryRunCommandRunner::new();
    runner.start_command(&state, EdgeId(0)).unwrap();
    let r = runner.wait_for_command().unwrap();
    assert!(r.success());
    assert!(runner.wait_for_command().is_none());
}

#[test]
fn capacity_tracks_running_commands() {
    let disk = MemDisk::new();
    let state = setup(&disk, "rule r\n  command = true\n\nbuild out: r\n");
    let mut runner = DryRunCommandRunner::new();
    let mut running = 0;
    assert_eq!(capacity(2, running, None), 2);
    runner.start_command(&state, EdgeId(0)).unwrap();
    running += 1;
    assert_eq!(capacity(2, running, None), 1);
    let _ = runner.wait_for_command().unwrap();
    running -= 1;
    assert_eq!(capacity(2, running, None), 2);
}

#[test]
fn targets_and_rules() {
    let disk = MemDisk::new();
    let state = setup(&disk, &format!("{CAT}build b: cat a\nbuild c: cat b\n"));
    assert_eq!(targets_all(&state), "b: cat\nc: cat\n");
    assert_eq!(targets_by_rule(&state, "cat"), "b\nc\n");
    assert_eq!(targets_source_list(&state), "a\n");
    assert_eq!(rules(&state, false), "cat\nphony\n");
    assert_eq!(targets_by_depth(&state, 1).unwrap(), "c: cat\n");
}

#[test]
fn targets_by_depth_go_as_deep_as_asked() {
    let disk = MemDisk::new();
    let state = setup(&disk, &format!("{CAT}build b: cat a\nbuild c: cat b\n"));
    assert_eq!(targets_by_depth(&state, 2).unwrap(), "c: cat\n  b: cat\n");
    assert_eq!(targets_by_depth(&state, 0).unwrap(), "c: cat\n  b: cat\n    a\n");
    assert_eq!(targets_by_depth(&state, -7).unwrap(), "c: cat\n  b: cat\n    a\n");
}

#[test]
fn a_depth_is_kept_to_where_something_is_made_from_itself() {
    let disk = MemDisk::new();
    let state = setup(&disk, &format!("{CAT}build b: cat b\nbuild a: cat b\n"));
    let text = targets_by_depth(&state, 9).unwrap();
    assert_eq!(text.lines().count(), 9);
    assert_eq!(targets_by_depth(&state, 3).unwrap(), "a: cat\n  b: cat\n    b: cat\n");
}

#[test]
fn rules_are_described_on_request() {
    let disk = MemDisk::new();
    let state = setup(&disk, "rule z\n  command = c\n  description = Do $out\nrule b\n  command = d\n");
    assert_eq!(rules(&state, true), "b\nphony\nz: Do ${out}\n");
}

#[test]
fn commands_tool() {
    let disk = MemDisk::new();
    let state = setup(&disk, &format!("{CAT}build b: cat a\nbuild c: cat b\n"));
    let c = state.lookup_node("c").unwrap();
    assert_eq!(commands(&state, &[c], false), "cat a > b\ncat b > c\n");
    assert_eq!(commands(&state, &[c], true), "cat b > c\n");
}

#[test]
fn inputs_tool() {
    let disk = MemDisk::new();
    let state = setup(
        &disk,
        &format!("{CAT}build b: cat a\nbuild c: cat b\nbuild all: phony c\n"),
    );
    let all = state.lookup_node("all").unwrap();
    let out = inputs(
        &state,
        &[all],
        InputsOptions {
            shell_escape: false,
            ..Default::default()
        },
    );
    assert_eq!(out, "a\nb\nc\n");
}

#[test]
fn inputs_are_sorted_unless_their_order_is_asked_for() {
    let disk = MemDisk::new();
    let state = setup(&disk, &format!("{CAT}build y: cat z\nbuild x: cat y b$ c\n"));
    let x = state.lookup_node("x").unwrap();
    let mut options = InputsOptions { shell_escape: true, ..Default::default() };
    assert_eq!(inputs(&state, &[x], options), "'b c'\ny\nz\n");
    options.dependency_order = true;
    options.print0 = true;
    assert_eq!(inputs(&state, &[x], options), "z\0y\0'b c'\0");
    assert_eq!(multi_inputs(&state, &[x], ":", ';'), "x:z;x:y;x:b c;");
}

#[test]
fn query_tool() {
    let disk = MemDisk::new();
    let mut state = setup(&disk, &format!("{CAT}build b: cat a | i || o\n"));
    let b = state.lookup_node("b").unwrap();
    let out = query(&mut state, &disk, &[b]);
    assert!(
        out.contains("b:\n  input: cat\n    a\n    | i\n    || o\n"),
        "{out}"
    );
}

#[test]
fn graph_tool() {
    let disk = MemDisk::new();
    let mut state = setup(&disk, &format!("{CAT}build b: cat a\n"));
    let b = state.lookup_node("b").unwrap();
    let out = graph(&mut state, &disk, &[b]);
    assert!(out.starts_with("digraph ninja {\n"));
    assert!(out.contains("label=\"b\""));
    assert!(out.contains("label=\" cat\""));
    assert!(out.ends_with("}\n"));
}

#[test]
fn graph_draws_edges_with_many_ends() {
    let disk = MemDisk::new();
    let mut state = setup(&disk, &format!("{CAT}build b: cat a || o\n"));
    let b = state.lookup_node("b").unwrap();
    let out = graph(&mut state, &disk, &[b]);
    assert!(out.contains("\"e0\" [label=\"cat\", shape=ellipse]\n\"e0\" -> \"n0\"\n"), "{out}");
    assert!(out.contains("\"n1\" -> \"e0\" [arrowhead=none]\n"), "{out}");
    assert!(out.contains("\"n2\" -> \"e0\" [arrowhead=none style=dotted]\n"), "{out}");
}

#[test]
fn compdb_tool() {
    let disk = MemDisk::new();
    let state = setup(&disk, &format!("{CAT}build b: cat a\n"));
    let out = compdb(&state, &[], false, "/work");
    assert!(out.contains("\"directory\": \"/work\""));
    assert!(out.contains("\"command\": \"cat a > b\""));
    assert!(out.contains("\"file\": \"a\""));
    assert!(out.contains("\"output\": \"b\""));
}

#[test]
fn compdb_expands_rspfile() {
    let disk = MemDisk::new();
    let state = setup(
        &disk,
        "rule link\n  command = link @$out.rsp\n  rspfile = $out.rsp\n  \
         rspfile_content = -o $out $in\n\nbuild b: link a\n",
    );
    let out = compdb(&state, &[], true, ".");
    assert!(out.contains("link -o b a"), "{out}");
    assert_eq!(command_with_rspfile_expanded(&state, EdgeId(0)), "link -o b a");
}

#[test]
fn compdb_for_targets_follows_the_graph() {
    let disk = MemDisk::new();
    let state = setup(
        &disk,
        &format!("{CAT}build x: cat y\nbuild b: cat a\nbuild all: phony b\n"),
    );
    let all = state.lookup_node("all").unwrap();
    let out = compdb_targets(&state, &[all], false, ".").unwrap();
    assert!(out.contains("\"output\": \"b\""), "{out}");
    assert!(!out.contains("\"output\": \"x\""), "{out}");
    assert_eq!(
        compdb_targets(&state, &[], false, ".").unwrap(),
        "[\n]\n"
    );
}

#[test]
fn collect_target_suggests_alternatives() {
    let disk = MemDisk::new();
    let state = setup(&disk, &format!("{CAT}build target: cat a\n"));
    let e = collect_target(&state, None, "targt").unwrap_err().message();
    assert!(e.contains("did you mean 'target'"), "{e}");
}

#[test]
fn collect_target_caret() {
    let disk = MemDisk::new();
    let state = setup(&disk, &format!("{CAT}build b: cat a\n"));
    let n = collect_target(&state, None, "a^").unwrap();
    assert_eq!(state.node(n).path(), "b");
}

#[test]
fn names_that_are_no_targets_are_explained() {
    let disk = MemDisk::new();
    let state = setup(&disk, &format!("{CAT}build b: cat a\n"));
    let text = |name: &str| collect_target(&state, None, name).unwrap_err().message();
    assert_eq!(text(""), "empty path");
    assert_eq!(text("b^"), "'b' has no out edge");
    assert_eq!(text("clean"), "unknown target 'clean', did you mean 'shuriken -t clean'?");
    assert_eq!(text("help"), "unknown target 'help', did you mean 'shuriken -h'?");
    assert_eq!(text("something/else"), "unknown target 'something/else'");
    let nodes = collect_targets(&state, None, &[]).unwrap();
    assert_eq!(nodes, vec![state.lookup_node("b").unwrap()]);
}

#[test]
fn deps_tool_tells_whether_dependencies_are_valid() {
    let mut disk = MemDisk::new();
    disk.create("o", b"x");
    let mut state = setup(&disk, "rule r\n  command = c\n  deps = gcc\n  depfile = d\n\nbuild o: r i\n");
    let o = state.lookup_node("o").unwrap();
    let h = state.get_node("h", 0);
    let mut log = DepsLog::new();
    let mut bytes = Vec::new();
    let now = disk.now();
    log.record_deps(&mut state, o, now, &[h], &mut bytes).unwrap();
    assert_eq!(
        deps(&state, &disk, &log, &[]),
        format!("o: #deps 1, deps mtime {now} (VALID)\n    h\n\n")
    );
    disk.tick();
    disk.create("o", b"y");
    assert_eq!(
        deps(&state, &disk, &log, &[o]),
        format!("o: #deps 1, deps mtime {now} (STALE)\n    h\n\n")
    );
    assert_eq!(deps(&state, &disk, &log, &[h]), "h: deps not found\n");
}

#[test]
fn missing_deps_are_found() {
    let mut disk = MemDisk::new();
    disk.create("o.d", b"o: gen.h i\n");
    let manifest = "rule g\n  command = g\nrule c\n  command = c\n  depfile = o.d\n\n\
                    build gen.h: g\nbuild o: c i\n";
    let mut state = setup(&disk, manifest);
    let o = state.lookup_node("o").unwrap();
    let report = missing_deps(&mut state, &disk, &DepsLog::new(), &[o]).unwrap();
    assert_eq!(report.lines, vec!["Missing dep: o uses gen.h (generated by g)"]);
    assert!(report.had_missing_deps());
    assert_eq!(report.nodes_processed, 1);
    assert_eq!(report.missing_dep_path_count, 1);
    assert_eq!(report.nodes_missing_deps, 1);
    assert_eq!(report.generated_nodes, 1);
    assert_eq!(report.generator_rules, 1);
    assert!(report.summary().contains("There are 1 missing dependency paths.\n"));

    // A declared order is enough.
    let declared = manifest.replace("build o: c i", "build o: c i || gen.h");
    let mut state = setup(&disk, &declared);
    let o = state.lookup_node("o").unwrap();
    let report = missing_deps(&mut state, &disk, &DepsLog::new(), &[o]).unwrap();
    assert!(!report.had_missing_deps());
    assert_eq!(
        report.summary(),
        "Processed 2 nodes.\nNo missing dependencies on generated files found.\n"
    );
}
