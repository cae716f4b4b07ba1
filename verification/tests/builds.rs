//! Whole builds against an in-memory filesystem, so that mtimes and what
//! commands do are fully controlled.

use std::collections::{HashMap, VecDeque};

use shuriken::build::{BuildConfig, BuildStep, Builder, Logs, Verbosity};
use shuriken::build_log::BuildLog;
use shuriken::deps_log::DepsLog;
use shuriken::disk::{DiskInterface, MemDisk};
use shuriken::engine::{Engine, EngineOptions};
use shuriken::error::Error;
use shuriken::exec::{CommandResult, CommandRunner, DryRunCommandRunner, ExitStatus};
use shuriken::parse::{ManifestParser, ParserOptions, PhonyCycleAction};
use shuriken::plan::PlanChange;
use shuriken::state::{EdgeId, State};
use shuriken::status::{NullStatus, RecordingStatus, Status, Verbosity as StatusVerbosity};
use shuriken::tools;

const CAT: &str = "rule cat\n  command = cat $in > $out\n\n";
const CAT_DESCRIBED: &str =
    "rule cat\n  command = cat $in > $out\n  description = CAT $out\n\n";

fn quiet_parser() -> ParserOptions {
    ParserOptions { phony_cycle_action: PhonyCycleAction::Warn, quiet: true }
}

fn quiet_config() -> BuildConfig {
    BuildConfig { verbosity: Verbosity::Quiet, ..Default::default() }
}

fn parse(disk: &MemDisk, manifest: &str) -> State {
    let mut state = State::new();
    let mut parser = ManifestParser::new(quiet_parser());
    parser
        .parse_text(&mut state, disk, "build.ninja", manifest.as_bytes())
        .expect("parse manifest");
    state
}

/// What running a command does to the disk, its status and what it prints.
type Effects<'a> = dyn FnMut(&State, EdgeId, &mut MemDisk) -> (ExitStatus, String) + 'a;

/// Write something new to every output.
fn touch(state: &State, edge: EdgeId, disk: &mut MemDisk) -> (ExitStatus, String) {
    disk.tick();
    for &out in state.edge(edge).outputs() {
        let text = format!("built-{}", disk.now());
        disk.create(state.node(out).path(), text.as_bytes());
    }
    (ExitStatus(0), String::new())
}

/// Run what has been planned, `room` commands at a time.
fn drive<S: Status>(
    builder: &mut Builder,
    state: &mut State,
    disk: &mut MemDisk,
    logs: &mut Logs,
    status: &mut S,
    room: usize,
    effects: &mut Effects<'_>,
) -> Result<(), Error> {
    for change in builder.take_plan_changes() {
        match change {
            PlanChange::Added(e) => status.edge_added_to_plan(state, e),
            PlanChange::Removed(e) => status.edge_removed_from_plan(state, e),
        }
    }
    if !builder.begin(state) {
        return Ok(());
    }
    let mut running: VecDeque<CommandResult> = VecDeque::new();
    loop {
        match builder.next_step(room - running.len()) {
            BuildStep::Start(edge) => {
                builder.start_edge(state, disk, status, edge, 0)?;
                if state.edge_is_phony(edge) {
                    builder.finish_phony(state, disk, logs, edge)?;
                } else {
                    let (code, output) = effects(state, edge, disk);
                    running.push_back(CommandResult { edge, status: code, output });
                    builder.command_started();
                }
            }
            BuildStep::Wait => {
                let mut result = running.pop_front().expect("a running command");
                let worked = builder.finish_command(state, disk, logs, status, &mut result, 0);
                builder.command_ended(result.status, worked.is_ok());
                worked?;
            }
            BuildStep::Finished => return Ok(()),
            BuildStep::Stuck => return Err(builder.stuck_error()),
        }
    }
}

/// Build `target` and return how many commands ran.
fn build(
    state: &mut State,
    disk: &mut MemDisk,
    logs: &mut Logs,
    target: &str,
    effects: &mut Effects<'_>,
) -> usize {
    let mut builder = Builder::new(state, quiet_config(), 0);
    builder.add_target_by_name(state, disk, logs, target).expect("add target");
    if builder.already_up_to_date() {
        return 0;
    }
    drive(&mut builder, state, disk, logs, &mut NullStatus, 4, effects).expect("build");
    builder.edges_finished() as usize
}

fn with_build_log() -> Logs {
    Logs::new(Some(BuildLog::new()), None)
}

fn without_logs() -> Logs {
    Logs::new(None, None)
}

#[test]
fn builds_a_chain_once() {
    let mut disk = MemDisk::new();
    disk.create("a", b"a");
    let mut state = parse(&disk, &format!("{CAT}build b: cat a\nbuild c: cat b\n"));
    let mut status = RecordingStatus::default();
    let mut logs = with_build_log();

    let mut builder = Builder::new(&state, quiet_config(), 0);
    builder.add_target_by_name(&mut state, &disk, &logs, "c").unwrap();
    assert!(!builder.already_up_to_date());
    drive(&mut builder, &mut state, &mut disk, &mut logs, &mut status, 4, &mut touch).unwrap();
    assert_eq!(builder.edges_finished(), 2);
    assert!(disk.contains("b"));
    assert!(disk.contains("c"));
    assert_eq!(logs.build_log.unwrap().entries().len(), 2);
}

#[test]
fn nothing_to_do_when_up_to_date() {
    let mut disk = MemDisk::new();
    disk.create("a", b"a");
    disk.tick();
    disk.create("b", b"b");
    let mut state = parse(&disk, &format!("{CAT}build b: cat a\n"));
    let mut builder = Builder::new(&state, quiet_config(), 0);
    builder.add_target_by_name(&mut state, &disk, &without_logs(), "b").unwrap();
    assert!(builder.already_up_to_date());
}

#[test]
fn failure_stops_the_build() {
    let mut disk = MemDisk::new();
    disk.create("a", b"a");
    let mut state = parse(&disk, &format!("{CAT}build b: cat a\nbuild c: cat b\n"));
    let mut status = RecordingStatus::default();
    let mut logs = without_logs();
    let mut builder = Builder::new(&state, quiet_config(), 0);
    builder.add_target_by_name(&mut state, &disk, &logs, "c").unwrap();
    let err = drive(
        &mut builder,
        &mut state,
        &mut disk,
        &mut logs,
        &mut status,
        4,
        &mut |_: &State, _: EdgeId, _: &mut MemDisk| (ExitStatus(1), "boom".to_string()),
    )
    .unwrap_err()
    .message();
    assert!(err.contains("subcommand failed"), "{err}");
    assert_eq!(builder.exit_code(), ExitStatus(1));
}

#[test]
fn dry_run_touches_nothing() {
    let mut disk = MemDisk::new();
    disk.create("a", b"a");
    let mut state = parse(&disk, &format!("{CAT}build b: cat a\n"));
    let mut status = RecordingStatus::default();
    let mut logs = without_logs();
    let config = BuildConfig { dry_run: true, ..quiet_config() };
    let mut builder = Builder::new(&state, config, 0);
    builder.add_target_by_name(&mut state, &disk, &logs, "b").unwrap();
    assert!(builder.begin(&mut state));
    let mut runner = DryRunCommandRunner::new();
    loop {
        match builder.next_step(runner.can_run_more()) {
            BuildStep::Start(edge) => {
                builder.start_edge(&mut state, &mut disk, &mut status, edge, 0).unwrap();
                runner.start_command(&state, edge).unwrap();
                builder.command_started();
            }
            BuildStep::Wait => {
                let mut r = runner.wait_for_command().unwrap();
                builder
                    .finish_command(&mut state, &mut disk, &mut logs, &mut status, &mut r, 0)
                    .unwrap();
                builder.command_ended(r.status, true);
            }
            BuildStep::Finished => break,
            BuildStep::Stuck => panic!("stuck"),
        }
    }
    assert_eq!(builder.edges_finished(), 1);
    assert!(!disk.contains("b"));
}

#[test]
fn rspfile_is_written_and_removed() {
    let mut disk = MemDisk::new();
    disk.create("a", b"a");
    let mut state = parse(
        &disk,
        "rule link\n  command = link @$out.rsp\n  rspfile = $out.rsp\n  \
         rspfile_content = $in\n\nbuild b: link a\n",
    );
    let mut seen: Option<Vec<u8>> = None;
    let ran = build(
        &mut state,
        &mut disk,
        &mut without_logs(),
        "b",
        &mut |s: &State, e: EdgeId, d: &mut MemDisk| {
            seen = d.contents("b.rsp");
            touch(s, e, d)
        },
    );
    assert_eq!(ran, 1);
    // Written during the build, deleted afterwards.
    assert_eq!(seen.unwrap(), b"a");
    assert!(!disk.contains("b.rsp"));
}

#[test]
fn restat_that_changes_nothing_stops_the_rebuild() {
    // `stamp` has restat and never modifies its output, so `final` must not be
    // rebuilt when only `in` changed.
    let mut disk = MemDisk::new();
    disk.create("in", b"a");
    let manifest = format!(
        "rule stamp\n  command = stamp\n  restat = 1\n\n{CAT}\
         build stamp.out: stamp in\nbuild final: cat stamp.out\n"
    );
    let mut state = parse(&disk, &manifest);
    let mut logs = with_build_log();

    // First build: both steps run.
    assert_eq!(build(&mut state, &mut disk, &mut logs, "final", &mut touch), 2);

    // Now change the input, but make `stamp` leave its output untouched.
    disk.tick();
    disk.create("in", b"b");
    state.reset();
    let ran = build(
        &mut state,
        &mut disk,
        &mut logs,
        "final",
        &mut |s: &State, e: EdgeId, d: &mut MemDisk| {
            if s.edge_rule_name(e) == "stamp" {
                (ExitStatus(0), String::new())
            } else {
                touch(s, e, d)
            }
        },
    );
    assert_eq!(ran, 1, "only the restat rule should run; `final` stays clean");
}

#[test]
fn restat_that_does_change_its_output_propagates() {
    let mut disk = MemDisk::new();
    disk.create("in", b"a");
    let manifest = format!(
        "rule stamp\n  command = stamp\n  restat = 1\n\n{CAT}\
         build stamp.out: stamp in\nbuild final: cat stamp.out\n"
    );
    let mut state = parse(&disk, &manifest);
    let mut logs = with_build_log();
    build(&mut state, &mut disk, &mut logs, "final", &mut touch);

    disk.tick();
    disk.create("in", b"b");
    state.reset();
    let ran = build(&mut state, &mut disk, &mut logs, "final", &mut touch);
    assert_eq!(ran, 2, "a changed stamp output must rebuild dependents");
}

#[test]
fn a_second_build_with_a_log_does_nothing() {
    let mut disk = MemDisk::new();
    disk.create("in", b"a");
    let mut state = parse(&disk, &format!("{CAT}build out: cat in\n"));
    let mut logs = with_build_log();
    assert_eq!(build(&mut state, &mut disk, &mut logs, "out", &mut touch), 1);

    state.reset();
    let ran = build(&mut state, &mut disk, &mut logs, "out", &mut touch);
    assert_eq!(ran, 0, "nothing should run the second time");
}

#[test]
fn a_changed_command_rebuilds_even_when_mtimes_are_fine() {
    let mut disk = MemDisk::new();
    disk.create("in", b"a");
    let mut logs = with_build_log();
    let mut state = parse(&disk, &format!("{CAT}build out: cat in\n"));
    build(&mut state, &mut disk, &mut logs, "out", &mut touch);
    // Same graph, different command line.
    let mut state = parse(
        &disk,
        "rule cat\n  command = cat -n $in > $out\n\nbuild out: cat in\n",
    );
    let ran = build(&mut state, &mut disk, &mut logs, "out", &mut touch);
    assert_eq!(ran, 1, "a new command hash must force a rebuild");
}

#[test]
fn a_generator_rule_ignores_command_changes() {
    let mut disk = MemDisk::new();
    disk.create("in", b"a");
    let mut logs = with_build_log();
    let mut state = parse(
        &disk,
        "rule gen\n  command = gen\n  generator = 1\n\nbuild out: gen in\n",
    );
    build(&mut state, &mut disk, &mut logs, "out", &mut touch);
    let mut state = parse(
        &disk,
        "rule gen\n  command = gen --different\n  generator = 1\n\nbuild out: gen in\n",
    );
    let ran = build(&mut state, &mut disk, &mut logs, "out", &mut touch);
    assert_eq!(ran, 0, "generator rules ignore command changes");
}

#[test]
fn stale_deps_log_entry_forces_a_rebuild() {
    let mut disk = MemDisk::new();
    disk.create("in", b"a");
    disk.create("dep.h", b"h");
    let manifest = "rule cc\n  command = cc\n  deps = gcc\n  depfile = $out.d\n\n\
                    build out: cc in\n";

    let mut state = parse(&disk, manifest);
    let mut deps_log = DepsLog::new();

    // Record deps whose mtime is older than the output: that is what a build
    // interrupted between writing the output and recording deps looks like.
    let out = state.lookup_node("out").unwrap();
    let dep = state.get_node("dep.h", 0);
    disk.create("out", b"built");
    deps_log
        .record_deps(&mut state, out, 1, &[dep], &mut Vec::new())
        .expect("record deps");

    let mut logs = Logs::new(Some(BuildLog::new()), Some(deps_log));
    let ran = build(&mut state, &mut disk, &mut logs, "out", &mut touch);
    assert_eq!(ran, 1, "stale deps info must force a rebuild");
}

#[test]
fn phony_output_used_as_an_input_is_transparent() {
    let mut disk = MemDisk::new();
    disk.create("in", b"a");
    let manifest = format!(
        "{CAT}rule touch\n  command = touch\n\n\
         build real: touch in\nbuild alias: phony real\nbuild out: cat in | alias\n"
    );
    let mut state = parse(&disk, &manifest);
    let mut logs = with_build_log();
    // `real` and `out` run; `alias` is phony and runs no command.
    assert_eq!(build(&mut state, &mut disk, &mut logs, "out", &mut touch), 2);

    state.reset();
    assert_eq!(build(&mut state, &mut disk, &mut logs, "out", &mut touch), 0);
}

#[test]
fn order_only_dependency_does_not_trigger_a_rebuild() {
    let mut disk = MemDisk::new();
    disk.create("in", b"a");
    disk.create("oo.in", b"o");
    let manifest = format!("{CAT}build oo: cat oo.in\nbuild out: cat in || oo\n");
    let mut state = parse(&disk, &manifest);
    let mut logs = with_build_log();
    assert_eq!(build(&mut state, &mut disk, &mut logs, "out", &mut touch), 2);

    // Rebuilding the order-only input alone must not rebuild `out`.
    disk.tick();
    disk.create("oo.in", b"changed");
    state.reset();
    let ran = build(&mut state, &mut disk, &mut logs, "out", &mut touch);
    assert_eq!(ran, 1, "only the order-only input should rebuild");
}

#[test]
fn implicit_dependency_does_trigger_a_rebuild() {
    let mut disk = MemDisk::new();
    disk.create("in", b"a");
    disk.create("imp", b"i");
    let mut state = parse(&disk, &format!("{CAT}build out: cat in | imp\n"));
    let mut logs = with_build_log();
    build(&mut state, &mut disk, &mut logs, "out", &mut touch);

    disk.tick();
    disk.create("imp", b"changed");
    state.reset();
    assert_eq!(build(&mut state, &mut disk, &mut logs, "out", &mut touch), 1);
}

#[test]
fn deleting_an_output_rebuilds_just_that_edge() {
    let mut disk = MemDisk::new();
    disk.create("a", b"a");
    let mut state = parse(&disk, &format!("{CAT}build b: cat a\nbuild c: cat b\n"));
    let mut logs = with_build_log();
    build(&mut state, &mut disk, &mut logs, "c", &mut touch);

    disk.remove_file("c").expect("remove");
    state.reset();
    assert_eq!(build(&mut state, &mut disk, &mut logs, "c", &mut touch), 1);
}

#[derive(Default)]
struct CountingStatus {
    added: usize,
    started: Vec<String>,
    finished: Vec<(String, i32)>,
    infos: Vec<String>,
}

impl Status for CountingStatus {
    type Model = ();

    fn edge_added_to_plan(&mut self, _state: &State, _edge: EdgeId) {
        self.added += 1;
    }
    fn build_edge_started(&mut self, state: &State, edge: EdgeId, _start: i64) {
        self.started.push(state.edge_binding(edge, "description"));
    }
    fn build_edge_finished(
        &mut self,
        state: &State,
        edge: EdgeId,
        _start: i64,
        _end: i64,
        status: ExitStatus,
        _output: &str,
    ) {
        self.finished.push((state.edge_binding(edge, "description"), status.code()));
    }
    fn explanations(&mut self, _lines: &[String]) {}
    fn error(&mut self, _message: &str) {}
    fn info(&mut self, message: &str) {
        self.infos.push(message.to_string());
    }
}

#[test]
fn a_build_can_run_entirely_in_memory() {
    let mut disk = MemDisk::new();
    disk.create("a", b"a\n");
    let mut state = parse(&disk, &format!("{CAT_DESCRIBED}build b: cat a\nbuild c: cat b\n"));
    let mut commands: Vec<String> = Vec::new();
    let mut status = CountingStatus::default();
    let mut logs = without_logs();

    let mut builder = Builder::new(&state, quiet_config(), 0);
    builder.add_target_by_name(&mut state, &disk, &logs, "c").expect("add target");
    assert!(!builder.already_up_to_date());
    drive(
        &mut builder,
        &mut state,
        &mut disk,
        &mut logs,
        &mut status,
        8,
        &mut |s: &State, e: EdgeId, d: &mut MemDisk| {
            commands.push(s.edge_command(e));
            d.tick();
            // Pretend the command concatenated its inputs.
            let mut contents: Vec<u8> = Vec::new();
            for &input in s.edge(e).inputs() {
                contents.extend(d.contents(s.node(input).path()).unwrap_or_default());
            }
            for &out in s.edge(e).outputs() {
                d.create(s.node(out).path(), &contents);
            }
            (ExitStatus(0), String::new())
        },
    )
    .expect("build");

    assert_eq!(commands, vec!["cat a > b".to_string(), "cat b > c".to_string()]);
    assert_eq!(disk.contents("c").unwrap(), b"a\n");
    assert_eq!(status.added, 2);
    assert_eq!(status.started.len(), 2);
    assert_eq!(status.finished[0].1, 0);
}

#[test]
fn a_failed_command_stops_the_build_and_reports_the_code() {
    let mut disk = MemDisk::new();
    disk.create("a", b"a\n");
    let mut state = parse(&disk, &format!("{CAT_DESCRIBED}build b: cat a\nbuild c: cat b\n"));
    let mut status = CountingStatus::default();
    let mut logs = without_logs();

    let mut builder = Builder::new(&state, quiet_config(), 0);
    builder.add_target_by_name(&mut state, &disk, &logs, "c").expect("add target");
    let r = drive(
        &mut builder,
        &mut state,
        &mut disk,
        &mut logs,
        &mut status,
        8,
        &mut |_: &State, _: EdgeId, _: &mut MemDisk| (ExitStatus(2), "it broke".to_string()),
    );
    assert!(r.is_err());
    assert_eq!(builder.exit_code(), ExitStatus(2));
    assert_eq!(status.finished.len(), 1, "the second edge never ran");
}

#[test]
fn state_exposes_the_graph() {
    let disk = MemDisk::new();
    let state = parse(
        &disk,
        "cflags = -O2\n\
         rule cc\n  command = gcc $cflags -c $in -o $out\n\n\
         build a.o: cc a.c | header.h || dir\nbuild all: phony a.o\ndefault all\n",
    );

    assert_eq!(state.edges().len(), 2);
    let edge = EdgeId(0);
    assert_eq!(state.edge_rule_name(edge), "cc");
    assert_eq!(state.edge_command(edge), "gcc -O2 -c a.c -o a.o");
    assert_eq!(state.edge(edge).explicit_deps(), 1);
    assert_eq!(state.edge(edge).implicit_deps(), 1);
    assert_eq!(state.edge(edge).order_only_deps(), 1);

    let node = state.lookup_node("a.o").expect("node exists");
    assert_eq!(state.node(node).in_edge(), Some(edge));
    assert_eq!(state.node(node).out_edges().len(), 1);

    let defaults = state.default_nodes().expect("defaults");
    assert_eq!(defaults.len(), 1);
    assert_eq!(state.node(defaults[0]).path(), "all");
}

#[test]
fn tools_are_callable_from_the_library() {
    let disk = MemDisk::new();
    let mut state = parse(&disk, &format!("{CAT_DESCRIBED}build b: cat a\nbuild c: cat b\n"));
    let c = state.lookup_node("c").unwrap();

    assert_eq!(tools::targets_all(&state), "b: cat\nc: cat\n");
    assert_eq!(tools::commands(&state, &[c], false), "cat a > b\ncat b > c\n");
    assert_eq!(
        tools::inputs(&state, &[c], tools::InputsOptions::default()),
        "a\nb\n"
    );
    let compdb = tools::compdb(&state, &[], false, "/work");
    assert!(compdb.contains("\"output\": \"b\""));
    let dot = tools::graph(&mut state, &disk, &[c]);
    assert!(dot.starts_with("digraph ninja {"));
}

#[test]
fn engine_loads_manifest_text_without_touching_disk() {
    let engine = Engine::from_manifest_text(
        MemDisk::new(),
        "build.ninja",
        &format!("{CAT_DESCRIBED}build b: cat a\n"),
        EngineOptions::default(),
    )
    .expect("load");
    assert_eq!(engine.state().edges().len(), 1);
    assert!(engine.warnings().is_empty());
}

#[test]
fn verbosity_is_re_exported_consistently() {
    // `shuriken::build::Verbosity` and `shuriken::status::Verbosity` are the
    // same type, so either import works in embedder code.
    let a: Verbosity = Verbosity::Normal;
    let b: StatusVerbosity = StatusVerbosity::Normal;
    assert_eq!(a, b);
}

/// README: "Run commands somewhere else."
struct Recorder(Vec<String>, Vec<EdgeId>);

impl CommandRunner for Recorder {
    fn can_run_more(&self) -> usize {
        1
    }
    fn start_command(&mut self, state: &State, edge: EdgeId) -> shuriken::Result<()> {
        self.0.push(state.edge_command(edge));
        self.1.push(edge);
        Ok(())
    }
    fn wait_for_command(&mut self) -> Option<CommandResult> {
        let edge = self.1.pop()?;
        Some(CommandResult { edge, status: ExitStatus(0), output: String::new() })
    }
    fn active_edges(&self) -> Vec<EdgeId> {
        Vec::new()
    }
    fn abort(&mut self) {}
}

#[test]
fn readme_examples_compile_and_the_runner_works() {
    let mut disk = shuriken::MemDisk::new();
    disk.create("a", b"a\n");
    let mut state = State::new();
    let mut parser = shuriken::ManifestParser::new(quiet_parser());
    parser
        .parse_text(
            &mut state,
            &disk,
            "build.ninja",
            b"rule cat\n  command = cat $in > $out\n\nbuild b: cat a\n",
        )
        .expect("parse");

    let mut status = NullStatus;
    let mut logs = without_logs();
    let mut builder = shuriken::Builder::new(
        &state,
        shuriken::BuildConfig { verbosity: shuriken::Verbosity::Quiet, ..Default::default() },
        0,
    );
    builder.add_target_by_name(&mut state, &disk, &logs, "b").expect("add target");
    assert!(builder.begin(&mut state));
    let mut runner = Recorder(Vec::new(), Vec::new());
    loop {
        match builder.next_step(runner.can_run_more()) {
            BuildStep::Start(edge) => {
                builder.start_edge(&mut state, &mut disk, &mut status, edge, 0).unwrap();
                runner.start_command(&state, edge).unwrap();
                builder.command_started();
            }
            BuildStep::Wait => {
                let mut r = runner.wait_for_command().unwrap();
                builder
                    .finish_command(&mut state, &mut disk, &mut logs, &mut status, &mut r, 0)
                    .expect("build");
                builder.command_ended(r.status, true);
            }
            BuildStep::Finished => break,
            BuildStep::Stuck => panic!("stuck"),
        }
    }
    assert_eq!(builder.edges_finished(), 1);
    assert_eq!(runner.0, vec!["cat a > b".to_string()]);
}

#[test]
fn dependencies_are_read_after_each_command() {
    let mut disk = MemDisk::new();
    disk.create("in.c", b"x");
    disk.create("h.h", b"h");
    let manifest = "rule cc\n  command = cc\n  deps = gcc\n  depfile = $out.d\n\n\
                    build out.o: cc in.c\n";
    let mut state = parse(&disk, manifest);
    let mut logs = Logs::new(Some(BuildLog::new()), Some(DepsLog::new()));
    let mut compile = |s: &State, e: EdgeId, d: &mut MemDisk| {
        let r = touch(s, e, d);
        d.create("out.o.d", b"out.o: in.c h.h\n");
        r
    };
    assert_eq!(build(&mut state, &mut disk, &mut logs, "out.o", &mut compile), 1);
    assert!(!disk.contains("out.o.d"), "the depfile goes once it is recorded");
    let out = state.lookup_node("out.o").unwrap();
    let deps = logs.deps_log.as_ref().unwrap().get_deps(&state, out).unwrap();
    let paths: Vec<&str> = deps.nodes.iter().map(|&n| state.node(n).path()).collect();
    assert_eq!(paths, vec!["in.c", "h.h"]);

    state.reset();
    assert_eq!(build(&mut state, &mut disk, &mut logs, "out.o", &mut compile), 0);
    disk.tick();
    disk.create("h.h", b"changed");
    state.reset();
    assert_eq!(build(&mut state, &mut disk, &mut logs, "out.o", &mut compile), 1);
}

#[test]
fn include_notes_are_taken_out_of_what_a_command_prints() {
    let mut disk = MemDisk::new();
    disk.create("in.c", b"x");
    let manifest = "rule cc\n  command = cc\n  deps = msvc\n\nbuild out.o: cc in.c\n";
    let mut state = parse(&disk, manifest);
    let mut logs = Logs::new(Some(BuildLog::new()), Some(DepsLog::new()));
    let mut builder = Builder::new(&state, quiet_config(), 0);
    builder.add_target_by_name(&mut state, &disk, &logs, "out.o").unwrap();
    assert!(builder.begin(&mut state));
    let edge = EdgeId(0);
    assert!(matches!(builder.next_step(1), BuildStep::Start(_)));
    builder.start_edge(&mut state, &mut disk, &mut NullStatus, edge, 0).unwrap();
    builder.command_started();
    touch(&state, edge, &mut disk);
    let mut result = CommandResult {
        edge,
        status: ExitStatus(0),
        output: "warning: x\nNote: including file: foo.h\n".to_string(),
    };
    builder
        .finish_command(&mut state, &mut disk, &mut logs, &mut NullStatus, &mut result, 0)
        .unwrap();
    assert_eq!(result.output, "warning: x\n");
    assert!(state.lookup_node("foo.h").is_some());
}

#[test]
fn deps_without_a_depfile_make_the_edge_fail() {
    let mut disk = MemDisk::new();
    disk.create("in.c", b"x");
    let manifest = "rule cc\n  command = cc\n  deps = gcc\n\nbuild out.o: cc in.c\n";
    let mut state = parse(&disk, manifest);
    let mut logs = without_logs();
    let mut builder = Builder::new(&state, quiet_config(), 0);
    builder.add_target_by_name(&mut state, &disk, &logs, "out.o").unwrap();
    let e = drive(
        &mut builder,
        &mut state,
        &mut disk,
        &mut logs,
        &mut NullStatus,
        1,
        &mut touch,
    )
    .unwrap_err();
    assert_eq!(e.message(), "subcommand failed");
    assert_eq!(builder.exit_code(), ExitStatus(1));
}

#[test]
fn interrupted_commands_leave_no_outputs() {
    let mut disk = MemDisk::new();
    disk.create("a", b"a");
    let mut state = parse(&disk, &format!("{CAT}build b: cat a\n"));
    let logs = without_logs();
    let mut builder = Builder::new(&state, quiet_config(), 0);
    builder.add_target_by_name(&mut state, &disk, &logs, "b").unwrap();
    assert!(builder.begin(&mut state));
    builder.start_edge(&mut state, &mut disk, &mut NullStatus, EdgeId(0), 0).unwrap();
    assert!(disk.contains(".ninja_lock"));
    disk.tick();
    disk.create("b", b"half");
    builder.cleanup(&state, &mut disk, &mut NullStatus, &[EdgeId(0)]);
    assert!(!disk.contains("b"));
    assert!(!disk.contains(".ninja_lock"));
    builder.stop(ExitStatus::interruption());
    assert!(builder.exit_code().interrupted());
    assert_eq!(Error::Interrupted.message(), "interrupted by user");
}

#[test]
fn failures_use_up_what_is_allowed() {
    let mut disk = MemDisk::new();
    let manifest = "rule fail\n  command = false\n\n\
                    build f1: fail\nbuild f2: fail\nbuild all: phony f1 f2\n";
    for (allowed, text) in [
        (1, "subcommand failed"),
        (2, "subcommands failed"),
        (9, "cannot make progress due to previous errors"),
    ] {
        let mut state = parse(&disk, manifest);
        let mut logs = without_logs();
        let config = BuildConfig { failures_allowed: allowed, ..quiet_config() };
        let mut builder = Builder::new(&state, config, 0);
        builder.add_target_by_name(&mut state, &disk, &logs, "all").unwrap();
        let e = drive(
            &mut builder,
            &mut state,
            &mut disk,
            &mut logs,
            &mut NullStatus,
            1,
            &mut |_: &State, _: EdgeId, _: &mut MemDisk| (ExitStatus(7), String::new()),
        )
        .unwrap_err();
        assert_eq!(e.message(), text);
        assert_eq!(builder.exit_code(), ExitStatus(7));
    }
}

#[test]
fn no_more_commands_start_than_there_is_room_for() {
    let mut disk = MemDisk::new();
    let mut manifest = String::from("rule t\n  command = t\n\n");
    for i in 0..5 {
        manifest.push_str(&format!("build o{i}: t\n"));
    }
    manifest.push_str("build all: phony o0 o1 o2 o3 o4\n");
    let mut state = parse(&disk, &manifest);
    let logs = without_logs();
    let mut builder = Builder::new(&state, quiet_config(), 0);
    builder.add_target_by_name(&mut state, &disk, &logs, "all").unwrap();
    assert!(builder.begin(&mut state));
    let mut started: usize = 0;
    while let BuildStep::Start(edge) = builder.next_step(3 - started) {
        builder.start_edge(&mut state, &mut disk, &mut NullStatus, edge, 0).unwrap();
        builder.command_started();
        started += 1;
    }
    assert_eq!(started, 3);
}

#[test]
fn a_recorded_command_stays_recorded() {
    let mut disk = MemDisk::new();
    disk.create("in", b"x");
    let manifest = "rule r\n  command = c\n\n\
                    build dd: r in\nbuild out: r || dd\n  dyndep = dd\n";
    let mut state = parse(&disk, manifest);
    let mut logs = with_build_log();
    let mut builder = Builder::new(&state, quiet_config(), 0);
    builder.add_target_by_name(&mut state, &disk, &logs, "out").unwrap();
    assert!(builder.begin(&mut state));
    let edge = EdgeId(0);
    assert!(matches!(builder.next_step(1), BuildStep::Start(_)));
    let mut status = RecordingStatus::default();
    builder.start_edge(&mut state, &mut disk, &mut status, edge, 0).unwrap();
    builder.command_started();
    disk.create("dd", b"nonsense\n");
    let mut result = CommandResult { edge, status: ExitStatus(0), output: "o".to_string() };
    // The dyndep file that the command has made cannot be loaded.
    builder
        .finish_command(&mut state, &mut disk, &mut logs, &mut status, &mut result, 0)
        .unwrap_err();
    assert!(logs.lines.contains("\tdd\t"));
    assert_eq!(status.started, vec!["c".to_string()]);
    assert_eq!(status.finished, vec!["c".to_string()]);
    assert_eq!(status.output, vec!["o".to_string()]);
}

#[test]
fn explanations_reach_the_status() {
    let mut disk = MemDisk::new();
    disk.create("a", b"a");
    let mut state = parse(&disk, &format!("{CAT}build b: cat a\n"));
    let logs = without_logs();
    let config = BuildConfig { explain: true, ..quiet_config() };
    let mut builder = Builder::new(&state, config, 0);
    builder.add_target_by_name(&mut state, &disk, &logs, "b").unwrap();
    assert!(builder.explanations().is_some());
    assert_eq!(
        builder.explanation_lines(&state, EdgeId(0)),
        vec!["output b doesn't exist".to_string()]
    );
}

#[test]
fn rules_decide_what_a_command_does() {
    let mut disk = MemDisk::new();
    disk.create("in", b"x");
    let manifest = "rule one\n  command = one\nrule two\n  command = two\n\n\
                    build a: one in\nbuild b: two a\n";
    let mut state = parse(&disk, manifest);
    let mut counts: HashMap<String, usize> = HashMap::new();
    build(
        &mut state,
        &mut disk,
        &mut without_logs(),
        "b",
        &mut |s: &State, e: EdgeId, d: &mut MemDisk| {
            *counts.entry(s.edge_rule_name(e).to_string()).or_default() += 1;
            touch(s, e, d)
        },
    );
    assert_eq!(counts["one"], 1);
    assert_eq!(counts["two"], 1);
}

#[test]
fn a_manifest_that_is_broken_when_it_is_read_again_takes_the_place_of_the_graph() {
    let mut disk = MemDisk::new();
    disk.create("build.ninja", format!("{CAT}build b: cat a\nbuild c: cat b\n").as_bytes());
    let mut engine = Engine::load(disk, "build.ninja", EngineOptions::default()).unwrap();
    assert_eq!(engine.state().edges().len(), 2);
    engine.open_logs(Some(BuildLog::new().text().as_bytes()), None).unwrap();
    assert!(engine.build_log_found);
    engine
        .disk
        .create("build.ninja", format!("{CAT}build b: cat a\nbuild c: dog b\n").as_bytes());
    let e = engine.reload().unwrap_err();
    assert!(e.message().contains("unknown build rule 'dog'"));
    assert_eq!(engine.state().edges().len(), 1);
    assert!(engine.state().lookup_node("c").is_none());
    // Whether there is a log is found out when the logs are opened again.
    assert!(engine.build_log_found);
    assert!(!engine.deps_log_found);
}
