//! The command-line tool as a whole, in memory: what it reads, builds, prints
//! and exits with.

use std::collections::VecDeque;

use shuriken::build::{BuildConfig, BuildStep, Builder};
use shuriken::build_log::BuildLog;
use shuriken::cli::outcome::{build_stopped, failure, Message};
use shuriken::cli::request::{tool_request, ToolRequest};
use shuriken::cli::{is_float_text, parse_args, tool_names, usage, ParsedLine};
use shuriken::deps_log::{header_bytes, Repair};
use shuriken::disk::{DiskInterface, MemDisk};
use shuriken::engine::{Engine, EngineOptions, ManifestStep};
use shuriken::error::Error;
use shuriken::exec::{split_windows_command, CommandResult, ExitStatus};
use shuriken::parse::{ParserOptions, PhonyCycleAction};
use shuriken::plan::PlanChange;
use shuriken::state::{EdgeId, State};
use shuriken::status::{ConsoleStatus, LinePrinter, ProgressTexts, Shown, Status, Verbosity};

/// A display that keeps what would be shown.
struct Screen {
    inner: ConsoleStatus,
    out: String,
    err: String,
}

fn texts() -> ProgressTexts {
    ProgressTexts {
        overall_rate: "?".to_string(),
        current_rate: "?".to_string(),
        elapsed: "0.000".to_string(),
        elapsed_clock: "00:00".to_string(),
        eta: "?".to_string(),
        eta_clock: "?".to_string(),
        predicted: "  0%".to_string(),
    }
}

impl Screen {
    fn show(&mut self, s: Shown) {
        self.out.push_str(&s.before);
        self.err.push_str(&s.err);
        self.out.push_str(&s.out);
    }
}

impl Status for Screen {
    type Model = ();

    fn edge_added_to_plan(&mut self, state: &State, edge: EdgeId) {
        self.inner.edge_added_to_plan(state, edge);
    }
    fn edge_removed_from_plan(&mut self, state: &State, edge: EdgeId) {
        self.inner.edge_removed_from_plan(state, edge);
    }
    fn build_started(&mut self) {
        self.inner.build_started();
    }
    fn build_finished(&mut self) {
        let text = self.inner.build_finished(None);
        self.out.push_str(&text);
    }
    fn build_edge_started(&mut self, state: &State, edge: EdgeId, start: i64) {
        let s = self.inner.build_edge_started(state, edge, start, &texts(), None);
        self.show(s);
    }
    fn build_edge_finished(
        &mut self,
        state: &State,
        edge: EdgeId,
        start: i64,
        end: i64,
        status: ExitStatus,
        output: &str,
    ) {
        let s = self
            .inner
            .build_edge_finished(state, edge, start, end, status, output, &texts(), None);
        self.show(s);
    }
    fn explanations(&mut self, lines: &[String]) {
        self.inner.explanations(lines.to_vec());
    }
    fn info(&mut self, message: &str) {
        let text = self.inner.message_follows();
        self.out.push_str(&text);
        self.out.push_str(&format!("shuriken: {message}\n"));
    }
    fn error(&mut self, message: &str) {
        let text = self.inner.message_follows();
        self.out.push_str(&text);
        self.err.push_str(&format!("shuriken: error: {message}\n"));
    }
}

/// What one run of the tool came to.
struct Run {
    code: i32,
    stdout: String,
    stderr: String,
    ran: usize,
}

impl Run {
    fn all(&self) -> String {
        format!("{}{}", self.stdout, self.stderr)
    }
}

/// A directory in memory in which the tool is run.
struct Project {
    disk: Option<MemDisk>,
    format: String,
}

impl Project {
    fn new() -> Project {
        Project { disk: Some(MemDisk::new()), format: "[%f/%t] ".to_string() }
    }

    fn disk(&mut self) -> &mut MemDisk {
        self.disk.as_mut().unwrap()
    }

    fn write(&mut self, path: &str, text: &str) {
        self.disk().create(path, text.as_bytes());
    }

    fn touch(&mut self, path: &str) {
        self.disk().tick();
        let bytes = self.disk().contents(path).unwrap_or_default();
        self.disk().create(path, &bytes);
    }

    fn remove(&mut self, path: &str) {
        self.disk().remove_file(path).unwrap();
    }

    fn has(&mut self, path: &str) -> bool {
        self.disk().contains(path)
    }

    fn read(&mut self, path: &str) -> String {
        String::from_utf8(self.disk().contents(path).expect("file")).unwrap()
    }

    fn run(&mut self, args: &[&str]) -> Run {
        let args: Vec<String> = args.iter().map(|a| a.to_string()).collect();
        let line = match parse_args(&args, 4) {
            ParsedLine::Exit(code, line) => {
                return Run {
                    code: i32::from(code),
                    stdout: line.out,
                    stderr: line.err,
                    ran: 0,
                };
            }
            ParsedLine::Run(line) => line,
        };
        let mut run = Run { code: 0, stdout: line.out, stderr: line.err, ran: 0 };
        let options = EngineOptions {
            build: line.config,
            parser: ParserOptions {
                phony_cycle_action: if line.options.phony_cycle_should_err {
                    PhonyCycleAction::Error
                } else {
                    PhonyCycleAction::Warn
                },
                quiet: false,
            },
            rebuild_manifest: line.options.tool.is_none(),
        };
        let disk = self.disk.take().unwrap();
        let kept = copy_of(&disk);
        let mut engine = match Engine::load(disk, &line.options.input_file, options) {
            Ok(engine) => engine,
            Err(e) => {
                self.disk = Some(kept);
                let (out, err, code) = failure(&e);
                run.stdout.push_str(&out);
                run.stderr.push_str(&err);
                run.code = code;
                return run;
            }
        };
        open_logs(&mut engine);
        for w in engine.take_warnings() {
            run.stderr.push_str(&format!("shuriken: warning: {w}\n"));
        }
        if let Some(tool) = &line.options.tool {
            let request = tool_request(tool, &line.options.tool_args);
            if matches!(request, ToolRequest::Recompact) {
                assert!(engine.can_recompact());
            }
            match engine.run_tool(request, "/work") {
                Ok(report) => {
                    run.code = report.code;
                    run.stdout.push_str(&report.out);
                    run.stderr.push_str(&report.err);
                    if let Some(text) = report.build_log {
                        let path = engine.build_log_path();
                        engine.disk.create(&path, text.as_bytes());
                    }
                    if let Some(bytes) = report.deps_log {
                        let path = engine.deps_log_path();
                        engine.disk.create(&path, &bytes);
                    }
                }
                Err(e) => {
                    let (out, err, code) = failure(&e);
                    run.stdout.push_str(&out);
                    run.stderr.push_str(&err);
                    run.code = code;
                }
            }
            self.disk = Some(engine.disk);
            return run;
        }

        let printer = LinePrinter::for_environment(false, "xterm", None);
        let mut screen = Screen {
            inner: ConsoleStatus::new(line.config.verbosity, printer, self.format.clone()),
            out: String::new(),
            err: String::new(),
        };
        let result = build(&mut engine, &line.options.targets, &mut screen, &mut run.ran);
        match result {
            Ok(true) => screen.info("no work to do."),
            Ok(false) => {}
            Err(e) => {
                let (message, code) = build_stopped(&e, engine.exit_code());
                match message {
                    Message::Info(t) => screen.info(&t),
                    Message::Error(t) => screen.error(&t),
                    Message::Plain(t) => screen.err.push_str(&t),
                }
                run.code = code;
            }
        }
        run.stdout.push_str(&screen.out);
        run.stderr.push_str(&screen.err);
        self.disk = Some(engine.disk);
        run
    }
}

fn copy_of(disk: &MemDisk) -> MemDisk {
    let mut copy = MemDisk::new();
    while copy.now() < disk.now() {
        copy.tick();
    }
    for path in disk.paths() {
        copy.create(&path, &disk.contents(&path).unwrap());
    }
    copy
}

fn open_logs(engine: &mut Engine<MemDisk>) {
    let log_path = engine.build_log_path();
    let deps_path = engine.deps_log_path();
    let log = engine.disk.contents(&log_path);
    let deps = engine.disk.contents(&deps_path);
    let files = engine.open_logs(log.as_deref(), deps.as_deref()).expect("logs");
    if files.remove_build_log {
        engine.disk.remove_file(&log_path).unwrap();
    }
    if let Some(text) = files.build_log {
        engine.disk.create(&log_path, text.as_bytes());
    }
    match files.deps_repair {
        Repair::Keep => {}
        Repair::Remove => {
            engine.disk.remove_file(&deps_path).unwrap();
        }
        Repair::Truncate(n) => {
            let bytes = engine.disk.contents(&deps_path).unwrap();
            engine.disk.create(&deps_path, &bytes[..n]);
        }
    }
    if let Some(bytes) = files.deps_log {
        engine.disk.create(&deps_path, &bytes);
    }
}

fn append(disk: &mut MemDisk, path: &str, header: &[u8], data: &[u8]) {
    let mut bytes = disk.contents(path).unwrap_or_default();
    if bytes.is_empty() {
        bytes.extend_from_slice(header);
    }
    bytes.extend_from_slice(data);
    disk.create(path, &bytes);
}

fn flush(engine: &mut Engine<MemDisk>) {
    let lines = std::mem::take(&mut engine.logs.lines);
    let bytes = std::mem::take(&mut engine.logs.bytes);
    if engine.config().dry_run {
        return;
    }
    if !lines.is_empty() {
        let path = engine.build_log_path();
        let header = BuildLog::new().text();
        append(&mut engine.disk, &path, header.as_bytes(), lines.as_bytes());
    }
    if !bytes.is_empty() {
        let path = engine.deps_log_path();
        append(&mut engine.disk, &path, &header_bytes(), &bytes);
    }
}

/// Build, and say whether there was nothing to do.
fn build(
    engine: &mut Engine<MemDisk>,
    names: &[String],
    screen: &mut Screen,
    ran: &mut usize,
) -> Result<bool, Error> {
    let mut cycle = 0;
    loop {
        if engine.start_cycle(cycle)? {
            let rebuilt = rebuild_manifest(engine, screen, ran)?;
            match engine.after_manifest(rebuilt) {
                ManifestStep::Build => {}
                ManifestStep::Reload => {
                    engine.reload()?;
                    open_logs(engine);
                    cycle += 1;
                    continue;
                }
                ManifestStep::Stop(summary) => {
                    assert!(summary.manifest_rebuilt);
                    return Ok(false);
                }
            }
        }
        engine.parse_previous_elapsed_times();
        let targets = engine.resolve_targets(names)?;
        let mut builder = engine.builder(0);
        for t in targets {
            engine.add_target(&mut builder, t)?;
        }
        if builder.already_up_to_date() {
            return Ok(true);
        }
        let result = run_builder(engine, &mut builder, screen, ran);
        engine.exit_code = builder.exit_code();
        result?;
        return Ok(false);
    }
}

fn rebuild_manifest(
    engine: &mut Engine<MemDisk>,
    screen: &mut Screen,
    ran: &mut usize,
) -> Result<bool, Error> {
    let node = match engine.manifest_target()? {
        Some(node) => node,
        None => return Ok(false),
    };
    let mut builder = engine.builder(0);
    engine.add_target(&mut builder, node)?;
    if builder.already_up_to_date() {
        return Ok(false);
    }
    let error = run_builder(engine, &mut builder, screen, ran).err();
    engine.manifest_built(node, error, builder.exit_code())
}

fn tell(engine: &Engine<MemDisk>, builder: &mut Builder, screen: &mut Screen) {
    for change in builder.take_plan_changes() {
        match change {
            PlanChange::Added(e) => screen.edge_added_to_plan(&engine.state, e),
            PlanChange::Removed(e) => screen.edge_removed_from_plan(&engine.state, e),
        }
    }
}

fn run_builder(
    engine: &mut Engine<MemDisk>,
    builder: &mut Builder,
    screen: &mut Screen,
    ran: &mut usize,
) -> Result<(), Error> {
    tell(engine, builder, screen);
    if !builder.begin(&mut engine.state) {
        return Ok(());
    }
    screen.build_started();
    let limit = engine.config().parallelism.min(64);
    let mut running: VecDeque<CommandResult> = VecDeque::new();
    let result = loop {
        match builder.next_step(limit - running.len()) {
            BuildStep::Start(edge) => {
                let e = &mut *engine;
                builder.start_edge(&mut e.state, &mut e.disk, screen, edge, 0)?;
                if e.state.edge_is_phony(edge) {
                    builder.finish_phony(&mut e.state, &e.disk, &e.logs, edge)?;
                    tell(engine, builder, screen);
                    continue;
                }
                let command = e.state.edge_command_checked(edge).unwrap();
                let (status, output) = if e.options.build.dry_run {
                    (ExitStatus(0), String::new())
                } else {
                    shell(&mut e.disk, &command)
                };
                *ran += 1;
                running.push_back(CommandResult { edge, status, output });
                builder.command_started();
            }
            BuildStep::Wait => {
                let waited = running.pop_front();
                assert!(!Builder::is_interrupted(&waited));
                let mut result = waited.unwrap();
                let e = &mut *engine;
                let finished = builder.finish_command(
                    &mut e.state,
                    &mut e.disk,
                    &mut e.logs,
                    screen,
                    &mut result,
                    0,
                );
                flush(engine);
                builder.command_ended(result.status, finished.is_ok());
                tell(engine, builder, screen);
                finished?;
            }
            BuildStep::Finished => break Ok(()),
            BuildStep::Stuck => break Err(builder.stuck_error()),
        }
    };
    builder.cleanup(&engine.state, &mut engine.disk, screen, &[]);
    screen.build_finished();
    result
}

/// A shell with a handful of commands, joined by `&&`. Time passes.
fn shell(disk: &mut MemDisk, command: &str) -> (ExitStatus, String) {
    let mut output = String::new();
    for part in command.split(" && ") {
        let words: Vec<&str> = part.split(' ').collect();
        disk.tick();
        match words[0] {
            "cp" => {
                let args: Vec<&&str> = words[1..].iter().filter(|w| !w.starts_with('-')).collect();
                match disk.contents(args[0]) {
                    Some(bytes) => disk.create(args[1], &bytes),
                    None => return (ExitStatus(1), format!("cp: no {}\n", args[0])),
                }
            }
            "touch" => disk.create(words[1], b""),
            "deps" => {
                let text = format!("{}: {}\n", words[1], words[2..].join(" "));
                disk.create(&format!("{}.d", words[1]), text.as_bytes());
            }
            "dyndep" => {
                let text = format!(
                    "ninja_dyndep_version = 1\nbuild {}: dyndep | {}\n",
                    words[2], words[3]
                );
                disk.create(words[1], text.as_bytes());
            }
            "regen" => {
                let bytes = disk.contents("new.ninja").unwrap();
                disk.create("build.ninja", &bytes);
            }
            "exit" => return (ExitStatus(words[1].parse().unwrap()), output),
            "echo" => {
                output.push_str(&words[1..].join(" "));
                output.push('\n');
            }
            "true" => {}
            other => return (ExitStatus(127), format!("{other}: not found\n")),
        }
    }
    (ExitStatus(0), output)
}

const COPY: &str = "rule copy\n  command = cp $in $out\n  description = COPY $out\n\n";

fn simple_project() -> Project {
    let mut p = Project::new();
    p.write("in.txt", "hello\n");
    p.write(
        "build.ninja",
        &format!(
            "{COPY}build mid.txt: copy in.txt\nbuild out.txt: copy mid.txt\ndefault out.txt\n"
        ),
    );
    p
}

#[test]
fn builds_then_does_nothing() {
    let mut p = simple_project();
    let run = p.run(&["-j1"]);
    assert_eq!(run.code, 0, "{}", run.all());
    assert_eq!(run.ran, 2, "{}", run.all());
    assert_eq!(p.read("out.txt"), "hello\n");
    assert!(p.has(".ninja_log"));

    let run = p.run(&["-j1"]);
    assert_eq!(run.code, 0);
    assert_eq!(run.ran, 0);
    assert!(run.stdout.contains("no work to do"), "{}", run.all());
}

#[test]
fn rebuilds_only_what_changed() {
    let mut p = simple_project();
    p.run(&["-j1"]);
    p.touch("in.txt");
    assert_eq!(p.run(&["-j1"]).ran, 2);
    // Deleting an intermediate file brings back just that step and its
    // dependents.
    p.remove("mid.txt");
    assert_eq!(p.run(&["-j1"]).ran, 2);
}

#[test]
fn changing_a_command_forces_a_rebuild() {
    let mut p = simple_project();
    p.run(&["-j1"]);
    p.write(
        "build.ninja",
        "rule copy\n  command = cp -f $in $out\n  description = COPY $out\n\n\
         build mid.txt: copy in.txt\nbuild out.txt: copy mid.txt\ndefault out.txt\n",
    );
    assert_eq!(p.run(&["-j1"]).ran, 2);
}

#[test]
fn failing_command_reports_and_exits_nonzero() {
    let mut p = Project::new();
    p.write(
        "build.ninja",
        "rule fail\n  command = echo problem && exit 7\n\nbuild out: fail\n",
    );
    let run = p.run(&["-j1"]);
    assert_eq!(run.code, 7, "{}", run.all());
    assert!(run.all().contains("FAILED: [code=7]"), "{}", run.all());
    assert!(run.all().contains("problem"), "{}", run.all());
    assert!(run.stdout.contains("build stopped: subcommand failed."), "{}", run.all());
}

#[test]
fn keep_going_runs_independent_work() {
    let mut p = Project::new();
    p.write(
        "build.ninja",
        "rule fail\n  command = exit 1\n\nrule touch\n  command = touch $out\n\n\
         build f1: fail\nbuild f2: fail\nbuild ok: touch\n\
         build all: phony f1 f2 ok\ndefault all\n",
    );
    let run = p.run(&["-j1", "-k", "0"]);
    assert_ne!(run.code, 0);
    assert!(p.has("ok"), "independent work should still run");
    assert!(
        run.stdout
            .contains("build stopped: cannot make progress due to previous errors."),
        "{}",
        run.all()
    );
}

#[test]
fn missing_input_is_reported_as_an_error() {
    let mut p = Project::new();
    p.write("build.ninja", &format!("{COPY}build out: copy nope\n"));
    let run = p.run(&["-j1"]);
    assert_eq!(run.code, 1);
    assert!(
        run.stderr
            .contains("'nope', needed by 'out', missing and no known rule to make it"),
        "{}",
        run.all()
    );
}

#[test]
fn dependency_cycle_is_reported() {
    let mut p = Project::new();
    p.write("build.ninja", &format!("{COPY}build a: copy b\nbuild b: copy a\n"));
    let run = p.run(&["-j1", "a"]);
    assert_eq!(run.code, 1);
    assert!(run.stderr.contains("dependency cycle: a -> b -> a"), "{}", run.all());
}

#[test]
fn manifest_errors_point_at_the_line() {
    let mut p = Project::new();
    p.write("build.ninja", "rule r\n  command = x\n\nbuild out: nosuchrule\n");
    let run = p.run(&["-j1"]);
    assert_eq!(run.code, 1);
    assert!(
        run.stderr.contains("build.ninja:4: unknown build rule 'nosuchrule'"),
        "{}",
        run.all()
    );
    assert!(run.stderr.contains("^ near here"), "{}", run.all());
}

#[test]
fn dry_run_changes_nothing() {
    let mut p = simple_project();
    let run = p.run(&["-n"]);
    assert_eq!(run.code, 0);
    assert_eq!(run.ran, 2);
    assert!(!p.has("out.txt"));
    assert!(!p.has(".ninja_log"));
}

#[test]
fn verbose_prints_commands() {
    let run = simple_project().run(&["-j1", "-v"]);
    assert!(run.stdout.contains("cp in.txt mid.txt"), "{}", run.all());
    let run = simple_project().run(&["-j1", "--quiet"]);
    assert!(!run.stdout.contains("COPY"), "{}", run.all());
}

#[test]
fn explain_says_why() {
    let run = simple_project().run(&["-j1", "-d", "explain"]);
    assert!(
        run.stderr.contains("explain: output mid.txt doesn't exist"),
        "{}",
        run.all()
    );
}

#[test]
fn ninja_status_format_is_honoured() {
    let mut p = simple_project();
    p.format = "<%f of %t> ".to_string();
    let run = p.run(&["-j1"]);
    // Without an interactive terminal the status is printed when each edge
    // finishes, so %f already counts the edge just completed.
    assert!(run.stdout.contains("<1 of 2> "), "{}", run.stdout);
    assert!(run.stdout.contains("<2 of 2> "), "{}", run.stdout);
}

#[test]
fn version_and_help() {
    let mut p = Project::new();
    p.write("build.ninja", "");
    let run = p.run(&["--version"]);
    assert_eq!(run.code, 0);
    assert!(run.stdout.starts_with(shuriken::NINJA_COMPAT_VERSION), "{}", run.all());

    let run = p.run(&["-h"]);
    assert_eq!(run.code, 1, "ninja exits 1 after printing usage");
    assert!(run.stderr.contains("usage: shuriken"), "{}", run.all());
    assert_eq!(run.stderr, usage(4));
}

#[test]
fn tools_report_the_graph() {
    let mut p = Project::new();
    p.write("a.c", "");
    p.write("b.c", "");
    p.write(
        "build.ninja",
        "rule cc\n  command = touch $out\n  description = CC $out\n\n\
         rule link\n  command = touch $out\n\n\
         build a.o: cc a.c\nbuild b.o: cc b.c\nbuild prog: link a.o b.o\ndefault prog\n",
    );

    let run = p.run(&["-t", "targets", "all"]);
    assert_eq!(run.stdout, "a.o: cc\nb.o: cc\nprog: link\n");

    let run = p.run(&["-t", "targets", "rule", "cc"]);
    assert_eq!(run.stdout, "a.o\nb.o\n");

    let run = p.run(&["-t", "rules"]);
    assert_eq!(run.stdout, "cc\nlink\nphony\n");

    let run = p.run(&["-t", "commands", "prog"]);
    assert_eq!(run.stdout.lines().count(), 3);

    let run = p.run(&["-t", "inputs", "prog"]);
    assert_eq!(run.stdout, "a.c\na.o\nb.c\nb.o\n");

    let run = p.run(&["-t", "query", "prog"]);
    assert!(
        run.stdout.contains("prog:\n  input: link\n    a.o\n    b.o"),
        "{}",
        run.all()
    );

    let run = p.run(&["-t", "compdb", "cc"]);
    assert!(run.stdout.contains("\"file\": \"a.c\""), "{}", run.all());
    assert!(!run.stdout.contains("prog"), "{}", run.all());

    let run = p.run(&["-t", "graph", "prog"]);
    assert!(run.stdout.starts_with("digraph ninja {"), "{}", run.all());

    let run = p.run(&["-t", "list"]);
    assert!(run.stdout.contains("clean"), "{}", run.all());
    assert!(run.stdout.contains("compdb"), "{}", run.all());
}

#[test]
fn clean_removes_outputs() {
    let mut p = simple_project();
    p.run(&["-j1"]);
    assert!(p.has("out.txt"));

    let run = p.run(&["-t", "clean"]);
    assert_eq!(run.code, 0, "{}", run.all());
    assert!(run.stdout.contains("2 files."), "{}", run.all());
    assert!(!p.has("out.txt"));
    assert!(!p.has("mid.txt"));
    assert!(p.has("in.txt"), "sources must survive");
}

#[test]
fn unknown_target_suggests_a_correction() {
    let run = simple_project().run(&["out.tx"]);
    assert_eq!(run.code, 1);
    assert!(
        run.stderr
            .contains("unknown target 'out.tx', did you mean 'out.txt'?"),
        "{}",
        run.all()
    );
}

#[test]
fn unknown_tool_suggests_a_correction() {
    let run = simple_project().run(&["-t", "clen"]);
    assert_eq!(run.code, 1);
    assert!(
        run.stderr.contains("unknown tool 'clen', did you mean 'clean'?"),
        "{}",
        run.all()
    );
}

#[test]
fn depfile_dependencies_are_tracked_across_runs() {
    let mut p = Project::new();
    p.write("in.c", "x\n");
    p.write("header.h", "h\n");
    p.write(
        "build.ninja",
        "rule cc\n  command = cp $in $out && deps $out $in header.h\n  \
         depfile = $out.d\n  deps = gcc\n\nbuild out.o: cc in.c\n",
    );

    let run = p.run(&["-j1"]);
    assert_eq!(run.ran, 1, "{}", run.all());
    assert!(p.has(".ninja_deps"));
    // ninja deletes the depfile once it has been folded into the deps log.
    assert!(!p.has("out.o.d"));

    let run = p.run(&["-j1"]);
    assert_eq!(run.ran, 0, "{}", run.all());

    // Touching the discovered header rebuilds.
    p.touch("header.h");
    let run = p.run(&["-j1"]);
    assert_eq!(run.ran, 1, "{}", run.all());

    let run = p.run(&["-t", "deps"]);
    assert!(run.stdout.contains("out.o: #deps 2"), "{}", run.all());
    assert!(run.stdout.contains("header.h"), "{}", run.all());
}

#[test]
fn restat_stops_the_build_early() {
    let mut p = Project::new();
    p.write("in", "x\n");
    p.write(
        "build.ninja",
        "rule stamp\n  command = true\n  restat = 1\n\n\
         rule copy\n  command = cp $in $out\n\n\
         build stamp.out: stamp in\nbuild final: copy in | stamp.out\ndefault final\n",
    );
    let run = p.run(&["-j1"]);
    assert_eq!(run.code, 0, "{}", run.all());

    p.touch("in");
    let run = p.run(&["-j1"]);
    assert_eq!(run.code, 0, "{}", run.all());
}

#[test]
fn console_pool_passes_output_through() {
    let mut p = Project::new();
    p.write(
        "build.ninja",
        "rule say\n  command = echo from-console\n  pool = console\n\nbuild out: say\n",
    );
    let run = p.run(&["-j4"]);
    assert_eq!(run.code, 0, "{}", run.all());
    assert!(run.all().contains("from-console"), "{}", run.all());
}

#[test]
fn manifest_regenerates_itself() {
    let mut p = Project::new();
    let head = "rule regen\n  command = regen\n  generator = 1\n\n\
                rule copy\n  command = cp $in $out\n\n\
                build build.ninja: regen config\n";
    p.write("in", "x\n");
    p.write(
        "build.ninja",
        &format!("{head}build out: copy in\ndefault out\n"),
    );
    p.write(
        "new.ninja",
        &format!("{head}build out: copy in\nbuild out2: copy in\ndefault out out2\n"),
    );
    // Make an input of the manifest newer than the manifest itself, so the
    // generator has something to do.
    p.touch("config");

    let run = p.run(&["-j1"]);
    assert_eq!(run.code, 0, "{}", run.all());
    assert!(p.has("out"), "{}", run.all());
    assert!(p.has("out2"), "the reloaded manifest should be built too");
}

#[test]
fn dyndep_adds_dependencies_during_the_build() {
    let mut p = Project::new();
    p.write("in", "x\n");
    p.write("extra", "e\n");
    p.write(
        "build.ninja",
        "rule makedd\n  command = dyndep $out out extra\n\n\
         rule copy\n  command = cp $in $out\n  dyndep = dd\n\n\
         build dd: makedd\nbuild out: copy in | dd\ndefault out\n",
    );
    let run = p.run(&["-j1"]);
    assert_eq!(run.code, 0, "{}", run.all());
    assert!(p.has("out"));

    let run = p.run(&["-j1"]);
    assert_eq!(run.ran, 0, "{}", run.all());

    // The dynamically discovered input now drives rebuilds.
    p.touch("extra");
    let run = p.run(&["-j1"]);
    assert_eq!(run.ran, 1, "{}", run.all());
}

#[test]
fn validations_run_but_do_not_gate() {
    let mut p = Project::new();
    p.write("in", "x\n");
    p.write(
        "build.ninja",
        "rule copy\n  command = cp $in $out\n\nrule check\n  command = touch $out\n\n\
         build out: copy in |@ checked\nbuild checked: check\ndefault out\n",
    );
    let run = p.run(&["-j1"]);
    assert_eq!(run.code, 0, "{}", run.all());
    assert!(p.has("out"));
    assert!(p.has("checked"), "validation target should have been built");
}

#[test]
fn response_files_are_written_and_removed() {
    let mut p = Project::new();
    p.write("a", "a\n");
    p.write("b", "b\n");
    p.write(
        "build.ninja",
        "rule link\n  command = cp $out.rsp $out\n  rspfile = $out.rsp\n  \
         rspfile_content = $in\n\nbuild out: link a b\n",
    );
    let run = p.run(&["-j1"]);
    assert_eq!(run.code, 0, "{}", run.all());
    assert_eq!(p.read("out"), "a b");
    assert!(!p.has("out.rsp"), "response file should be cleaned up");

    // ... unless asked to keep it.
    p.remove("out");
    let run = p.run(&["-j1", "-d", "keeprsp"]);
    assert_eq!(run.code, 0, "{}", run.all());
    assert!(p.has("out.rsp"));
}

#[test]
fn builddir_holds_the_logs() {
    let mut p = Project::new();
    p.write("in", "x\n");
    p.write(
        "build.ninja",
        "builddir = out/logs\nrule make\n  command = touch $out\n\nbuild out/x: make in\n",
    );
    let run = p.run(&["-j1"]);
    assert_eq!(run.code, 0, "{}", run.all());
    assert!(p.has("out/logs/.ninja_log"));
    assert!(p.has("out/x"));
}

#[test]
fn recompact_and_restat_tools_work() {
    let mut p = simple_project();
    p.run(&["-j1"]);
    let before = p.read(".ninja_log");

    let run = p.run(&["-t", "recompact"]);
    assert_eq!(run.code, 0, "{}", run.all());
    let after = p.read(".ninja_log");
    assert!(after.starts_with("# ninja log v7"));
    assert_eq!(
        before.lines().count(),
        after.lines().count(),
        "no entries should be lost"
    );

    let run = p.run(&["-t", "restat"]);
    assert_eq!(run.code, 0, "{}", run.all());
    let run = p.run(&["-j1"]);
    assert_eq!(run.ran, 0, "restat must not invalidate the build");
}

#[test]
fn missingdeps_finds_undeclared_generated_inputs() {
    let mut p = Project::new();
    p.write("in", "x\n");
    p.write(
        "build.ninja",
        "rule gen\n  command = touch $out\n\n\
         rule cc\n  command = cp $in $out && deps $out $in generated.h\n  \
         depfile = $out.d\n  deps = gcc\n\n\
         build generated.h: gen\nbuild out: cc in\nbuild all: phony out generated.h\ndefault all\n",
    );
    p.run(&["-j1"]);
    let run = p.run(&["-t", "missingdeps"]);
    assert_eq!(run.code, 3, "missing deps are reported with exit code 3");
    assert!(
        run.stdout.contains("Missing dep: out uses generated.h"),
        "{}",
        run.all()
    );
}

#[test]
fn shared_log_is_understood_after_a_manifest_edit() {
    // A build, then a manifest change that renames a target: the stale entry
    // must not confuse the next build.
    let mut p = Project::new();
    p.write("in", "x\n");
    p.write("build.ninja", &format!("{COPY}build old: copy in\ndefault old\n"));
    p.run(&["-j1"]);
    p.write("build.ninja", &format!("{COPY}build new: copy in\ndefault new\n"));
    let run = p.run(&["-j1"]);
    assert_eq!(run.code, 0, "{}", run.all());
    assert_eq!(run.ran, 1, "{}", run.all());

    let run = p.run(&["-t", "cleandead"]);
    assert_eq!(run.code, 0, "{}", run.all());
    assert!(!p.has("old"), "dead output should be cleaned");
    assert!(p.has("new"));
}

#[test]
fn pools_limit_concurrency() {
    let mut p = Project::new();
    // All commands of a pool run one after the other.
    p.write(
        "build.ninja",
        "pool only_one\n  depth = 1\n\n\
         rule exclusive\n  command = touch $out\n  pool = only_one\n\n\
         build a: exclusive\nbuild b: exclusive\nbuild c: exclusive\n\
         build all: phony a b c\ndefault all\n",
    );
    let run = p.run(&["-j8"]);
    assert_eq!(run.code, 0, "{}", run.all());
    assert!(p.has("a") && p.has("b") && p.has("c"));
}

fn exit_of(args: &[&str]) -> (u8, String) {
    let args: Vec<String> = args.iter().map(|a| a.to_string()).collect();
    match parse_args(&args, 6) {
        ParsedLine::Exit(code, line) => (code, line.err),
        ParsedLine::Run(_) => panic!("runs"),
    }
}

#[test]
fn bad_options_are_refused() {
    assert_eq!(exit_of(&["-j"]).1, "shuriken: option '-j' requires an argument\n");
    assert_eq!(exit_of(&["-jx"]), (1, "shuriken: fatal: invalid -j parameter\n".to_string()));
    assert_eq!(exit_of(&["-j", "-1"]).1, "shuriken: fatal: invalid -j parameter\n");
    assert_eq!(
        exit_of(&["-k", "x"]).1,
        "shuriken: fatal: -k parameter not numeric; did you mean -k 0?\n"
    );
    assert_eq!(
        exit_of(&["-l", "x"]).1,
        "shuriken: fatal: -l parameter not numeric: did you mean -l 0.0?\n"
    );
    assert_eq!(exit_of(&["-d", "x"]).1, "shuriken: unknown debug setting 'x'\n");
    assert_eq!(
        exit_of(&["-w", "phonycycle=er"]).1,
        "shuriken: unknown warning flag 'phonycycle=er', did you mean 'phonycycle=err'?\n"
    );
    assert!(exit_of(&["--nope"])
        .1
        .starts_with("shuriken: unrecognized option '--nope'\nusage: shuriken"));
    assert!(exit_of(&["-Z"]).1.starts_with("shuriken: unrecognized option '-Z'\n"));
}

#[test]
fn options_are_read() {
    let args: Vec<String> = [
        "-C", "dir", "-vn", "-j0", "-k", "3", "-l2.5", "-dstats", "-wphonycycle=err", "a", "--",
        "-b",
    ]
    .iter()
    .map(|a| a.to_string())
    .collect();
    let line = match parse_args(&args, 6) {
        ParsedLine::Run(line) => line,
        ParsedLine::Exit(..) => panic!("exits"),
    };
    assert_eq!(line.options.working_dir.as_deref(), Some("dir"));
    assert_eq!(line.options.input_file, "build.ninja");
    assert_eq!(line.options.targets, vec!["a".to_string(), "-b".to_string()]);
    assert_eq!(line.options.load_limit.as_deref(), Some("2.5"));
    assert!(line.options.stats && line.options.phony_cycle_should_err);
    assert!(line.config.dry_run);
    assert_eq!(line.config.verbosity, shuriken::Verbosity::Verbose);
    assert_eq!(line.config.parallelism, usize::MAX);
    assert_eq!(line.config.failures_allowed, 3);
}

#[test]
fn numbers_with_fractions_are_recognized() {
    for text in ["1", "-1.5", "+.5", "2.", "1e9", "inf", "NaN", "-Infinity"] {
        assert!(is_float_text(text), "{text}");
        assert!(text.parse::<f64>().is_ok(), "{text}");
    }
    for text in ["", ".", "1x", "e5", "1e", "--1", "0x10", " 1"] {
        assert!(!is_float_text(text), "{text}");
        assert!(text.parse::<f64>().is_err(), "{text}");
    }
}

#[test]
fn every_tool_is_known() {
    for tool in tool_names() {
        match tool_request(tool, &["x".to_string()]) {
            ToolRequest::Stop { err, .. } => {
                assert!(!err.contains("unknown tool"), "{tool}: {err}")
            }
            _ => {}
        }
    }
    assert!(matches!(
        tool_request("query", &[]),
        ToolRequest::Stop { code: 1, .. }
    ));
}

#[test]
fn errors_are_told_by_their_kind() {
    let told = |e: Error| failure(&e);
    assert_eq!(
        told(Error::Build("x".to_string())),
        ("shuriken: build stopped: x.\n".to_string(), String::new(), 1)
    );
    assert_eq!(
        told(Error::Fatal("x".to_string())),
        (String::new(), "shuriken: fatal: x\n".to_string(), 1)
    );
    assert_eq!(
        told(Error::Io("p".to_string(), "gone".to_string())),
        (String::new(), "shuriken: error: p: gone\n".to_string(), 1)
    );
    assert_eq!(told(Error::Interrupted).2, 130);
    let (message, code) = build_stopped(&Error::Build("x".to_string()), ExitStatus(9));
    assert!(matches!(message, Message::Info(t) if t == "build stopped: x."));
    assert_eq!(code, 9);
    let (_, code) = build_stopped(&Error::Build("x".to_string()), ExitStatus(0));
    assert_eq!(code, 1);
}

#[test]
fn command_lines_are_split_at_the_program() {
    let split = |t: &str| split_windows_command(t);
    assert_eq!(split("cl /c a.c"), ("cl".to_string(), " /c a.c".to_string()));
    assert_eq!(
        split("  \"C:\\my tools\\cl\" /c"),
        ("C:\\my tools\\cl".to_string(), " /c".to_string())
    );
    assert_eq!(split("\"open"), ("\"open".to_string(), String::new()));
    assert_eq!(split(""), (String::new(), String::new()));
}

#[test]
fn manifests_that_never_settle_are_given_up_on() {
    let mut p = Project::new();
    // Regenerating the manifest leaves it older than its input.
    p.write(
        "build.ninja",
        "rule regen\n  command = touch config\n\nbuild build.ninja: regen config\n",
    );
    p.touch("config");
    let run = p.run(&["-j1"]);
    assert_eq!(run.code, 1, "{}", run.all());
    assert!(run.stdout.contains("still dirty after 100 tries"), "{}", run.all());
}

#[test]
fn second_build_is_a_no_op() {
    let dir = "noop";
    let mut disk = MemDisk::new();
    disk.create("noop/in.txt", b"hello\n");
    disk.create(
        "noop/build.ninja",
        format!(
            "builddir = {dir}\nrule copy\n  command = cp $in $out\n\n\
             build {dir}/out.txt: copy {dir}/in.txt\n"
        )
        .as_bytes(),
    );
    let target = format!("{dir}/out.txt");
    let build_once = |disk: MemDisk| {
        let options = EngineOptions {
            build: BuildConfig {
                verbosity: Verbosity::Quiet,
                parallelism: 1,
                ..Default::default()
            },
            ..Default::default()
        };
        let mut engine = Engine::load(disk, "noop/build.ninja", options).unwrap();
        open_logs(&mut engine);
        let printer = LinePrinter::for_environment(false, "xterm", None);
        let mut screen = Screen {
            inner: ConsoleStatus::new(Verbosity::Quiet, printer, "[%f/%t] ".to_string()),
            out: String::new(),
            err: String::new(),
        };
        let names = [target.clone()];
        let up_to_date = build(&mut engine, &names, &mut screen, &mut 0).unwrap();
        (up_to_date, engine.disk)
    };
    let (first, disk) = build_once(disk);
    let (second, disk) = build_once(disk);

    assert!(!first);
    assert!(second, "second build should have nothing to do");
    assert_eq!(disk.contents(&target).unwrap(), b"hello\n");
    assert!(disk.contains("noop/.ninja_log"));
}
