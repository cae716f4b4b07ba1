//! What holds of the library as a whole, on concrete values.

use shuriken::build::{Builder, Logs};
use shuriken::build_log::{BuildLog, LogEntry};
use shuriken::deps_log::DepsLog;
use shuriken::disk::{make_dirs, DiskInterface, MemDisk};
use shuriken::escape::{
    append_shell_escaped, append_win32_escaped, elide_middle_in_place, encode_json_string,
};
use shuriken::eval::EvalString;
use shuriken::exec::{capacity, job_limit, map_status, ExitStatus};
use shuriken::graph::{DependencyScan, Explanations};
use shuriken::parse::{ManifestParser, ParserOptions, PhonyCycleAction};
use shuriken::plan::Plan;
use shuriken::state::{EdgeId, State};
use shuriken::status::{clock, percentage, tell, LinePrinter, RecordingStatus, StatusEvent};
use shuriken::util::{edit_distance, guess_parallelism, spellcheck};

fn parse(disk: &MemDisk, manifest: &str) -> State {
    let mut state = State::new();
    let options = ParserOptions { phony_cycle_action: PhonyCycleAction::Warn, quiet: true };
    ManifestParser::new(options)
        .parse_text(&mut state, disk, "build.ninja", manifest.as_bytes())
        .expect("parse");
    state
}

fn scan(state: &mut State, disk: &MemDisk, log: Option<&BuildLog>, target: &str) {
    let node = state.lookup_node(target).unwrap();
    let mut notes: Option<Explanations> = None;
    DependencyScan::new(disk, log, None)
        .recompute_dirty(state, &mut notes, node, &mut Vec::new())
        .unwrap();
}

const CC: &str = "rule cc\n  command = cc $in\n  deps = gcc\n  depfile = $out.d\n\n";

#[test]
fn rewriting_the_deps_log_keeps_what_matters() {
    let disk = MemDisk::new();
    let mut state = parse(&disk, &format!("{CC}build a.o: cc a.c\nbuild b.o: cc b.c\n"));
    let a = state.lookup_node("a.o").unwrap();
    let b = state.lookup_node("b.o").unwrap();
    let gone = state.get_node("gone.o", 0);
    let h = state.get_node("h.h", 0);
    let g = state.get_node("g.h", 0);
    let mut log = DepsLog::new();
    let mut bytes = Vec::new();
    log.record_deps(&mut state, gone, 1, &[g], &mut bytes).unwrap();
    log.record_deps(&mut state, a, 2, &[h], &mut bytes).unwrap();
    log.record_deps(&mut state, b, 3, &[g, h], &mut bytes).unwrap();
    // Recording those of one output leaves the others as they are.
    log.record_deps(&mut state, a, 4, &[h, g], &mut bytes).unwrap();
    assert_eq!(log.get_deps(&state, b).unwrap().mtime, 3);

    let file = log.recompact(&mut state).unwrap();
    assert_eq!(log.get_deps(&state, a).unwrap().nodes, vec![h, g]);
    assert_eq!(log.get_deps(&state, a).unwrap().mtime, 4);
    assert_eq!(log.get_deps(&state, b).unwrap().nodes, vec![g, h]);
    assert!(log.get_deps(&state, gone).is_none());

    let mut state2 = parse(&disk, &format!("{CC}build a.o: cc a.c\nbuild b.o: cc b.c\n"));
    let mut log2 = DepsLog::new();
    assert!(log2.load(Some(&file), &mut state2).warning.is_none());
    let b2 = state2.lookup_node("b.o").unwrap();
    let deps = log2.get_deps(&state2, b2).unwrap();
    let paths: Vec<&str> = deps.nodes.iter().map(|&n| state2.node(n).path()).collect();
    assert_eq!(paths, vec!["g.h", "h.h"]);
}

#[test]
fn dirt_spreads_to_dependents() {
    let mut disk = MemDisk::new();
    disk.create("b", b"x");
    disk.create("c", b"x");
    disk.tick();
    disk.create("a", b"newer");
    let mut state = parse(
        &disk,
        "rule cat\n  command = cat\n\nbuild b: cat a\nbuild c: cat b\n",
    );
    scan(&mut state, &disk, None, "c");
    for path in ["b", "c"] {
        let n = state.lookup_node(path).unwrap();
        assert!(state.node(n).dirty, "{path}");
    }
}

#[test]
fn discovered_inputs_stand_before_order_only_ones() {
    let mut disk = MemDisk::new();
    disk.create("in", b"x");
    disk.create("dir", b"x");
    disk.create("h.h", b"x");
    disk.create("out.d", b"out: h.h\n");
    disk.create("out", b"x");
    let mut state = parse(
        &disk,
        "rule cc\n  command = cc $in\n  depfile = $out.d\n\nbuild out: cc in || dir\n",
    );
    let before = state.edge_command(EdgeId(0));
    scan(&mut state, &disk, None, "out");
    let paths: Vec<&str> = state
        .edge(EdgeId(0))
        .inputs()
        .iter()
        .map(|&n| state.node(n).path())
        .collect();
    assert_eq!(paths, vec!["in", "h.h", "dir"]);
    assert_eq!(state.edge(EdgeId(0)).order_only_deps(), 1);
    // What an edge runs does not depend on what has been discovered.
    assert_eq!(state.edge_command(EdgeId(0)), before);
}

#[test]
fn a_recorded_command_is_clean_until_something_changes() {
    let mut disk = MemDisk::new();
    disk.create("in", b"x");
    disk.tick();
    disk.create("out", b"x");
    let manifest = "rule cat\n  command = cat $in > $out\n\nbuild out: cat in\n";
    let mut state = parse(&disk, manifest);
    let mut log = BuildLog::new();
    let lines = log.record_command(&state, EdgeId(0), 0, 1, disk.now());
    assert!(lines.starts_with("0\t1\t"), "{lines}");
    let dirty = |state: &mut State, disk: &MemDisk, log: &BuildLog| {
        state.reset();
        scan(state, disk, Some(log), "out");
        let out = state.lookup_node("out").unwrap();
        state.node(out).dirty
    };
    assert!(!dirty(&mut state, &disk, &log));
    let mut changed = parse(&disk, &manifest.replace("cat $in", "cat -n $in"));
    assert!(dirty(&mut changed, &disk, &log));
    let generator = manifest.replace("$out\n", "$out\n  generator = 1\n");
    let mut state2 = parse(&disk, &generator.replace("cat $in", "cat -n $in"));
    assert!(!dirty(&mut state2, &disk, &log));
    disk.tick();
    disk.create("in", b"y");
    assert!(dirty(&mut state, &disk, &log));
}

#[test]
fn nothing_is_ready_before_its_inputs() {
    let mut disk = MemDisk::new();
    disk.create("a", b"x");
    let mut state = parse(
        &disk,
        "rule t\n  command = t\n\nbuild b: t a\nbuild c: t a\nbuild d: t b c\n",
    );
    scan(&mut state, &disk, None, "d");
    let d = state.lookup_node("d").unwrap();
    let mut plan = Plan::new();
    plan.add_target(&state, d).unwrap();
    assert_eq!(plan.wanted_edge_count(), 3);
    plan.prepare_queue(&mut state);
    while let Some(edge) = plan.find_work() {
        assert!(state.all_inputs_ready(edge));
        plan.edge_finished(&mut state, edge, shuriken::plan::EdgeResult::Succeeded)
            .unwrap();
    }
    assert!(!plan.more_to_do());
}

#[test]
fn makers_weigh_more_than_what_they_make_for() {
    let mut disk = MemDisk::new();
    disk.create("a", b"x");
    let mut state = parse(
        &disk,
        "rule t\n  command = t\n\nbuild b: t a\nbuild c: t b\nbuild d: t c\nbuild e: phony d b\n",
    );
    scan(&mut state, &disk, None, "e");
    let e = state.lookup_node("e").unwrap();
    let mut plan = Plan::new();
    plan.add_target(&state, e).unwrap();
    plan.prepare_queue(&mut state);
    let weights: Vec<i64> = (0..4)
        .map(|i| state.edge(EdgeId(i)).critical_path_weight())
        .collect();
    assert_eq!(weights, vec![3, 2, 1, 0]);
}

#[test]
fn the_room_for_commands() {
    assert_eq!(job_limit(0), 1);
    assert_eq!(job_limit(usize::MAX), i32::MAX as usize);
    assert_eq!(capacity(4, 1, None), 3);
    assert_eq!(capacity(4, 4, None), 0);
    assert_eq!(capacity(4, 1, Some(2)), 2);
    assert_eq!(capacity(4, 1, Some(-5)), 0);
    // Something can always run.
    assert_eq!(capacity(4, 0, Some(-5)), 1);
    assert_eq!(guess_parallelism(1), 2);
    assert_eq!(guess_parallelism(2), 3);
    assert_eq!(guess_parallelism(8), 10);
}

#[test]
fn exits_are_mapped_to_codes() {
    assert_eq!(map_status(Some(3), None), ExitStatus(3));
    assert_eq!(map_status(None, Some(2)), ExitStatus(130));
    assert_eq!(map_status(None, Some(9)), ExitStatus(137));
    assert_eq!(map_status(None, None), ExitStatus(1));
}

#[test]
fn quoting_is_undone_by_reading() {
    let mut s = String::new();
    append_shell_escaped("it's", &mut s);
    assert_eq!(s, "'it'\\''s'");
    let mut w = String::new();
    append_win32_escaped("a \\\" b\\", &mut w);
    assert_eq!(w, "\"a \\\\\\\" b\\\\\"");
    assert_eq!(encode_json_string("a\"\\\n\u{1}"), "a\\\"\\\\\\n\\u0001");
}

#[test]
fn elided_lines_fill_the_room() {
    for width in 0..12 {
        let mut s = "0123456789abc".to_string();
        elide_middle_in_place(&mut s, width);
        assert_eq!(s.len(), width);
    }
}

#[test]
fn distances_are_symmetric() {
    for (a, b) in [("kitten", "sitting"), ("", "abc"), ("same", "same")] {
        assert_eq!(edit_distance(a, b, true, 0), edit_distance(b, a, true, 0));
    }
    assert_eq!(edit_distance("same", "same", true, 0), 0);
    assert_eq!(edit_distance("kitten", "sitting", true, 3), 3);
    assert_eq!(spellcheck("buidl", &["build", "clean"]), Some("build"));
}

#[test]
fn literal_text_stays_in_one_piece() {
    let mut e = EvalString::new();
    e.add_text("a");
    e.add_text("b");
    assert_eq!(e.serialize(), "[ab]");
    e.add_var("x");
    assert_eq!(e.serialize(), "[ab][$x]");
}

#[test]
fn parents_exist_once_they_are_made() {
    let mut disk = MemDisk::new();
    make_dirs(&mut disk, "a/b/c.txt").unwrap();
    assert!(disk.stat("a/b").unwrap() > 0);
    assert!(disk.stat("a").unwrap() > 0);
    disk.write_file("a/b/c.txt", "x", false).unwrap();
    assert!(disk.remove_file("a/b/c.txt").unwrap());
    assert_eq!(disk.read_file("a/b/c.txt").unwrap(), None);
}

#[test]
fn what_a_status_is_told_is_said_first() {
    let mut disk = MemDisk::new();
    disk.create("a", b"x");
    let mut state = parse(&disk, "rule t\n  command = t $in\n\nbuild b: t a\n");
    let config = shuriken::BuildConfig { explain: true, ..Default::default() };
    let mut builder = Builder::new(&state, config, 100);
    builder
        .add_target_by_name(&mut state, &disk, &Logs::new(None, None), "b")
        .unwrap();
    let events = builder.note_start(&state, EdgeId(0), 107);
    assert_eq!(events.len(), 2);
    assert!(matches!(&events[0], StatusEvent::Explanations(lines)
        if lines[..] == ["output b doesn't exist".to_string()]));
    assert!(matches!(
        events[1],
        StatusEvent::EdgeStarted { edge: EdgeId(0), start_time_millis: 7 }
    ));
    let mut status = RecordingStatus::default();
    tell(&mut status, &state, &events);
    assert_eq!(status.started, vec!["t a".to_string()]);
    tell(&mut status, &state, &[StatusEvent::Error("bad".to_string())]);
    assert_eq!(status.errors, vec!["bad".to_string()]);
}

#[test]
fn clocks_and_percentages() {
    assert_eq!(clock(61, false), "01:01");
    assert_eq!(clock(3661, true), "1:01:01");
    assert_eq!(percentage(7), "  7%");
    assert_eq!(percentage(100), "100%");
}

#[test]
fn the_terminal_decides_how_lines_are_shown() {
    assert!(LinePrinter::for_environment(true, "xterm", None).is_smart_terminal());
    for p in [
        LinePrinter::for_environment(false, "xterm", None),
        LinePrinter::for_environment(true, "dumb", None),
        LinePrinter::for_environment(true, "", Some("0")),
    ] {
        assert!(!p.is_smart_terminal());
        assert!(!p.supports_color());
    }
    assert!(LinePrinter::for_environment(false, "", Some("1")).supports_color());
    let mut p = LinePrinter::new(true, true);
    assert_eq!(p.print("0123456789", false, Some(6)), "\r0...89\u{1b}[K");
    assert_eq!(p.print_on_new_line("x\n"), "\nx\n");
    let mut p = LinePrinter::new(false, false);
    assert_eq!(p.print("0123456789", false, Some(6)), "0123456789\n");
}

#[test]
fn entries_of_the_build_log_are_kept_by_output() {
    let mut log = BuildLog::new();
    for (name, hash) in [("b", 1), ("a", 2), ("b", 3)] {
        let mut e = LogEntry::new(name);
        e.command_hash = hash;
        log.insert_entry(e);
    }
    assert_eq!(log.entries(), &vec!["a".to_string(), "b".to_string()]);
    assert_eq!(log.lookup_by_output("b").unwrap().command_hash, 3);
    assert_eq!(
        log.text(),
        "# ninja log v7\n0\t0\t0\ta\t2\n0\t0\t0\tb\t3\n"
    );
}

#[test]
fn a_missing_input_stops_planning_where_it_is_found() {
    let disk = MemDisk::new();
    let mut state = parse(
        &disk,
        "rule t\n  command = t\n\nbuild b: t missing\nbuild c: t b\nbuild d: t\n",
    );
    scan(&mut state, &disk, None, "c");
    scan(&mut state, &disk, None, "d");
    let c = state.lookup_node("c").unwrap();
    let mut plan = Plan::new();
    plan.add_target(&state, c).unwrap_err();
    assert_eq!(plan.wanted_edge_count(), 2);
    assert!(plan.want(EdgeId(0)).is_some());
    assert!(plan.want(EdgeId(1)).is_some());
    assert!(plan.want(EdgeId(2)).is_none());
}

#[test]
fn cleaning_leaves_what_is_queued_in_its_turn() {
    let mut disk = MemDisk::new();
    disk.create("a", b"x");
    let mut state = parse(
        &disk,
        "rule t\n  command = t\n\nbuild w: t a\nbuild x: t a\nbuild y: t x\nbuild b: t a\n\
         build c: t b\nbuild d: t y\nbuild all: phony w d c\n",
    );
    scan(&mut state, &disk, None, "all");
    let all = state.lookup_node("all").unwrap();
    let mut plan = Plan::new();
    plan.add_target(&state, all).unwrap();
    plan.prepare_queue(&mut state);
    // The start of the longest chain comes first.
    assert_eq!(plan.find_work(), Some(EdgeId(1)));
    let x = state.lookup_node("x").unwrap();
    let mut notes: Option<Explanations> = None;
    let checks = DependencyScan::new(&disk, None, None);
    plan.clean_node(&checks, &mut state, &mut notes, x).unwrap();
    assert_eq!(plan.find_work(), Some(EdgeId(3)));
    assert_eq!(plan.find_work(), Some(EdgeId(0)));
    assert_eq!(plan.find_work(), None);
}
