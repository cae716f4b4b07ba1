//! The build log, the deps log and the progress line.

use shuriken::build_log::{BuildLog, LoadStatus, LogEntry};
use shuriken::deps_log::{header_bytes, DepsLog, Repair};
use shuriken::disk::{DiskInterface, MemDisk};
use shuriken::hash::hash_command;
use shuriken::state::State;
use shuriken::status::{ConsoleStatus, LinePrinter, ProgressTexts, Verbosity};

fn entry(output: &str, command_hash: u64, start_time: i32, end_time: i32, mtime: i64) -> LogEntry {
    LogEntry { output: output.to_string(), command_hash, start_time, end_time, mtime }
}

#[test]
fn write_then_read() {
    let mut log = BuildLog::new();
    log.insert_entry(entry("out", 0xdeadbeef, 1, 2, 12345));
    let text = log.recompact(|_: &str| false);

    let mut log2 = BuildLog::new();
    let r = log2.load(Some(text.as_bytes()));
    assert_eq!(r.status, LoadStatus::Success);
    let e = log2.lookup_by_output("out").unwrap();
    assert_eq!(e.command_hash, 0xdeadbeef);
    assert_eq!(e.start_time, 1);
    assert_eq!(e.end_time, 2);
    assert_eq!(e.mtime, 12345);
}

#[test]
fn missing_log() {
    let mut log = BuildLog::new();
    let r = log.load(None);
    assert_eq!(r.status, LoadStatus::NotFound);
}

#[test]
fn old_version_is_discarded() {
    let mut log = BuildLog::new();
    let r = log.load(Some(b"# ninja log v5\n1\t2\t3\tout\tabc\n"));
    assert_eq!(r.status, LoadStatus::NotFound);
    assert!(r.warning.unwrap().contains("too old"));
    assert_eq!(log.entries().len(), 0);
}

#[test]
fn duplicate_entries_are_deduplicated() {
    let mut log = BuildLog::new();
    log.load(Some(b"# ninja log v7\n1\t2\t3\tout\tabc\n4\t5\t6\tout\tdef\n"));
    assert_eq!(log.entries().len(), 1);
    // The last entry wins.
    assert_eq!(log.lookup_by_output("out").unwrap().command_hash, 0xdef);
}

#[test]
fn recompact_drops_dead_paths() {
    let mut log = BuildLog::new();
    log.insert_entry(LogEntry::new("alive"));
    log.insert_entry(LogEntry::new("dead"));
    let text = log.recompact(|p: &str| p == "dead");

    let mut log2 = BuildLog::new();
    log2.load(Some(text.as_bytes()));
    assert!(log2.lookup_by_output("alive").is_some());
    assert!(log2.lookup_by_output("dead").is_none());
}

#[test]
fn build_log_round_trips_and_matches_ninja_hashes() {
    let mut log = BuildLog::new();
    log.insert_entry(entry("out", hash_command("cat in > out"), 5, 17, 1_234_567_890));
    let text = log.recompact(|_: &str| false);
    assert!(text.starts_with("# ninja log v7\n"), "{text}");

    let mut reloaded = BuildLog::new();
    reloaded.load(Some(text.as_bytes()));
    let entry = reloaded.lookup_by_output("out").expect("entry");
    assert_eq!(entry.command_hash, hash_command("cat in > out"));
    assert_eq!(entry.start_time, 5);
    assert_eq!(entry.end_time, 17);
    assert_eq!(entry.mtime, 1_234_567_890);
    assert_eq!(entry.duration_millis(), 12);
}

#[test]
fn a_log_that_is_too_new_is_discarded() {
    let mut log = BuildLog::new();
    let r = log.load(Some(b"# ninja log v8\n1\t2\t3\tout\tabc\n"));
    assert_eq!(r.status, LoadStatus::NotFound);
    assert!(r.warning.unwrap().contains("too new"));
}

#[test]
fn malformed_lines_are_skipped() {
    let mut log = BuildLog::new();
    let r = log.load(Some(b"# ninja log v7\n1\t2\t3\n\n1\t2\tx\tok\tzz\n9\t9\t9\tbad\xff\t1\n"));
    assert_eq!(r.status, LoadStatus::Success);
    assert_eq!(log.entries(), &vec!["bad\u{fffd}".to_string(), "ok".to_string()]);
    // What is not a number counts as 0.
    let e = log.lookup_by_output("ok").unwrap();
    assert_eq!((e.mtime, e.command_hash), (0, 0));
}

#[test]
fn a_log_of_mostly_replaced_entries_asks_to_be_rewritten() {
    let mut text = String::from("# ninja log v7\n");
    for i in 0..150 {
        text.push_str(&format!("{i}\t{i}\t1\tout\tabc\n"));
    }
    let mut log = BuildLog::new();
    log.load(Some(text.as_bytes()));
    assert!(log.needs_recompaction());
}

#[test]
fn restat_takes_the_mtimes_of_the_disk() {
    let mut disk = MemDisk::new();
    disk.create("a", b"x");
    let mut log = BuildLog::new();
    log.insert_entry(entry("a", 1, 0, 0, 7));
    log.insert_entry(entry("b", 1, 0, 0, 7));
    log.restat(&disk, &["a".to_string()]).unwrap();
    assert_eq!(log.lookup_by_output("a").unwrap().mtime, disk.stat("a").unwrap());
    assert_eq!(log.lookup_by_output("b").unwrap().mtime, 7);
    log.restat(&disk, &[]).unwrap();
    assert_eq!(log.lookup_by_output("b").unwrap().mtime, 0);
}

/// The contents of a log file to which `bytes` have been appended.
fn log_file(bytes: &[u8]) -> Vec<u8> {
    let mut file = header_bytes();
    file.extend_from_slice(bytes);
    file
}

#[test]
fn write_read_roundtrip() {
    let mut state = State::new();
    let out = state.get_node("out.o", 0);
    let a = state.get_node("a.h", 0);
    let b = state.get_node("b.h", 0);

    let mut log = DepsLog::new();
    let mut bytes = Vec::new();
    log.record_deps(&mut state, out, 1234, &[a, b], &mut bytes).unwrap();

    let mut state2 = State::new();
    let mut log2 = DepsLog::new();
    log2.load(Some(&log_file(&bytes)), &mut state2);
    let out2 = state2.lookup_node("out.o").unwrap();
    let deps = log2.get_deps(&state2, out2).unwrap();
    assert_eq!(deps.mtime, 1234);
    assert_eq!(deps.nodes.len(), 2);
    assert_eq!(state2.node(deps.nodes[0]).path(), "a.h");
    assert_eq!(state2.node(deps.nodes[1]).path(), "b.h");
}

#[test]
fn unchanged_deps_are_not_rewritten() {
    let mut state = State::new();
    let out = state.get_node("out.o", 0);
    let a = state.get_node("a.h", 0);

    let mut log = DepsLog::new();
    let mut bytes = Vec::new();
    log.record_deps(&mut state, out, 1, &[a], &mut bytes).unwrap();
    let size1 = bytes.len();
    log.record_deps(&mut state, out, 1, &[a], &mut bytes).unwrap();
    let size2 = bytes.len();
    assert_eq!(size1, size2);
}

#[test]
fn truncated_file_recovers() {
    let mut state = State::new();
    let out = state.get_node("out.o", 0);
    let a = state.get_node("a.h", 0);
    let mut log = DepsLog::new();
    let mut bytes = Vec::new();
    log.record_deps(&mut state, out, 1, &[a], &mut bytes).unwrap();

    // Chop off the last few bytes.
    let mut file = log_file(&bytes);
    let full = file.len();
    file.truncate(full - 3);

    let mut state2 = State::new();
    let mut log2 = DepsLog::new();
    let r = log2.load(Some(&file), &mut state2);
    assert_eq!(r.status, LoadStatus::Success);
    assert!(r.warning.unwrap().contains("recovering"));
    match r.repair {
        Repair::Truncate(n) => assert!(n < full - 3),
        other => panic!("{other:?}"),
    }
}

#[test]
fn bad_signature_starts_over() {
    let mut state = State::new();
    let mut log = DepsLog::new();
    let r = log.load(Some(b"not a deps log at all"), &mut state);
    assert!(r.warning.unwrap().contains("starting over"));
    assert_eq!(r.repair, Repair::Remove);
}

#[test]
fn deps_log_round_trips() {
    let mut state = State::new();
    let out = state.get_node("out.o", 0);
    let h1 = state.get_node("one.h", 0);
    let h2 = state.get_node("two.h", 0);

    let mut log = DepsLog::new();
    let mut bytes = Vec::new();
    log.record_deps(&mut state, out, 4242, &[h1, h2], &mut bytes).expect("record");

    let raw = log_file(&bytes);
    assert!(raw.starts_with(b"# ninjadeps\n"), "wrong signature");
    assert_eq!(raw[12..16], [4, 0, 0, 0], "version 4");

    let mut state2 = State::new();
    let mut log2 = DepsLog::new();
    log2.load(Some(&raw), &mut state2);
    let out2 = state2.lookup_node("out.o").expect("node");
    let deps = log2.get_deps(&state2, out2).expect("deps");
    assert_eq!(deps.mtime, 4242);
    let paths: Vec<&str> = deps.nodes.iter().map(|&n| state2.node(n).path()).collect();
    assert_eq!(paths, vec!["one.h", "two.h"]);
}

#[test]
fn an_empty_log_file_holds_nothing() {
    let mut state = State::new();
    let mut log = DepsLog::new();
    let r = log.load(Some(&header_bytes()), &mut state);
    assert_eq!(r.status, LoadStatus::Success);
    assert!(r.warning.is_none());
    assert_eq!(r.repair, Repair::Keep);
    assert_eq!(log.nodes().len(), 0);
    assert_eq!(state.nodes().len(), 0);
}

#[test]
fn recompaction_forgets_what_nothing_uses() {
    let mut state = State::new();
    let out = state.get_node("out.o", 0);
    let h = state.get_node("h", 0);
    let mut log = DepsLog::new();
    let mut bytes = Vec::new();
    log.record_deps(&mut state, out, 1, &[h], &mut bytes).unwrap();
    assert!(log.knows_outputs());
    // Nothing makes `out.o` any more.
    let file = log.recompact(&mut state).unwrap();
    assert_eq!(file, header_bytes());
    assert!(log.get_deps(&state, out).is_none());
}

fn texts() -> ProgressTexts {
    ProgressTexts {
        overall_rate: "?".to_string(),
        current_rate: "?".to_string(),
        elapsed: "0.000".to_string(),
        elapsed_clock: "00:00".to_string(),
        eta: "?".to_string(),
        eta_clock: "?".to_string(),
        predicted: " 30%".to_string(),
    }
}

#[test]
fn progress_format() {
    let mut s = ConsoleStatus::new(Verbosity::Quiet, LinePrinter::new(false, false), String::new());
    s.counts.total = 10;
    s.counts.finished = 3;
    s.counts.started = 5;
    s.counts.running = 2;
    assert_eq!(s.format_progress_status("[%f/%t] ", &texts()), "[3/10] ");
    assert_eq!(s.format_progress_status("%s %r %u %p", &texts()), "5 2 5  30%");
    assert_eq!(s.format_progress_status("100%%", &texts()), "100%");
}
