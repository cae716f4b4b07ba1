//! Scanning the graph and planning what to run.

use shuriken::disk::MemDisk;
use shuriken::error::Error;
use shuriken::graph::{DependencyScan, Explanations};
use shuriken::parse::{ManifestParser, ParserOptions, PhonyCycleAction};
use shuriken::plan::{EdgeResult, Plan};
use shuriken::state::{EdgeId, NodeId, State};

const CAT: &str = "rule cat\n  command = cat $in > $out\n\n";

fn quiet() -> ParserOptions {
    ParserOptions { phony_cycle_action: PhonyCycleAction::Warn, quiet: true }
}

fn build_state(disk: &MemDisk, manifest: &str) -> State {
    let mut state = State::new();
    let mut p = ManifestParser::new(quiet());
    p.parse_text(&mut state, disk, "input", manifest.as_bytes()).unwrap();
    state
}

/// Scan `node`, and return the validations found on the way.
fn scan(state: &mut State, disk: &MemDisk, node: NodeId) -> Result<Vec<NodeId>, Error> {
    let mut notes: Option<Explanations> = None;
    let mut v = Vec::new();
    DependencyScan::new(disk, None, None).recompute_dirty(state, &mut notes, node, &mut v)?;
    Ok(v)
}

#[test]
fn missing_output_is_dirty() {
    let mut disk = MemDisk::new();
    disk.create("in", b"x");
    let mut state = build_state(&disk, &format!("{CAT}build out: cat in\n"));
    let out = state.lookup_node("out").unwrap();
    scan(&mut state, &disk, out).unwrap();
    assert!(state.node(out).dirty);
}

#[test]
fn up_to_date_output_is_clean() {
    let mut disk = MemDisk::new();
    disk.create("in", b"x");
    disk.tick();
    disk.create("out", b"x");
    let mut state = build_state(&disk, &format!("{CAT}build out: cat in\n"));
    let out = state.lookup_node("out").unwrap();
    // Without a build log, ninja has no command hash to compare, so a
    // scan with no log leaves the output clean.
    scan(&mut state, &disk, out).unwrap();
    assert!(!state.node(out).dirty);
}

#[test]
fn older_output_is_dirty() {
    let mut disk = MemDisk::new();
    disk.create("out", b"x");
    disk.tick();
    disk.create("in", b"x");
    let mut state = build_state(&disk, &format!("{CAT}build out: cat in\n"));
    let out = state.lookup_node("out").unwrap();
    scan(&mut state, &disk, out).unwrap();
    assert!(state.node(out).dirty);
}

#[test]
fn missing_input_is_not_an_error_until_planned() {
    let disk = MemDisk::new();
    let mut state = build_state(&disk, &format!("{CAT}build out: cat in\n"));
    let out = state.lookup_node("out").unwrap();
    scan(&mut state, &disk, out).unwrap();
    let input = state.lookup_node("in").unwrap();
    assert!(state.node(input).dirty);
    assert!(state.node(out).dirty);
}

#[test]
fn cycle_is_detected() {
    let disk = MemDisk::new();
    let mut state = build_state(&disk, &format!("{CAT}build a: cat b\nbuild b: cat a\n"));
    let a = state.lookup_node("a").unwrap();
    let e = scan(&mut state, &disk, a).unwrap_err().message();
    assert!(e.starts_with("dependency cycle: "), "{e}");
    assert_eq!(e, "dependency cycle: a -> b -> a");
}

#[test]
fn phony_with_no_inputs_is_clean_when_output_exists() {
    let mut disk = MemDisk::new();
    disk.create("out", b"x");
    let mut state = build_state(&disk, "build out: phony\n");
    let out = state.lookup_node("out").unwrap();
    scan(&mut state, &disk, out).unwrap();
    assert!(!state.node(out).dirty);
}

#[test]
fn phony_with_no_inputs_and_missing_output_is_dirty() {
    let disk = MemDisk::new();
    let mut state = build_state(&disk, "build out: phony\n");
    let out = state.lookup_node("out").unwrap();
    scan(&mut state, &disk, out).unwrap();
    assert!(state.node(out).dirty);
}

#[test]
fn depfile_is_loaded() {
    let mut disk = MemDisk::new();
    disk.create("in", b"x");
    disk.create("out.d", b"out: extra.h\n");
    disk.create("extra.h", b"x");
    disk.tick();
    disk.create("out", b"x");
    let mut state = build_state(
        &disk,
        "rule cc\n  command = cc $in\n  depfile = $out.d\n\nbuild out: cc in\n",
    );
    let out = state.lookup_node("out").unwrap();
    scan(&mut state, &disk, out).unwrap();
    let edge = EdgeId(0);
    assert_eq!(state.edge(edge).inputs().len(), 2);
    assert_eq!(state.edge(edge).implicit_deps(), 1);
    assert!(state.lookup_node("extra.h").is_some());
    assert!(!state.node(out).dirty);
}

#[test]
fn depfile_with_newer_dep_makes_output_dirty() {
    let mut disk = MemDisk::new();
    disk.create("in", b"x");
    disk.create("out", b"x");
    disk.create("out.d", b"out: extra.h\n");
    disk.tick();
    disk.create("extra.h", b"newer");
    let mut state = build_state(
        &disk,
        "rule cc\n  command = cc $in\n  depfile = $out.d\n\nbuild out: cc in\n",
    );
    let out = state.lookup_node("out").unwrap();
    scan(&mut state, &disk, out).unwrap();
    assert!(state.node(out).dirty);
}

#[test]
fn missing_depfile_makes_output_dirty() {
    let mut disk = MemDisk::new();
    disk.create("in", b"x");
    disk.tick();
    disk.create("out", b"x");
    let mut state = build_state(
        &disk,
        "rule cc\n  command = cc $in\n  depfile = $out.d\n\nbuild out: cc in\n",
    );
    let out = state.lookup_node("out").unwrap();
    scan(&mut state, &disk, out).unwrap();
    assert!(state.node(out).dirty);
    assert!(state.edge(EdgeId(0)).deps_missing);
}

#[test]
fn order_only_input_does_not_dirty_output() {
    let mut disk = MemDisk::new();
    disk.create("in", b"x");
    disk.create("out", b"x");
    disk.tick();
    disk.create("oo", b"newer");
    let mut state = build_state(&disk, &format!("{CAT}build out: cat in || oo\n"));
    let out = state.lookup_node("out").unwrap();
    scan(&mut state, &disk, out).unwrap();
    assert!(!state.node(out).dirty);
}

#[test]
fn explanations_are_recorded() {
    let mut disk = MemDisk::new();
    disk.create("in", b"x");
    let mut state = build_state(&disk, &format!("{CAT}build out: cat in\n"));
    let out = state.lookup_node("out").unwrap();
    let mut notes = Some(Explanations::new());
    let mut v = Vec::new();
    DependencyScan::new(&disk, None, None)
        .recompute_dirty(&mut state, &mut notes, out, &mut v)
        .unwrap();
    let mut msgs = Vec::new();
    notes.unwrap().lookup_and_append(out, &mut msgs);
    assert!(msgs.iter().any(|m| m.contains("doesn't exist")), "{msgs:?}");
}

#[test]
fn validation_nodes_are_collected() {
    let mut disk = MemDisk::new();
    disk.create("in", b"x");
    let mut state = build_state(
        &disk,
        &format!("{CAT}build out: cat in |@ validate\nbuild validate: cat in\n"),
    );
    let out = state.lookup_node("out").unwrap();
    let v = scan(&mut state, &disk, out).unwrap();
    assert_eq!(v.len(), 1);
    assert_eq!(state.node(v[0]).path(), "validate");
}

#[test]
fn phony_cycle_can_be_an_error() {
    let disk = MemDisk::new();
    let mut state = State::new();
    let mut p = ManifestParser::new(ParserOptions {
        phony_cycle_action: PhonyCycleAction::Error,
        quiet: true,
    });
    // With phonycycle=err the self-reference is kept, and the cycle shows up
    // when the graph is scanned.
    p.parse_text(&mut state, &disk, "build.ninja", b"build a: phony a\n")
        .expect("parsing still succeeds");
    assert_eq!(state.edge(EdgeId(0)).inputs().len(), 1);

    let node = state.lookup_node("a").unwrap();
    let e = scan(&mut state, &disk, node).unwrap_err().message();
    assert!(e.contains("dependency cycle"), "{e}");
    assert!(e.contains("[-w phonycycle=err]"), "{e}");
}

#[test]
fn dyndep_output_claimed_twice_is_an_error() {
    let mut disk = MemDisk::new();
    disk.create("in", b"a");
    disk.create("dd", b"ninja_dyndep_version = 1\nbuild out | taken: dyndep\n");
    let manifest = format!(
        "{CAT}rule copy\n  command = copy\n  dyndep = dd\n\n\
         build taken: cat in\nbuild out: copy in | dd\n"
    );
    let mut state = build_state(&disk, &manifest);
    let dd = state.lookup_node("dd").unwrap();
    let e = match shuriken::dyndep::load_dyndeps(&mut state, &disk, dd) {
        Ok(_) => panic!("loaded"),
        Err(e) => e.message(),
    };
    assert!(e.contains("multiple rules generate taken"), "{e}");
}

#[test]
fn depfile_may_name_every_output_of_its_edge() {
    let mut disk = MemDisk::new();
    disk.create("in", b"a");
    disk.create("dep.d", b"a.out b.out: extra.h\n");
    disk.create("extra.h", b"h");
    disk.tick();
    disk.create("a.out", b"x");
    disk.create("b.out", b"x");

    let manifest = "rule multi\n  command = multi\n  depfile = dep.d\n\n\
                    build a.out b.out: multi in\n";
    let mut state = build_state(&disk, manifest);
    let node = state.lookup_node("a.out").unwrap();
    scan(&mut state, &disk, node).expect("scan");
    // The depfile's dependency was adopted as an implicit input.
    assert_eq!(state.edge(EdgeId(0)).implicit_deps(), 1);
    assert!(state.lookup_node("extra.h").is_some());
}

#[test]
fn depfile_naming_an_undeclared_output_is_an_error() {
    let mut disk = MemDisk::new();
    disk.create("in", b"a");
    disk.create("dep.d", b"a.out surprise: extra.h\n");
    disk.tick();
    disk.create("a.out", b"x");

    let manifest = "rule one\n  command = one\n  depfile = dep.d\n\nbuild a.out: one in\n";
    let mut state = build_state(&disk, manifest);
    let node = state.lookup_node("a.out").unwrap();
    let e = scan(&mut state, &disk, node).unwrap_err().message();
    assert!(e.contains("depfile mentions 'surprise' as an output"), "{e}");
}

fn scan_target(state: &mut State, disk: &MemDisk, target: &str) -> NodeId {
    let node = state.lookup_node(target).unwrap();
    scan(state, disk, node).unwrap();
    node
}

#[test]
fn basic_chain_runs_in_order() {
    let mut disk = MemDisk::new();
    disk.create("a", b"a");
    let mut state = build_state(&disk, &format!("{CAT}build b: cat a\nbuild c: cat b\n"));
    let c = scan_target(&mut state, &disk, "c");

    let mut plan = Plan::new();
    assert!(plan.add_target(&state, c).unwrap());
    assert_eq!(plan.command_edge_count(), 2);
    plan.prepare_queue(&mut state);

    // Only `b` is ready at first.
    let first = plan.find_work().unwrap();
    assert_eq!(state.node(state.edge(first).outputs()[0]).path(), "b");
    assert!(plan.find_work().is_none());

    // Finishing `b` releases `c`.
    let b = state.edge(first).outputs()[0];
    state.node_mut(b).set_mtime(1);
    plan.edge_finished(&mut state, first, EdgeResult::Succeeded).unwrap();
    let second = plan.find_work().unwrap();
    assert_eq!(state.node(state.edge(second).outputs()[0]).path(), "c");
    plan.edge_finished(&mut state, second, EdgeResult::Succeeded).unwrap();
    assert!(!plan.more_to_do());
}

#[test]
fn missing_input_is_an_error() {
    let disk = MemDisk::new();
    let mut state = build_state(&disk, &format!("{CAT}build b: cat a\n"));
    let b = scan_target(&mut state, &disk, "b");
    let mut plan = Plan::new();
    let err = plan.add_target(&state, b).unwrap_err().message();
    assert!(
        err.contains("'a', needed by 'b', missing and no known rule to make it"),
        "{err}"
    );
}

#[test]
fn phony_edges_have_no_commands() {
    let mut disk = MemDisk::new();
    disk.create("a", b"a");
    let mut state = build_state(&disk, &format!("{CAT}build b: cat a\nbuild all: phony b\n"));
    let all = scan_target(&mut state, &disk, "all");
    let mut plan = Plan::new();
    plan.add_target(&state, all).unwrap();
    assert_eq!(plan.command_edge_count(), 1);
    assert_eq!(plan.wanted_edge_count(), 2);
}

#[test]
fn pool_limits_concurrency() {
    let mut disk = MemDisk::new();
    disk.create("a", b"a");
    disk.create("b", b"b");
    let manifest = format!(
        "pool p\n  depth = 1\n\n\
         rule cat2\n  command = cat $in > $out\n  pool = p\n\n\
         build x: cat2 a\nbuild y: cat2 b\nbuild all: phony x y\n{CAT}"
    );
    let mut state = build_state(&disk, &manifest);
    let all = scan_target(&mut state, &disk, "all");
    let mut plan = Plan::new();
    plan.add_target(&state, all).unwrap();
    plan.prepare_queue(&mut state);

    let first = plan.find_work().unwrap();
    // The pool only allows one at a time.
    assert!(plan.find_work().is_none());
    let out = state.edge(first).outputs()[0];
    state.node_mut(out).set_mtime(1);
    plan.edge_finished(&mut state, first, EdgeResult::Succeeded).unwrap();
    assert!(plan.find_work().is_some());
}

#[test]
fn critical_path_prefers_long_chains() {
    let mut disk = MemDisk::new();
    disk.create("src", b"x");
    // `short` is one step; `long1 -> long2` is two, so the long chain
    // should start first even though it comes later in the manifest.
    let manifest = format!(
        "{CAT}build short: cat src\nbuild long1: cat src\nbuild long2: cat long1\n\
         build all: phony short long2\n"
    );
    let mut state = build_state(&disk, &manifest);
    let all = scan_target(&mut state, &disk, "all");
    let mut plan = Plan::new();
    plan.add_target(&state, all).unwrap();
    plan.prepare_queue(&mut state);

    let first = plan.find_work().unwrap();
    assert_eq!(state.node(state.edge(first).outputs()[0]).path(), "long1");
}

#[test]
fn order_only_input_still_gates_scheduling() {
    let mut disk = MemDisk::new();
    disk.create("a", b"a");
    let mut state = build_state(
        &disk,
        &format!("{CAT}build oo: cat a\nbuild out: cat a || oo\n"),
    );
    let out = scan_target(&mut state, &disk, "out");
    let mut plan = Plan::new();
    plan.add_target(&state, out).unwrap();
    plan.prepare_queue(&mut state);

    let first = plan.find_work().unwrap();
    assert_eq!(state.node(state.edge(first).outputs()[0]).path(), "oo");
    assert!(plan.find_work().is_none());
}

#[test]
fn finishing_what_was_not_planned_is_an_error() {
    let disk = MemDisk::new();
    let mut state = build_state(&disk, &format!("{CAT}build b: cat a\n"));
    let mut plan = Plan::new();
    let e = plan
        .edge_finished(&mut state, EdgeId(0), EdgeResult::Succeeded)
        .unwrap_err();
    assert_eq!(e.message(), "internal error: finished an edge not in the plan");
}

#[test]
fn a_failed_edge_does_not_release_its_dependents() {
    let mut disk = MemDisk::new();
    disk.create("a", b"a");
    let mut state = build_state(&disk, &format!("{CAT}build b: cat a\nbuild c: cat b\n"));
    let c = scan_target(&mut state, &disk, "c");
    let mut plan = Plan::new();
    plan.add_target(&state, c).unwrap();
    plan.prepare_queue(&mut state);
    let first = plan.find_work().unwrap();
    plan.edge_finished(&mut state, first, EdgeResult::Failed).unwrap();
    assert!(plan.find_work().is_none());
    assert!(plan.more_to_do());
}

#[test]
fn an_edge_is_scanned_once_however_many_need_it() {
    let mut disk = MemDisk::new();
    disk.create("a", b"a");
    let manifest = format!("{CAT}build b: cat a\nbuild c: cat b\nbuild d: cat b\nbuild e: cat c d\n");
    let mut state = build_state(&disk, &manifest);
    let e = state.lookup_node("e").unwrap();
    let mut notes = Some(Explanations::new());
    let mut v = Vec::new();
    DependencyScan::new(&disk, None, None)
        .recompute_dirty(&mut state, &mut notes, e, &mut v)
        .unwrap();
    let b = state.lookup_node("b").unwrap();
    let mut msgs = Vec::new();
    notes.unwrap().lookup_and_append(b, &mut msgs);
    assert_eq!(msgs.len(), 1, "{msgs:?}");
}
