//! The `-t` subtools: inspecting the graph, dumping commands, and so on.
//!
//! Each tool is a function that returns a `String` rather than printing, so it
//! can be used from a library as easily as from the command line.

use vstd::prelude::*;
use vstd::string::*;

use crate::canon::canonicalize_path;
use crate::deps_log::DepsLog;
use crate::disk::DiskInterface;
use crate::dyndep::load_dyndeps;
use crate::error::Error;
use crate::parse::quoted;
use crate::state::{Edge, EdgeId, NodeId, State};
use crate::text::{chars_of, push_decimal, push_signed, str_eq, string_of};

pub mod compdb;
pub mod list;
pub mod missing;
pub mod walk;

pub use compdb::{command_with_rspfile_expanded, compdb, compdb_targets};
pub use list::{
    rules, targets_all, targets_by_depth, targets_by_rule, targets_source_list,
};
pub use missing::{missing_deps, MissingDepsReport};
pub use walk::{commands, graph, inputs, multi_inputs, InputsCollector, InputsOptions};

verus! {

use crate::canon::canonical;
use crate::deps_log::{is_live, DepsLogView};
use crate::dyndep::{dyndeps_tried, marks_kept};
use crate::error::ErrorView;
use crate::state::{nodes_below, path_bytes, path_of, StateView};
use crate::text::{decimal, signed_decimal, texts};
use crate::util::{is_suggestion, no_suggestion};
use vstd::utf8::encode_utf8;

/// The path that a command line names, and whether it ends in `^`, which asks
/// for what is built from it.
pub open spec fn named_path(name: Seq<char>) -> (Seq<char>, bool) {
    let p = canonical(name);
    if p.len() > 0 && p.last() == '^' {
        (p.drop_last(), true)
    } else {
        (p, false)
    }
}

/// Whether `m` is the complaint about a target that is not in the graph.
pub open spec fn is_unknown_target(s: StateView, path: Seq<char>, m: Seq<char>) -> bool {
    let complaint = "unknown target '"@ + path + "'"@;
    if path == "clean"@ {
        m == complaint + ", did you mean 'shuriken -t clean'?"@
    } else if path == "help"@ {
        m == complaint + ", did you mean 'shuriken -h'?"@
    } else {
        ||| no_suggestion(path_bytes(s), encode_utf8(path)) && m == complaint
        ||| exists|n: int|
            is_suggestion(path_bytes(s), encode_utf8(path), n) && m == complaint
                + ", did you mean '"@ + #[trigger] s.nodes[n].path + "'?"@
    }
}

/// What `path^` stands for, where `node` is that of `path`: the first output of
/// the first edge that consumes it. A header has no out edge in the manifest,
/// but a dependency on it may have been recorded.
pub open spec fn dependent_of(s: StateView, deps: Option<DepsLogView>, node: NodeId) -> Result<
    NodeId,
    ErrorView,
> {
    let n = s.nodes[node.0 as int];
    let recorded = match deps {
        Some(l) => l.first_dependent(node),
        None => None,
    };
    if n.out_edges.len() == 0 {
        match recorded {
            Some(d) => Ok(d),
            None => Err(ErrorView::Graph("'"@ + n.path + "' has no out edge"@)),
        }
    } else {
        let outputs = s.edges[n.out_edges[0].0 as int].outputs;
        if outputs.len() == 0 {
            Err(ErrorView::Graph("edge has no outputs"@))
        } else {
            Ok(outputs[0])
        }
    }
}

/// Whether `r` is what a name on the command line stands for.
pub open spec fn is_target(
    r: Result<NodeId, Error>,
    s: StateView,
    deps: Option<DepsLogView>,
    name: Seq<char>,
) -> bool {
    let (path, caret) = named_path(name);
    if name.len() == 0 {
        r matches Err(e) && e@ == ErrorView::Graph("empty path"@)
    } else {
        match s.find_node(path) {
            None => r matches Err(e) && (e@ matches ErrorView::Graph(m) && is_unknown_target(
                s,
                path,
                m,
            )),
            Some(n) => if caret {
                match (r, dependent_of(s, deps, n)) {
                    (Ok(a), Ok(b)) => a == b,
                    (Err(e), Err(f)) => e@ == f,
                    _ => false,
                }
            } else {
                r == Ok::<NodeId, Error>(n)
            },
        }
    }
}

fn unknown_target(state: &State, path: &str) -> (r: String)
    ensures
        is_unknown_target(state@, path@, r@),
{
    let mut m = quoted("unknown target '", path, "'");
    if str_eq(path, "clean") {
        m.append(", did you mean 'shuriken -t clean'?");
    } else if str_eq(path, "help") {
        m.append(", did you mean 'shuriken -h'?");
    } else {
        match state.spellcheck_node(path) {
            Some(n) => {
                m.append(", did you mean '");
                m.append(state.node(n).path());
                m.append("'?");
                assert(state@.nodes[n.0 as int].path == path_of(state@, n));
            },
            None => {},
        }
    }
    m
}

/// Resolve a command-line target name to a node.
///
/// Supports ninja's `path^` syntax, which means "the first output of the first
/// edge that consumes `path`".
pub fn collect_target(state: &State, deps_log: Option<&DepsLog>, path: &str) -> (r: Result<
    NodeId,
    Error,
>)
    requires
        state.wf(),
        crate::graph::deps_log_of(deps_log) matches Some(l) ==> l.fits(state@.nodes.len()),
    ensures
        is_target(r, state@, crate::graph::deps_log_of(deps_log), path@),
        r matches Ok(n) ==> n.0 < state@.nodes.len(),
{
    if path.is_empty() {
        return Err(Error::Graph("empty path".to_owned()));
    }
    let mut name: String = path.to_owned();
    canonicalize_path(&mut name);
    let v = chars_of(name.as_str());
    let mut caret: bool = false;
    if v.len() > 0 && v[v.len() - 1] == '^' {
        name = string_of(&v, 0, v.len() - 1);
        caret = true;
        assert(name@ =~= canonical(path@).drop_last());
    }
    assert((name@, caret) == named_path(path@));
    let node = match state.lookup_node(name.as_str()) {
        None => {
            return Err(Error::Graph(unknown_target(state, name.as_str())));
        },
        Some(n) => n,
    };
    if !caret {
        return Ok(node);
    }
    proof {
        state.lemma_wf();
        assert(state@.node_ok(state@.nodes[node.0 as int]));
    }
    if state.node(node).out_edges().len() == 0 {
        let recorded: Option<NodeId> = match deps_log {
            Some(log) => log.first_reverse_deps_node(node),
            None => None,
        };
        proof {
            if recorded is Some {
                let nodes = crate::graph::deps_log_of(deps_log)->0.nodes;
                let i = choose|i: int| 0 <= i < nodes.len() && nodes[i] == recorded->0;
                assert(nodes[i].0 < state@.nodes.len());
            }
        }
        return match recorded {
            Some(n) => Ok(n),
            None => Err(Error::Graph(quoted("'", name.as_str(), "' has no out edge"))),
        };
    }
    let edge = state.node(node).out_edges()[0];
    proof {
        assert(state@.edge_ok(state@.edges[edge.0 as int]));
    }
    if state.edge(edge).outputs().len() == 0 {
        return Err(Error::Graph("edge has no outputs".to_owned()));
    }
    Ok(state.edge(edge).outputs()[0])
}

/// Whether `v` is what the names stand for, one by one.
pub open spec fn are_targets(
    v: Seq<NodeId>,
    s: StateView,
    deps: Option<DepsLogView>,
    names: Seq<Seq<char>>,
) -> bool {
    v.len() == names.len() && forall|i: int|
        0 <= i < v.len() ==> is_target(Ok(#[trigger] v[i]), s, deps, names[i])
}

/// Whether `e` is the complaint about the first of the names that stands for
/// nothing.
pub open spec fn is_first_complaint(
    e: Error,
    s: StateView,
    deps: Option<DepsLogView>,
    names: Seq<Seq<char>>,
) -> bool {
    exists|k: int|
        0 <= k < names.len() && is_target(Err(e), s, deps, #[trigger] names[k]) && exists|
            v: Seq<NodeId>,
        | #[trigger]
            are_targets(v, s, deps, names.take(k))
}

/// Resolve every target name, defaulting to the manifest's default targets.
pub fn collect_targets(state: &State, deps_log: Option<&DepsLog>, names: &[String]) -> (r: Result<
    Vec<NodeId>,
    Error,
>)
    requires
        state.wf(),
        crate::graph::deps_log_of(deps_log) matches Some(l) ==> l.fits(state@.nodes.len()),
    ensures
        r matches Ok(v) ==> nodes_below(v@, state@.nodes.len()),
        names@.len() == 0 ==> match (r, state@.default_targets()) {
            (Ok(v), Ok(w)) => v@ == w,
            (Err(e), Err(m)) => e@ == ErrorView::Graph(m),
            _ => false,
        },
        names@.len() > 0 ==> match r {
            Ok(v) => are_targets(
                v@,
                state@,
                crate::graph::deps_log_of(deps_log),
                texts(names@),
            ),
            Err(e) => is_first_complaint(
                e,
                state@,
                crate::graph::deps_log_of(deps_log),
                texts(names@),
            ),
        },
{
    if names.len() == 0 {
        return match state.default_nodes() {
            Ok(v) => Ok(v),
            Err(m) => Err(Error::Graph(m)),
        };
    }
    let ghost deps = crate::graph::deps_log_of(deps_log);
    let ghost all = texts(names@);
    let mut v: Vec<NodeId> = Vec::new();
    let mut k: usize = 0;
    while k < names.len()
        invariant
            k <= names@.len(),
            state.wf(),
            deps == crate::graph::deps_log_of(deps_log),
            deps matches Some(l) ==> l.fits(state@.nodes.len()),
            all == texts(names@),
            names@.len() > 0,
            are_targets(v@, state@, deps, all.take(k as int)),
            nodes_below(v@, state@.nodes.len()),
        decreases names@.len() - k,
    {
        assert(all[k as int] == names@[k as int]@);
        match collect_target(state, deps_log, names[k].as_str()) {
            Err(e) => {
                assert(is_target(Err(e), state@, deps, all[k as int]));
                return Err(e);
            },
            Ok(n) => {
                let ghost had = v@;
                v.push(n);
                proof {
                    assert forall|i: int| 0 <= i < v@.len() implies is_target(
                        Ok(#[trigger] v@[i]),
                        state@,
                        deps,
                        all.take(k + 1)[i],
                    ) by {
                        if i < k {
                            assert(v@[i] == had[i]);
                            assert(all.take(k + 1)[i] == all.take(k as int)[i]);
                        }
                    }
                }
            },
        }
        k += 1;
    }
    assert(all.take(k as int) =~= all);
    Ok(v)
}

/// `acc` with a line for each node from the `k`-th on behind it.
pub open spec fn with_paths(acc: Seq<char>, s: StateView, nodes: Seq<NodeId>, k: int) -> Seq<char>
    decreases nodes.len() - k,
{
    if 0 <= k < nodes.len() {
        with_paths(acc + "    "@ + path_of(s, nodes[k]) + "\n"@, s, nodes, k + 1)
    } else {
        acc
    }
}

/// The same for the outputs of the edges from the `k`-th on.
pub open spec fn with_outputs(acc: Seq<char>, s: StateView, edges: Seq<EdgeId>, k: int) -> Seq<char>
    decreases edges.len() - k,
{
    if 0 <= k < edges.len() {
        with_outputs(
            with_paths(acc, s, s.edges[edges[k].0 as int].outputs, 0),
            s,
            edges,
            k + 1,
        )
    } else {
        acc
    }
}

/// What marks the input at `i` of an edge in a listing.
pub open spec fn input_label(e: crate::state::EdgeView, i: int) -> Seq<char> {
    if e.order_only(i) {
        "|| "@
    } else if e.explicit() <= i {
        "| "@
    } else {
        ""@
    }
}

/// `acc` with a line for each input of an edge from the `k`-th on behind it.
pub open spec fn with_inputs(acc: Seq<char>, s: StateView, edge: EdgeId, k: int) -> Seq<char>
    decreases s.edges[edge.0 as int].inputs.len() - k,
{
    let e = s.edges[edge.0 as int];
    if 0 <= k < e.inputs.len() {
        with_inputs(
            acc + "    "@ + input_label(e, k) + path_of(s, e.inputs[k]) + "\n"@,
            s,
            edge,
            k + 1,
        )
    } else {
        acc
    }
}

/// `acc` with what is known of the producer of a node behind it.
pub open spec fn with_producer(acc: Seq<char>, s: StateView, edge: EdgeId) -> Seq<char> {
    let e = s.edges[edge.0 as int];
    let text = with_inputs(
        acc + "  input: "@ + s.rule_of(edge.0 as int).name + "\n"@,
        s,
        edge,
        0,
    );
    if e.validations.len() == 0 {
        text
    } else {
        with_paths(text + "  validations:\n"@, s, e.validations, 0)
    }
}

/// `acc` with what is known of a node behind it.
pub open spec fn with_query(acc: Seq<char>, s: StateView, node: NodeId) -> Seq<char> {
    let n = s.nodes[node.0 as int];
    let name = acc + n.path + ":\n"@;
    let made = match n.in_edge {
        Some(e) => with_producer(name, s, e),
        None => name,
    };
    let used = with_outputs(made + "  outputs:\n"@, s, n.out_edges, 0);
    if n.validation_out_edges.len() == 0 {
        used
    } else {
        with_outputs(used + "  validation for:\n"@, s, n.validation_out_edges, 0)
    }
}

fn push_paths(out: &mut String, state: &State, nodes: &[NodeId])
    requires
        state.wf(),
        nodes_below(nodes@, state@.nodes.len()),
    ensures
        final(out)@ == with_paths(old(out)@, state@, nodes@, 0),
{
    let ghost want = with_paths(out@, state@, nodes@, 0);
    let mut k: usize = 0;
    while k < nodes.len()
        invariant
            k <= nodes@.len(),
            nodes_below(nodes@, state@.nodes.len()),
            with_paths(out@, state@, nodes@, k as int) == want,
        decreases nodes@.len() - k,
    {
        out.append("    ");
        out.append(state.node(nodes[k]).path());
        out.append("\n");
        k += 1;
    }
}

fn push_outputs(out: &mut String, state: &State, edges: &[EdgeId])
    requires
        state.wf(),
        forall|i: int| 0 <= i < edges@.len() ==> (#[trigger] edges@[i]).0 < state@.edges.len(),
    ensures
        final(out)@ == with_outputs(old(out)@, state@, edges@, 0),
{
    let ghost want = with_outputs(out@, state@, edges@, 0);
    let mut k: usize = 0;
    while k < edges.len()
        invariant
            k <= edges@.len(),
            state.wf(),
            forall|i: int|
                0 <= i < edges@.len() ==> (#[trigger] edges@[i]).0 < state@.edges.len(),
            with_outputs(out@, state@, edges@, k as int) == want,
        decreases edges@.len() - k,
    {
        let edge = edges[k];
        proof {
            state.lemma_wf();
            assert(state@.edge_ok(state@.edges[edge.0 as int]));
        }
        push_paths(out, state, state.edge(edge).outputs());
        k += 1;
    }
}

fn push_inputs(out: &mut String, state: &State, edge: EdgeId)
    requires
        state.wf(),
        edge.0 < state@.edges.len(),
    ensures
        final(out)@ == with_inputs(old(out)@, state@, edge, 0),
{
    let ghost want = with_inputs(out@, state@, edge, 0);
    let e = state.edge(edge);
    proof {
        state.lemma_wf();
        assert(state@.edge_ok(state@.edges[edge.0 as int]));
    }
    let explicit: usize = e.explicit_deps();
    let mut k: usize = 0;
    while k < e.inputs().len()
        invariant
            k <= e@.inputs.len(),
            e@ == state@.edges[edge.0 as int],
            explicit == e@.explicit(),
            nodes_below(e@.inputs, state@.nodes.len()),
            with_inputs(out@, state@, edge, k as int) == want,
        decreases e@.inputs.len() - k,
    {
        out.append("    ");
        out.append(
            if e.inputs().len() - k <= e.order_only_deps() {
                "|| "
            } else if explicit <= k {
                "| "
            } else {
                ""
            },
        );
        out.append(state.node(e.inputs()[k]).path());
        out.append("\n");
        k += 1;
    }
}

/// What produces `node`, and what consumes it.
pub fn query_node(state: &State, node: NodeId, out: &mut String)
    requires
        state.wf(),
        node.0 < state@.nodes.len(),
    ensures
        final(out)@ == with_query(old(out)@, state@, node),
{
    let n = state.node(node);
    proof {
        state.lemma_wf();
        assert(state@.node_ok(state@.nodes[node.0 as int]));
    }
    out.append(n.path());
    out.append(":\n");
    if let Some(edge) = n.in_edge() {
        proof {
            assert(state@.edge_ok(state@.edges[edge.0 as int]));
        }
        out.append("  input: ");
        out.append(state.edge_rule_name(edge));
        out.append("\n");
        push_inputs(out, state, edge);
        let validations = state.edge(edge).validations();
        if validations.len() > 0 {
            out.append("  validations:\n");
            push_paths(out, state, validations);
        }
    }
    out.append("  outputs:\n");
    push_outputs(out, state, n.out_edges());
    if n.validation_out_edges().len() > 0 {
        out.append("  validation for:\n");
        push_outputs(out, state, n.validation_out_edges());
    }
}

/// The graph after the dyndep file that the producer of `node` waits for has
/// been loaded, as far as it can be.
pub open spec fn query_loaded<D: DiskInterface>(m: D::Model, s: StateView, node: NodeId) -> StateView {
    match s.nodes[node.0 as int].in_edge {
        None => s,
        Some(e) => match s.edges[e.0 as int].dyndep {
            None => s,
            Some(d) => if s.nodes[d.0 as int].dyndep_pending {
                dyndeps_tried::<D>(s, m, d)
            } else {
                s
            },
        },
    }
}

/// `acc` with what is known of the nodes from the `k`-th on behind it, and the
/// graph that the dyndep files on the way leave.
pub open spec fn queried<D: DiskInterface>(
    acc: Seq<char>,
    m: D::Model,
    s: StateView,
    nodes: Seq<NodeId>,
    k: int,
) -> (StateView, Seq<char>)
    decreases nodes.len() - k,
{
    if 0 <= k < nodes.len() {
        let t = query_loaded::<D>(m, s, nodes[k]);
        queried::<D>(with_query(acc, t, nodes[k]), m, t, nodes, k + 1)
    } else {
        (s, acc)
    }
}

fn load_for_query<D: DiskInterface>(state: &mut State, disk: &D, node: NodeId)
    requires
        old(state).wf(),
        node.0 < old(state)@.nodes.len(),
    ensures
        final(state).wf(),
        marks_kept(old(state)@, final(state)@),
        final(state)@ == query_loaded::<D>(disk.model(), old(state)@, node),
{
    proof {
        state.lemma_wf();
        assert(state@.node_ok(state@.nodes[node.0 as int]));
    }
    if let Some(edge) = state.node(node).in_edge() {
        proof {
            assert(state@.edge_ok(state@.edges[edge.0 as int]));
        }
        if let Some(d) = state.edge(edge).dyndep() {
            if state.node(d).dyndep_pending {
                let _ = load_dyndeps(state, disk, d);
            }
        }
    }
}

/// `-t query`: what produces a path, and what consumes it.
pub fn query<D: DiskInterface>(state: &mut State, disk: &D, targets: &[NodeId]) -> (r: String)
    requires
        old(state).wf(),
        nodes_below(targets@, old(state)@.nodes.len()),
    ensures
        final(state).wf(),
        marks_kept(old(state)@, final(state)@),
        (final(state)@, r@) == queried::<D>(
            Seq::empty(),
            disk.model(),
            old(state)@,
            targets@,
            0,
        ),
{
    let ghost m = disk.model();
    let ghost s0 = state@;
    let ghost want = queried::<D>(Seq::empty(), m, s0, targets@, 0);
    let mut out = String::new();
    assert(out@ =~= Seq::empty());
    let mut k: usize = 0;
    while k < targets.len()
        invariant
            k <= targets@.len(),
            m == disk.model(),
            s0 == old(state)@,
            state.wf(),
            marks_kept(s0, state@),
            nodes_below(targets@, s0.nodes.len()),
            queried::<D>(out@, m, state@, targets@, k as int) == want,
        decreases targets@.len() - k,
    {
        let node = targets[k];
        load_for_query(state, disk, node);
        query_node(state, node, &mut out);
        k += 1;
    }
    out
}

/// `acc` with the recorded dependencies of a node behind it.
pub open spec fn with_deps_of<D: DiskInterface>(
    acc: Seq<char>,
    s: StateView,
    m: D::Model,
    log: DepsLogView,
    node: NodeId,
) -> Seq<char> {
    let path = path_of(s, node);
    let mtime = match D::mtime_of(m, path) {
        Ok(t) => t,
        Err(_) => 0,
    };
    match log.deps_of(s, node) {
        None => acc + path + ": deps not found\n"@,
        Some(d) => with_paths(
            acc + path + ": #deps "@ + decimal(d.nodes.len()) + ", deps mtime "@
                + signed_decimal(d.mtime as int) + (if mtime == 0 || mtime > d.mtime {
                " (STALE)\n"@
            } else {
                " (VALID)\n"@
            }),
            s,
            d.nodes,
            0,
        ) + "\n"@,
    }
}

/// The same for the nodes from the `k`-th on, except those that `live_only`
/// leaves out because nothing uses the log for them any more.
pub open spec fn with_deps_from<D: DiskInterface>(
    acc: Seq<char>,
    s: StateView,
    m: D::Model,
    log: DepsLogView,
    nodes: Seq<NodeId>,
    live_only: bool,
    k: int,
) -> Seq<char>
    decreases nodes.len() - k,
{
    if 0 <= k < nodes.len() {
        with_deps_from::<D>(
            if live_only && !is_live(s, nodes[k]) {
                acc
            } else {
                with_deps_of::<D>(acc, s, m, log, nodes[k])
            },
            s,
            m,
            log,
            nodes,
            live_only,
            k + 1,
        )
    } else {
        acc
    }
}

fn push_deps_of<D: DiskInterface>(
    out: &mut String,
    state: &State,
    disk: &D,
    deps_log: &DepsLog,
    node: NodeId,
)
    requires
        state.wf(),
        deps_log@.fits(state@.nodes.len()),
        node.0 < state@.nodes.len(),
    ensures
        final(out)@ == with_deps_of::<D>(old(out)@, state@, disk.model(), deps_log@, node),
{
    let path = state.node(node).path();
    out.append(path);
    match deps_log.get_deps(state, node) {
        None => {
            out.append(": deps not found\n");
        },
        Some(deps) => {
            let mtime: i64 = match disk.stat(path) {
                Ok(t) => t,
                Err(_) => 0,
            };
            proof {
                let id = state@.nodes[node.0 as int].deps_log_id as int;
                assert(crate::deps_log::deps_fit(deps_log@.deps[id], state@.nodes.len()));
            }
            out.append(": #deps ");
            push_decimal(out, deps.nodes.len() as u128);
            out.append(", deps mtime ");
            push_signed(out, deps.mtime);
            out.append(
                if mtime == 0 || mtime > deps.mtime {
                    " (STALE)\n"
                } else {
                    " (VALID)\n"
                },
            );
            push_paths(out, state, deps.nodes.as_slice());
            out.append("\n");
        },
    }
}

/// `-t deps`: the dependencies recorded in the deps log.
pub fn deps<D: DiskInterface>(state: &State, disk: &D, deps_log: &DepsLog, targets: &[NodeId]) -> (r:
    String)
    requires
        state.wf(),
        deps_log@.fits(state@.nodes.len()),
        nodes_below(targets@, state@.nodes.len()),
    ensures
        r@ == with_deps_from::<D>(
            Seq::empty(),
            state@,
            disk.model(),
            deps_log@,
            if targets@.len() == 0 {
                deps_log@.nodes
            } else {
                targets@
            },
            targets@.len() == 0,
            0,
        ),
{
    let live_only: bool = targets.len() == 0;
    let nodes: &[NodeId] = if live_only {
        deps_log.nodes()
    } else {
        targets
    };
    let mut out = String::new();
    assert(out@ =~= Seq::empty());
    let ghost want = with_deps_from::<D>(
        out@,
        state@,
        disk.model(),
        deps_log@,
        nodes@,
        live_only,
        0,
    );
    let mut k: usize = 0;
    while k < nodes.len()
        invariant
            k <= nodes@.len(),
            state.wf(),
            deps_log@.fits(state@.nodes.len()),
            nodes_below(nodes@, state@.nodes.len()),
            with_deps_from::<D>(
                out@,
                state@,
                disk.model(),
                deps_log@,
                nodes@,
                live_only,
                k as int,
            ) == want,
        decreases nodes@.len() - k,
    {
        let node = nodes[k];
        if !live_only || DepsLog::is_deps_entry_live_for(state, node) {
            push_deps_of(&mut out, state, disk, deps_log, node);
        }
        k += 1;
    }
    out
}

} // verus!
