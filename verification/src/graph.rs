//! Deciding what is out of date.
//!
//! [`DependencyScan`] walks the graph from a target, stats files, loads
//! discovered dependencies (depfiles, the deps log, dyndep files) and marks
//! nodes dirty, including the `restat` and `generator` special cases and the
//! `-d explain` diagnostics.

use vstd::prelude::*;
use vstd::string::*;

use crate::build_log::BuildLog;
use crate::canon::canonicalize_path;
use crate::depfile::parse_depfile;
use crate::deps_log::DepsLog;
use crate::disk::DiskInterface;
use crate::dyndep::{load_dyndeps, DyndepFile};
use crate::error::Error;
use crate::eval::phony_rule;
use crate::hash::hash_command;
use crate::parse::quoted;
use crate::state::{EdgeId, NodeId, State, VisitMark};
use crate::text::{push_signed, str_eq};

verus! {

use crate::build_log::Entries;
use crate::canon::canonical;
use crate::depfile::depfile_of;
use crate::deps_log::DepsLogView;
use crate::dyndep::{dyndeps_loaded, links_kept, marks_kept, only_grown, read_as};
use crate::error::ErrorView;
use crate::hash::rapidhash_of;
use crate::state::{
    cut, halted, nodes_below, path_of, Cut, EdgeView, Escape, Existence, Halt, NodeView, StateView,
};
use crate::text::{signed_decimal, texts};
use vstd::utf8::encode_utf8;

/// Explanations by what they say, in the order in which they were recorded.
pub type Notes = Seq<(NodeId, Seq<char>)>;

/// Per-node explanations of why something is dirty, collected for
/// `-d explain`.
#[derive(Debug)]
pub struct Explanations {
    notes: Vec<(NodeId, String)>,
}

/// The messages of the first `k` explanations that are about `node`.
pub open spec fn notes_about(notes: Notes, node: NodeId, k: int) -> Seq<Seq<char>>
    decreases k,
{
    if 0 < k <= notes.len() {
        let rest = notes_about(notes, node, k - 1);
        if notes[k - 1].0 == node {
            rest.push(notes[k - 1].1)
        } else {
            rest
        }
    } else {
        Seq::empty()
    }
}

impl View for Explanations {
    type V = Notes;

    closed spec fn view(&self) -> Notes {
        Seq::new(self.notes@.len(), |i: int| (self.notes@[i].0, self.notes@[i].1@))
    }
}

impl Explanations {
    /// An empty collection.
    pub fn new() -> (r: Explanations)
        ensures
            r@ == Seq::<(NodeId, Seq<char>)>::empty(),
    {
        let r = Explanations { notes: Vec::new() };
        assert(r@ =~= Seq::empty());
        r
    }

    /// Record an explanation for `node`.
    pub fn record(&mut self, node: NodeId, message: String)
        ensures
            final(self)@ == old(self)@.push((node, message@)),
    {
        self.notes.push((node, message));
        assert(self@ =~= old(self)@.push((node, message@)));
    }

    /// Append (and keep) the explanations recorded for `node`.
    pub fn lookup_and_append(&self, node: NodeId, out: &mut Vec<String>)
        ensures
            texts(final(out)@) == texts(old(out)@) + notes_about(
                self@,
                node,
                self@.len() as int,
            ),
    {
        let mut k: usize = 0;
        assert(texts(out@) =~= texts(old(out)@) + notes_about(self@, node, 0));
        while k < self.notes.len()
            invariant
                k <= self.notes@.len(),
                texts(out@) == texts(old(out)@) + notes_about(self@, node, k as int),
            decreases self.notes@.len() - k,
        {
            let ghost before = texts(out@);
            assert(self@[k as int] == (self.notes@[k as int].0, self.notes@[k as int].1@));
            if self.notes[k].0 == node {
                let m: String = self.notes[k].1.clone();
                let ghost mv = m@;
                out.push(m);
                assert(texts(out@) =~= before.push(mv));
            }
            k += 1;
            assert(texts(out@) =~= texts(old(out)@) + notes_about(self@, node, k as int));
        }
    }

    /// True if nothing has been recorded.
    pub fn is_empty(&self) -> (r: bool)
        ensures
            r == (self@.len() == 0),
    {
        self.notes.len() == 0
    }

    /// All recorded explanations, for printing.
    pub fn all(&self) -> (r: Vec<String>)
        ensures
            texts(r@) == Seq::new(self@.len(), |i: int| self@[i].1),
    {
        let mut out: Vec<String> = Vec::new();
        let mut k: usize = 0;
        while k < self.notes.len()
            invariant
                k <= self.notes@.len(),
                out@.len() == k,
                forall|i: int| 0 <= i < k ==> (#[trigger] out@[i])@ == self@[i].1,
            decreases self.notes@.len() - k,
        {
            out.push(self.notes[k].1.clone());
            k += 1;
        }
        assert(texts(out@) =~= Seq::new(self@.len(), |i: int| self@[i].1));
        out
    }
}

/// Where a scan gets its information from.
pub struct Sources<M> {
    /// The disk.
    pub disk: M,
    /// What the build log records, if there is one.
    pub log: Option<Entries>,
    /// The deps log, if there is one.
    pub deps: Option<DepsLogView>,
}

/// How far a scan has got.
#[verifier::ext_equal]
pub struct Progress {
    pub state: StateView,
    /// The explanations, if they are wanted.
    pub notes: Option<Notes>,
    /// The validation nodes that were discovered.
    pub validations: Seq<NodeId>,
    /// The nodes whose inputs are being visited.
    pub stack: Seq<NodeId>,
}

impl Progress {
    /// The progress with another graph.
    pub open spec fn at(self, state: StateView) -> Progress {
        Progress { state, ..self }
    }

    /// The progress with one more explanation.
    pub open spec fn explained(self, node: NodeId, message: Seq<char>) -> Progress {
        Progress {
            notes: match self.notes {
                Some(v) => Some(v.push((node, message))),
                None => None,
            },
            ..self
        }
    }
}

/// The graph after `node` has been looked at on disk, if it was not before.
pub open spec fn looked_at<D: DiskInterface>(m: D::Model, s: StateView, node: NodeId) -> Result<
    StateView,
    Halt,
> {
    let n = s.nodes[node.0 as int];
    if n.exists != Existence::Unknown {
        Ok(s)
    } else {
        match D::mtime_of(m, n.path) {
            Err(e) => halted(e, s),
            Ok(t) => Ok(s.with_node(node.0 as int, n.stated(t))),
        }
    }
}

/// The graph after the nodes from the `k`-th on have been looked at.
pub open spec fn all_looked_at<D: DiskInterface>(
    m: D::Model,
    s: StateView,
    nodes: Seq<NodeId>,
    k: int,
) -> Result<StateView, Halt>
    decreases nodes.len() - k,
{
    if 0 <= k < nodes.len() {
        match looked_at::<D>(m, s, nodes[k]) {
            Err(e) => Err(e),
            Ok(t) => all_looked_at::<D>(m, t, nodes, k + 1),
        }
    } else {
        Ok(s)
    }
}

/// A file that nothing makes is dirty exactly when it is missing.
pub open spec fn leaf_visited<D: DiskInterface>(m: D::Model, p: Progress, node: NodeId) -> Result<
    Progress,
    Cut<Progress>,
> {
    let i = node.0 as int;
    if p.state.nodes[i].exists != Existence::Unknown {
        Ok(p)
    } else {
        match looked_at::<D>(m, p.state, node) {
            Err(f) => cut(f.error, p.at(f.state)),
            Ok(s) => {
                let missing = s.nodes[i].exists != Existence::Exists;
                let t = s.with_node(i, NodeView { dirty: missing, ..s.nodes[i] });
                if missing {
                    Ok(
                        p.at(t).explained(
                            node,
                            s.nodes[i].path + " has no in-edge and is missing"@,
                        ),
                    )
                } else {
                    Ok(p.at(t))
                }
            },
        }
    }
}

/// The first place from the `k`-th on of a node that `edge` makes.
pub open spec fn place_of_edge(s: StateView, stack: Seq<NodeId>, edge: EdgeId, k: int) -> int
    decreases stack.len() - k,
{
    if 0 <= k < stack.len() && s.nodes[stack[k].0 as int].in_edge != Some(edge) {
        place_of_edge(s, stack, edge, k + 1)
    } else {
        k
    }
}

/// Paths, each with an arrow behind it.
pub open spec fn arrow_chain(s: StateView, nodes: Seq<NodeId>) -> Seq<char>
    decreases nodes.len(),
{
    if nodes.len() == 0 {
        Seq::empty()
    } else {
        arrow_chain(s, nodes.drop_last()) + path_of(s, nodes.last()) + " -> "@
    }
}

/// The cycle that `node` closes.
pub open spec fn cycle_at(s: StateView, stack: Seq<NodeId>, node: NodeId, edge: EdgeId) -> Seq<
    NodeId,
> {
    let k = place_of_edge(s, stack, edge, 0);
    seq![node] + stack.skip(k + 1)
}

/// The message about the cycle that `node` closes. It starts at the node that
/// closed it.
pub open spec fn cycle_text(s: StateView, stack: Seq<NodeId>, node: NodeId, edge: EdgeId) -> Seq<
    char,
> {
    let cycle = cycle_at(s, stack, node, edge);
    "dependency cycle: "@ + arrow_chain(s, cycle) + path_of(s, node) + if cycle.len() == 1
        && s.edges[edge.0 as int].maybe_phony_cycle() {
        " [-w phonycycle=err]"@
    } else {
        Seq::empty()
    }
}

/// The graph with other flags of an edge.
pub open spec fn with_ready(s: StateView, edge: EdgeId, v: bool) -> StateView {
    s.with_edge(edge.0 as int, EdgeView { outputs_ready: v, ..s.edges[edge.0 as int] })
}

/// The progress when the inputs of `edge` are about to be visited for `node`.
pub open spec fn entered(p: Progress, node: NodeId, edge: EdgeId) -> Progress {
    let e = p.state.edges[edge.0 as int];
    Progress {
        state: p.state.with_edge(
            edge.0 as int,
            EdgeView {
                mark: VisitMark::InStack,
                outputs_ready: true,
                deps_missing: false,
                ..e
            },
        ),
        stack: p.stack.push(node),
        ..p
    }
}

/// Whether `node` is up to date, as far as the scan knows.
pub open spec fn is_ready(s: StateView, node: NodeId) -> bool {
    match s.nodes[node.0 as int].in_edge {
        None => true,
        Some(e) => s.edges[e.0 as int].outputs_ready,
    }
}

/// The graph with a node for each of the paths from the `k`-th on, and these
/// nodes behind `acc`.
pub open spec fn deps_interned(s: StateView, paths: Seq<Seq<char>>, k: int, acc: Seq<NodeId>) -> (
    StateView,
    Seq<NodeId>,
)
    decreases paths.len() - k,
{
    if 0 <= k < paths.len() {
        let p = canonical(paths[k]);
        deps_interned(s.interned(p, 0), paths, k + 1, acc.push(s.id_of(p)))
    } else {
        (s, acc)
    }
}

/// Whether `path` is that of one of the first `k` nodes.
pub open spec fn is_path_among(s: StateView, nodes: Seq<NodeId>, path: Seq<char>) -> bool {
    exists|i: int| 0 <= i < nodes.len() && path_of(s, #[trigger] nodes[i]) == path
}

/// The first place from the `k`-th on of a path that is none of the nodes'.
pub open spec fn first_stranger(
    s: StateView,
    nodes: Seq<NodeId>,
    paths: Seq<Seq<char>>,
    k: int,
) -> int
    decreases paths.len() - k,
{
    if 0 <= k < paths.len() && is_path_among(s, nodes, paths[k]) {
        first_stranger(s, nodes, paths, k + 1)
    } else {
        k
    }
}

/// What the dependencies of a depfile make of the graph. The result says
/// whether they are there and up to date.
pub open spec fn depfile_applied(p: Progress, edge: EdgeId, path: Seq<char>, content: Seq<u8>) -> Result<
    (Progress, bool),
    Cut<Progress>,
> {
    let e = p.state.edges[edge.0 as int];
    let first = e.outputs[0];
    if content.len() == 0 {
        Ok((p.explained(first, "depfile '"@ + path + "' is missing"@), false))
    } else {
        match depfile_of(content) {
            Err(m) => cut(ErrorView::Build(path + ": "@ + m), p),
            Ok((outs, ins)) => if outs.len() == 0 {
                cut(ErrorView::Build(path + ": no outputs declared"@), p)
            } else {
                let names = outs.update(0, canonical(outs[0]));
                let k = first_stranger(p.state, e.outputs, names, 0);
                if path_of(p.state, first) != names[0] {
                    Ok(
                        (
                            p.explained(
                                first,
                                "expected depfile '"@ + path + "' to mention '"@ + path_of(
                                    p.state,
                                    first,
                                ) + "', got '"@ + names[0] + "'"@,
                            ),
                            false,
                        ),
                    )
                } else if k < names.len() {
                    cut(
                        ErrorView::Build(
                            path + ": depfile mentions '"@ + names[k]
                                + "' as an output, but no such output was declared"@,
                        ),
                        p,
                    )
                } else {
                    let (s, nodes) = deps_interned(p.state, ins, 0, Seq::empty());
                    Ok((p.at(s.inputs_spliced(edge, nodes, 0)), true))
                }
            },
        }
    }
}

/// What the dependencies in the deps log make of the graph. The result says
/// whether they are there and up to date.
pub open spec fn log_applied(deps: Option<DepsLogView>, p: Progress, edge: EdgeId) -> (Progress, bool) {
    let out = p.state.edges[edge.0 as int].outputs[0];
    let mtime = p.state.nodes[out.0 as int].mtime;
    let d = match deps {
        Some(l) => l.deps_of(p.state, out),
        None => None,
    };
    match d {
        None => (
            p.explained(out, "deps for '"@ + path_of(p.state, out) + "' are missing"@),
            false,
        ),
        Some(d) => if mtime > d.mtime {
            (
                p.explained(
                    out,
                    "stored deps info out of date for '"@ + path_of(p.state, out) + "' ("@
                        + signed_decimal(d.mtime as int) + " vs "@ + signed_decimal(mtime as int)
                        + ")"@,
                ),
                false,
            )
        } else {
            (p.at(p.state.inputs_spliced(edge, d.nodes, 0)), true)
        },
    }
}

/// Contents that may be missing, which is like being empty.
pub open spec fn or_empty(c: Option<Seq<u8>>) -> Seq<u8> {
    match c {
        Some(b) => b,
        None => Seq::empty(),
    }
}

/// What the discovered dependencies of `edge` make of the graph. The result
/// says whether they are there and up to date.
#[verifier::opaque]
pub open spec fn deps_applied<D: DiskInterface>(c: Sources<D::Model>, p: Progress, edge: EdgeId) -> Result<
    (Progress, bool),
    Cut<Progress>,
> {
    let e = edge.0 as int;
    let depfile = p.state.binding(e, "depfile"@, Escape::Plain);
    if p.state.binding(e, "deps"@, Escape::Shell).len() > 0 {
        Ok(log_applied(c.deps, p, edge))
    } else if depfile.len() > 0 {
        match D::content_of(c.disk, depfile) {
            Err(e) => cut(e, p),
            Ok(c) => depfile_applied(p, edge, depfile, or_empty(c)),
        }
    } else {
        Ok((p, true))
    }
}

/// What is known of `output` makes it dirty, or not.
#[verifier::opaque]
pub open spec fn output_checked(
    log: Option<Entries>,
    p: Progress,
    edge: EdgeId,
    newest: Option<NodeId>,
    command: Seq<char>,
    output: NodeId,
) -> (Progress, bool) {
    let e = edge.0 as int;
    let o = output.0 as int;
    let s = p.state;
    let path = s.nodes[o].path;
    let exists_now = s.nodes[o].exists == Existence::Exists;
    if s.edges[e].rule == phony_rule() {
        if s.edges[e].inputs.len() == 0 && !exists_now {
            (
                p.explained(
                    output,
                    "output "@ + path + " of phony edge with no inputs doesn't exist"@,
                ),
                true,
            )
        } else {
            match newest {
                Some(m) => (
                    p.at(s.with_node(o, s.nodes[o].raised(s.nodes[m.0 as int].mtime))),
                    false,
                ),
                None => (p, false),
            }
        }
    } else if !exists_now {
        (p.explained(output, "output "@ + path + " doesn't exist"@), true)
    } else {
        let entry = match log {
            Some(l) => if l.contains_key(path) {
                Some(l[path])
            } else {
                None
            },
            None => None,
        };
        let out_mtime = s.nodes[o].mtime;
        let in_mtime = match newest {
            Some(m) => s.nodes[m.0 as int].mtime,
            None => 0,
        };
        let in_path = match newest {
            Some(m) => path_of(s, m),
            None => Seq::empty(),
        };
        let generator = s.binding(e, "generator"@, Escape::Shell).len() > 0;
        if !(s.restat(e) && entry is Some) && newest is Some && out_mtime < in_mtime {
            (
                p.explained(
                    output,
                    "output "@ + path + " older than most recent input "@ + in_path + " ("@
                        + signed_decimal(out_mtime as int) + " vs "@ + signed_decimal(
                        in_mtime as int,
                    ) + ")"@,
                ),
                true,
            )
        } else if log is None {
            (p, false)
        } else {
            match entry {
                None => if generator {
                    (p, false)
                } else {
                    (p.explained(output, "command line not found in log for "@ + path), true)
                },
                Some(x) => if !generator && rapidhash_of(encode_utf8(command)) != x.command_hash {
                    (p.explained(output, "command line changed for "@ + path), true)
                } else if newest is Some && x.mtime < in_mtime {
                    (
                        p.explained(
                            output,
                            "recorded mtime of "@ + path + " older than most recent input "@
                                + in_path + " ("@ + signed_decimal(x.mtime as int) + " vs "@
                                + signed_decimal(in_mtime as int) + ")"@,
                        ),
                        true,
                    )
                } else {
                    (p, false)
                },
            }
        }
    }
}

/// Whether one of the outputs of `edge` from the `k`-th on is dirty.
pub open spec fn outputs_checked(
    log: Option<Entries>,
    p: Progress,
    edge: EdgeId,
    newest: Option<NodeId>,
    command: Seq<char>,
    outputs: Seq<NodeId>,
    k: int,
) -> (Progress, bool)
    decreases outputs.len() - k,
{
    if 0 <= k < outputs.len() {
        let (q, dirty) = output_checked(log, p, edge, newest, command, outputs[k]);
        if dirty {
            (q, true)
        } else {
            outputs_checked(log, q, edge, newest, command, outputs, k + 1)
        }
    } else {
        (p, false)
    }
}

/// Whether some output of `edge` is dirty, its newest input being `newest`.
pub open spec fn edge_checked(
    log: Option<Entries>,
    p: Progress,
    edge: EdgeId,
    newest: Option<NodeId>,
) -> (Progress, bool) {
    outputs_checked(
        log,
        p,
        edge,
        newest,
        p.state.hashed_command(edge.0 as int),
        p.state.edges[edge.0 as int].outputs,
        0,
    )
}

/// The graph with the nodes from the `k`-th on dirty.
pub open spec fn all_dirty(s: StateView, nodes: Seq<NodeId>, k: int) -> StateView
    decreases nodes.len() - k,
{
    if 0 <= k < nodes.len() {
        let i = nodes[k].0 as int;
        all_dirty(s.with_node(i, NodeView { dirty: true, ..s.nodes[i] }), nodes, k + 1)
    } else {
        s
    }
}

/// The outputs looked at, and the discovered dependencies loaded, if they were
/// not before. The result says whether they are missing.
#[verifier::opaque]
pub open spec fn outputs_visited<D: DiskInterface>(c: Sources<D::Model>, p: Progress, edge: EdgeId) -> Result<
    (Progress, bool),
    Cut<Progress>,
> {
    let i = edge.0 as int;
    match all_looked_at::<D>(c.disk, p.state, p.state.edges[i].outputs, 0) {
        Err(f) => cut(f.error, p.at(f.state)),
        Ok(s) => if s.edges[i].deps_loaded {
            Ok((p.at(s), false))
        } else {
            let t = s.with_edge(i, EdgeView { deps_loaded: true, ..s.edges[i] });
            match deps_applied::<D>(c, p.at(t), edge) {
                Err(e) => Err(e),
                Ok((q, there)) => if there {
                    Ok((q, false))
                } else {
                    Ok(
                        (
                            q.at(
                                q.state.with_edge(
                                    i,
                                    EdgeView { deps_missing: true, ..q.state.edges[i] },
                                ),
                            ),
                            true,
                        ),
                    )
                },
            }
        },
    }
}

/// What has been seen of the inputs of an edge.
pub struct Seen {
    pub dirty: bool,
    /// The newest clean input.
    pub newest: Option<NodeId>,
}

/// What input `i` of `edge`, which has been visited, makes of the edge that
/// `node` belongs to.
pub open spec fn input_seen(p: Progress, node: NodeId, edge: EdgeId, i: int, n: int, seen: Seen) -> (
    Progress,
    Seen,
) {
    let input = p.state.edges[edge.0 as int].inputs[i];
    let s = if is_ready(p.state, input) {
        p.state
    } else {
        with_ready(p.state, edge, false)
    };
    if i >= n {
        (p.at(s), seen)
    } else if s.nodes[input.0 as int].dirty {
        (
            p.at(s).explained(node, path_of(s, input) + " is dirty"@),
            Seen { dirty: true, ..seen },
        )
    } else if seen.newest is None || s.nodes[input.0 as int].mtime
        > s.nodes[(seen.newest->0).0 as int].mtime {
        (p.at(s), Seen { newest: Some(input), ..seen })
    } else {
        (p.at(s), seen)
    }
}

/// The progress when `edge` is done, for `node`.
#[verifier::opaque]
pub open spec fn finished(log: Option<Entries>, p: Progress, node: NodeId, edge: EdgeId, seen: Seen) -> Progress {
    let i = edge.0 as int;
    let (q, dirty) = if seen.dirty {
        (p, true)
    } else {
        edge_checked(log, p, edge, seen.newest)
    };
    let s1 = if dirty {
        all_dirty(q.state, q.state.edges[i].outputs, 0)
    } else {
        q.state
    };
    let idle = s1.edges[i].rule == phony_rule() && s1.edges[i].inputs.len() == 0;
    let s2 = if dirty && !idle {
        with_ready(s1, edge, false)
    } else {
        s1
    };
    Progress {
        state: s2.with_edge(i, EdgeView { mark: VisitMark::Done, ..s2.edges[i] }),
        stack: q.stack.drop_last(),
        ..q
    }
}

/// What visiting `node` and everything it depends on comes to. At most `depth`
/// edges can be nested.
pub open spec fn visited<D: DiskInterface>(
    c: Sources<D::Model>,
    p: Progress,
    node: NodeId,
    depth: nat,
) -> Result<Progress, Cut<Progress>>
    decreases depth, 2nat, 0nat,
{
    match p.state.nodes[node.0 as int].in_edge {
        None => leaf_visited::<D>(c.disk, p, node),
        Some(edge) => {
            let mark = p.state.edges[edge.0 as int].mark;
            if mark == VisitMark::Done {
                Ok(p)
            } else if mark == VisitMark::InStack {
                cut(ErrorView::Build(cycle_text(p.state, p.stack, node, edge)), p)
            } else if depth == 0 {
                cut(ErrorView::Interrupted, p)
            } else {
                match dyndep_visited::<D>(c, entered(p, node, edge), edge, (depth - 1) as nat) {
                    Err(e) => Err(e),
                    Ok(q) => match outputs_visited::<D>(c, q, edge) {
                        Err(e) => Err(e),
                        Ok((r, missing)) => {
                            let e = r.state.edges[edge.0 as int];
                            let t = Progress { validations: r.validations + e.validations, ..r };
                            match inputs_visited::<D>(
                                c,
                                t,
                                node,
                                edge,
                                0,
                                e.inputs.len(),
                                e.first_order_only(),
                                Seen { dirty: missing, newest: None },
                                (depth - 1) as nat,
                            ) {
                                Err(e) => Err(e),
                                Ok((u, seen)) => Ok(finished(c.log, u, node, edge, seen)),
                            }
                        },
                    },
                }
            }
        },
    }
}

/// On the first encounter with an edge that has a dyndep file that is already
/// up to date, the file is loaded; otherwise the edge cannot be ready anyway,
/// and the file will be loaded during the build.
pub open spec fn dyndep_visited<D: DiskInterface>(
    c: Sources<D::Model>,
    p: Progress,
    edge: EdgeId,
    depth: nat,
) -> Result<Progress, Cut<Progress>>
    decreases depth, 3nat, 0nat,
{
    let e = p.state.edges[edge.0 as int];
    if e.deps_loaded {
        Ok(p)
    } else {
        match e.dyndep {
            None => Ok(p),
            Some(d) => if !p.state.nodes[d.0 as int].dyndep_pending {
                Ok(p)
            } else {
                match visited::<D>(c, p, d, depth) {
                    Err(e) => Err(e),
                    Ok(q) => if is_ready(q.state, d) {
                        match dyndeps_loaded::<D>(q.state, c.disk, d) {
                            Err(f) => cut(f.error, q.at(f.state)),
                            Ok((s, _)) => Ok(q.at(s)),
                        }
                    } else {
                        Ok(q)
                    },
                }
            },
        }
    }
}

/// The inputs of `edge` from the `i`-th to the `count`-th visited. Those from
/// `solid` on never make it dirty.
pub open spec fn inputs_visited<D: DiskInterface>(
    c: Sources<D::Model>,
    p: Progress,
    node: NodeId,
    edge: EdgeId,
    i: nat,
    count: nat,
    solid: int,
    seen: Seen,
    depth: nat,
) -> Result<(Progress, Seen), Cut<Progress>>
    decreases depth, 3nat, count - i,
{
    if i < count {
        match visited::<D>(c, p, p.state.edges[edge.0 as int].inputs[i as int], depth) {
            Err(e) => Err(e),
            Ok(q) => {
                let (r, now) = input_seen(q, node, edge, i as int, solid, seen);
                inputs_visited::<D>(c, r, node, edge, i + 1, count, solid, now, depth)
            },
        }
    } else {
        Ok((p, seen))
    }
}

/// The number of edges that have not been visited.
pub open spec fn unvisited(edges: Seq<EdgeView>) -> nat
    decreases edges.len(),
{
    if edges.len() == 0 {
        0
    } else {
        unvisited(edges.drop_last()) + if edges.last().mark == VisitMark::Unvisited {
            1nat
        } else {
            0nat
        }
    }
}

/// What visiting the nodes of a queue comes to, and the validation nodes that
/// they lead to, which join the queue.
pub open spec fn queue_visited<D: DiskInterface>(
    c: Sources<D::Model>,
    p: Progress,
    queue: Seq<NodeId>,
) -> Result<Progress, Cut<Progress>>
    decreases unvisited(p.state.edges), queue.len(),
{
    if queue.len() == 0 {
        Ok(p)
    } else {
        let start = Progress { validations: Seq::empty(), stack: Seq::empty(), ..p };
        match visited::<D>(c, start, queue[0], p.state.edges.len()) {
            Err(f) => cut(
                f.error,
                Progress { validations: p.validations, stack: p.stack, ..f.at },
            ),
            Ok(q) => {
                let rest = queue.drop_first() + q.validations;
                let n = Progress {
                    validations: p.validations + q.validations,
                    stack: p.stack,
                    ..q
                };
                let a = unvisited(n.state.edges);
                let b = unvisited(p.state.edges);
                if a < b || (a == b && rest.len() < queue.len()) {
                    queue_visited::<D>(c, n, rest)
                } else {
                    Ok(n)
                }
            },
        }
    }
}

/// Explanations that may not be wanted, by what they say.
pub open spec fn notes_of(o: Option<Explanations>) -> Option<Notes> {
    match o {
        Some(e) => Some(e@),
        None => None,
    }
}

/// What a build log that may be missing records.
pub open spec fn log_of(o: Option<&BuildLog>) -> Option<Entries> {
    match o {
        Some(l) => Some(l.recorded()),
        None => None,
    }
}

/// What a deps log that may be missing holds.
pub open spec fn deps_log_of(o: Option<&DepsLog>) -> Option<DepsLogView> {
    match o {
        Some(l) => Some(l@),
        None => None,
    }
}

/// Whether the ids in the deps log are ids of the graph.
pub open spec fn sources_fit<M>(c: Sources<M>, n: nat) -> bool {
    c.deps matches Some(l) ==> l.fits(n)
}

fn explain(notes: &mut Option<Explanations>, node: NodeId, message: String)
    ensures
        notes_of(*final(notes)) == (match notes_of(*old(notes)) {
            Some(v) => Some(v.push((node, message@))),
            None => None,
        }),
{
    match notes {
        Some(e) => {
            e.record(node, message);
        },
        None => {},
    }
}

/// Whether every edge that is being visited is that of a node on the stack.
pub open spec fn stack_ok(s: StateView, stack: Seq<NodeId>) -> bool {
    &&& nodes_below(stack, s.nodes.len())
    &&& forall|e: int|
        0 <= e < s.edges.len() && (#[trigger] s.edges[e]).mark == VisitMark::InStack ==> is_on_stack(
            s,
            stack,
            EdgeId(e as usize),
        )
}

/// Whether `edge` is that of a node on the stack.
pub open spec fn is_on_stack(s: StateView, stack: Seq<NodeId>, edge: EdgeId) -> bool {
    exists|k: int|
        0 <= k < stack.len() && s.nodes[(#[trigger] stack[k]).0 as int].in_edge == Some(edge)
}

/// Whether, from one graph to the other, edges have only been visited, and
/// nothing has gone.
pub open spec fn advanced(s: StateView, t: StateView) -> bool {
    &&& links_kept(s, t)
    &&& forall|i: int|
        0 <= i < s.edges.len() ==> (#[trigger] t.edges[i]).mark == s.edges[i].mark || (
        s.edges[i].mark == VisitMark::Unvisited && t.edges[i].mark == VisitMark::Done)
}

pub proof fn lemma_unvisited_kept(a: Seq<EdgeView>, b: Seq<EdgeView>)
    requires
        a.len() == b.len(),
        forall|i: int|
            0 <= i < a.len() ==> (#[trigger] b[i]).mark == VisitMark::Unvisited ==> a[i].mark
                == VisitMark::Unvisited,
    ensures
        unvisited(b) <= unvisited(a) <= a.len(),
    decreases a.len(),
{
    if a.len() > 0 {
        assert forall|i: int|
            0 <= i < a.drop_last().len() && (#[trigger] b.drop_last()[i]).mark
                == VisitMark::Unvisited implies a.drop_last()[i].mark == VisitMark::Unvisited by {
            assert(b[i] == b.drop_last()[i]);
        }
        lemma_unvisited_kept(a.drop_last(), b.drop_last());
        assert(b[b.len() - 1] == b.last());
    }
}

pub proof fn lemma_unvisited_less(a: Seq<EdgeView>, b: Seq<EdgeView>, k: int)
    requires
        a.len() == b.len(),
        0 <= k < a.len(),
        a[k].mark == VisitMark::Unvisited,
        b[k].mark != VisitMark::Unvisited,
        forall|i: int|
            0 <= i < a.len() ==> (#[trigger] b[i]).mark == VisitMark::Unvisited ==> a[i].mark
                == VisitMark::Unvisited,
    ensures
        unvisited(b) < unvisited(a),
    decreases a.len(),
{
    let x = a.drop_last();
    let y = b.drop_last();
    assert forall|i: int|
        0 <= i < x.len() && (#[trigger] y[i]).mark == VisitMark::Unvisited implies x[i].mark
        == VisitMark::Unvisited by {
        assert(b[i] == y[i]);
    }
    if k == a.len() - 1 {
        lemma_unvisited_kept(x, y);
    } else {
        assert(y[k] == b[k] && x[k] == a[k]);
        lemma_unvisited_less(x, y, k);
        assert(b[b.len() - 1] == b.last());
    }
}

proof fn lemma_advanced(s: StateView, t: StateView)
    requires
        advanced(s, t),
    ensures
        unvisited(t.edges) <= unvisited(s.edges) <= s.edges.len(),
{
    lemma_unvisited_kept(s.edges, t.edges);
}

proof fn lemma_advanced_twice(s: StateView, t: StateView, u: StateView)
    requires
        advanced(s, t),
        advanced(t, u),
    ensures
        advanced(s, u),
{
    assert forall|i: int| 0 <= i < s.nodes.len() && s.nodes[i].in_edge is Some implies (
    #[trigger] u.nodes[i]).in_edge == s.nodes[i].in_edge by {
        assert(t.nodes[i].in_edge == s.nodes[i].in_edge);
    }
    assert forall|i: int| 0 <= i < s.edges.len() implies s.edges[i].inputs.len() <= (
    #[trigger] u.edges[i]).inputs.len() && s.edges[i].outputs.len() <= u.edges[i].outputs.len() by {
        assert(s.edges[i].inputs.len() <= t.edges[i].inputs.len());
    }
    assert forall|i: int| 0 <= i < s.edges.len() implies (#[trigger] u.edges[i]).mark
        == s.edges[i].mark || (s.edges[i].mark == VisitMark::Unvisited && u.edges[i].mark
        == VisitMark::Done) by {
        assert(t.edges[i].mark == s.edges[i].mark || t.edges[i].mark == VisitMark::Done);
    }
}

proof fn lemma_stack_kept(s: StateView, t: StateView, stack: Seq<NodeId>)
    requires
        advanced(s, t),
        stack_ok(s, stack),
    ensures
        stack_ok(t, stack),
{
    assert forall|e: int|
        0 <= e < t.edges.len() && (#[trigger] t.edges[e]).mark == VisitMark::InStack implies is_on_stack(
        t,
        stack,
        EdgeId(e as usize),
    ) by {
        assert(s.edges[e].mark == VisitMark::InStack);
        assert(is_on_stack(s, stack, EdgeId(e as usize)));
        let k = choose|k: int|
            0 <= k < stack.len() && s.nodes[(#[trigger] stack[k]).0 as int].in_edge == Some(
                EdgeId(e as usize),
            );
        assert(t.nodes[stack[k].0 as int].in_edge == s.nodes[stack[k].0 as int].in_edge);
    }
}

/// Scans the graph and updates the dirty state of nodes and edges.
pub struct DependencyScan<'a, D: DiskInterface> {
    disk: &'a D,
    build_log: Option<&'a BuildLog>,
    deps_log: Option<&'a DepsLog>,
}

/// The progress of a scan, from where it is kept.
pub open spec fn progress(
    state: StateView,
    notes: Option<Explanations>,
    validations: Seq<NodeId>,
    stack: Seq<NodeId>,
) -> Progress {
    Progress { state, notes: notes_of(notes), validations, stack }
}

impl<'a, D: DiskInterface> DependencyScan<'a, D> {
    /// Where the scan gets its information from.
    pub closed spec fn sources(&self) -> Sources<D::Model> {
        Sources {
            disk: self.disk.model(),
            log: log_of(self.build_log),
            deps: deps_log_of(self.deps_log),
        }
    }

    /// Create a scanner.
    pub fn new(
        disk: &'a D,
        build_log: Option<&'a BuildLog>,
        deps_log: Option<&'a DepsLog>,
    ) -> (r: DependencyScan<'a, D>)
        ensures
            r.sources() == (Sources {
                disk: disk.model(),
                log: log_of(build_log),
                deps: deps_log_of(deps_log),
            }),
    {
        DependencyScan { disk, build_log, deps_log }
    }

    /// The build log, if one is loaded.
    pub fn build_log(&self) -> (r: Option<&BuildLog>)
        ensures
            log_of(r) == self.sources().log,
    {
        self.build_log
    }

    fn stat_if_necessary(&self, state: &mut State, node: NodeId) -> (r: Result<(), Error>)
        requires
            old(state).wf(),
            node.0 < old(state)@.nodes.len(),
        ensures
            final(state).wf(),
            marks_kept(old(state)@, final(state)@),
            final(state)@.nodes.len() == old(state)@.nodes.len(),
            final(state)@.edges == old(state)@.edges,
            match (r, looked_at::<D>(self.sources().disk, old(state)@, node)) {
                (Ok(_), Ok(s)) => final(state)@ == s,
                (Err(e), Err(f)) => e@ == f.error && final(state)@ == f.state,
                _ => false,
            },
    {
        if state.node(node).status_known() {
            return Ok(());
        }
        match self.disk.stat(state.node(node).path()) {
            Err(e) => Err(e),
            Ok(t) => {
                state.record_mtime(node, t);
                Ok(())
            },
        }
    }

    fn visit_leaf(&self, state: &mut State, notes: &mut Option<Explanations>, node: NodeId) -> (r: Result<
        (),
        Error,
    >)
        requires
            old(state).wf(),
            node.0 < old(state)@.nodes.len(),
        ensures
            final(state).wf(),
            marks_kept(old(state)@, final(state)@),
            forall|validations: Seq<NodeId>, stack: Seq<NodeId>|
                match (r, #[trigger] leaf_visited::<D>(
                    self.sources().disk,
                    progress(old(state)@, *old(notes), validations, stack),
                    node,
                )) {
                    (Ok(_), Ok(p)) => progress(final(state)@, *final(notes), validations, stack)
                        == p,
                    (Err(e), Err(f)) => e@ == f.error && progress(
                        final(state)@,
                        *final(notes),
                        validations,
                        stack,
                    ) == f.at,
                    _ => false,
                },
    {
        if state.node(node).status_known() {
            return Ok(());
        }
        match self.stat_if_necessary(state, node) {
            Err(e) => {
                return Err(e);
            },
            Ok(_) => {},
        }
        let missing: bool = !state.node(node).exists_on_disk();
        if missing && notes.is_some() {
            let m: String = quoted("", state.node(node).path(), " has no in-edge and is missing");
            proof {
                reveal_strlit("");
                assert(m@ =~= state@.nodes[node.0 as int].path + " has no in-edge and is missing"@);
            }
            explain(notes, node, m);
        }
        state.set_dirty(node, missing);
        Ok(())
    }

    fn verify_dag(&self, state: &State, node: NodeId, edge: EdgeId, stack: &Vec<NodeId>) -> (r: Result<
        (),
        Error,
    >)
        requires
            state.wf(),
            node.0 < state@.nodes.len(),
            edge.0 < state@.edges.len(),
            state@.nodes[node.0 as int].in_edge == Some(edge),
            stack_ok(state@, stack@),
        ensures
            match r {
                Ok(_) => state@.edges[edge.0 as int].mark != VisitMark::InStack,
                Err(e) => state@.edges[edge.0 as int].mark == VisitMark::InStack && e@
                    == ErrorView::Build(cycle_text(state@, stack@, node, edge)),
            },
    {
        if state.edge(edge).mark != VisitMark::InStack {
            return Ok(());
        }
        // The edge is already on the stack: find where, and report the cycle.
        let mut k: usize = 0;
        while k < stack.len() && state.node(stack[k]).in_edge() != Some(edge)
            invariant
                k <= stack@.len(),
                nodes_below(stack@, state@.nodes.len()),
                place_of_edge(state@, stack@, edge, k as int) == place_of_edge(
                    state@,
                    stack@,
                    edge,
                    0,
                ),
                forall|j: int|
                    0 <= j < k ==> state@.nodes[(#[trigger] stack@[j]).0 as int].in_edge != Some(
                        edge,
                    ),
            decreases stack@.len() - k,
        {
            k += 1;
        }
        proof {
            assert(is_on_stack(state@, stack@, EdgeId(edge.0)));
            assert(k < stack@.len());
        }
        let ghost cycle = cycle_at(state@, stack@, node, edge);
        let mut m: String = "dependency cycle: ".to_owned();
        m.append(state.node(node).path());
        m.append(" -> ");
        let mut i: usize = k + 1;
        proof {
            assert(cycle.take(1).drop_last() =~= Seq::<NodeId>::empty());
            assert(cycle.take(1).last() == node);
            assert(arrow_chain(state@, Seq::<NodeId>::empty()) =~= Seq::<char>::empty());
            assert(arrow_chain(state@, cycle.take(1)) =~= path_of(state@, node) + " -> "@);
            assert(m@ =~= "dependency cycle: "@ + arrow_chain(state@, cycle.take(i - k)));
        }
        while i < stack.len()
            invariant
                k < i <= stack@.len(),
                nodes_below(stack@, state@.nodes.len()),
                cycle == seq![node] + stack@.skip(k + 1),
                m@ == "dependency cycle: "@ + arrow_chain(state@, cycle.take(i - k)),
            decreases stack@.len() - i,
        {
            m.append(state.node(stack[i]).path());
            m.append(" -> ");
            i += 1;
            proof {
                let t = cycle.take(i - k);
                assert(t.drop_last() =~= cycle.take(i - k - 1));
                assert(t.last() == stack@[i - 1]);
                assert(m@ =~= "dependency cycle: "@ + arrow_chain(state@, t));
            }
        }
        assert(cycle.take(i - k) =~= cycle);
        m.append(state.node(node).path());
        if stack.len() - k == 1 && state.edge(edge).maybe_phonycycle_diagnostic() {
            m.append(" [-w phonycycle=err]");
        }
        assert(m@ =~= cycle_text(state@, stack@, node, edge));
        Err(Error::Build(m))
    }
}

/// A message that compares two mtimes.
fn compared(mut m: String, a: i64, b: i64) -> (r: String)
    ensures
        r@ == m@ + signed_decimal(a as int) + " vs "@ + signed_decimal(b as int) + ")"@,
{
    push_signed(&mut m, a);
    m.append(" vs ");
    push_signed(&mut m, b);
    m.append(")");
    m
}

fn joined(a: &str, b: &str, c: &str, d: &str, e: &str) -> (r: String)
    ensures
        r@ == a@ + b@ + c@ + d@ + e@,
{
    let mut m: String = a.to_owned();
    m.append(b);
    m.append(c);
    m.append(d);
    m.append(e);
    m
}

fn prefixed(a: &str, b: &str) -> (r: String)
    ensures
        r@ == a@ + b@,
{
    let mut m: String = a.to_owned();
    m.append(b);
    m
}

impl<'a, D: DiskInterface> DependencyScan<'a, D> {
    /// Whether `output` of `edge` is dirty, its newest input being
    /// `most_recent_input`.
    #[verifier::rlimit(40)]
    fn recompute_output_dirty(
        &self,
        state: &mut State,
        notes: &mut Option<Explanations>,
        edge: EdgeId,
        most_recent_input: Option<NodeId>,
        command: &str,
        output: NodeId,
    ) -> (r: bool)
        requires
            old(state).wf(),
            edge.0 < old(state)@.edges.len(),
            output.0 < old(state)@.nodes.len(),
            most_recent_input matches Some(m) ==> m.0 < old(state)@.nodes.len(),
        ensures
            final(state).wf(),
            marks_kept(old(state)@, final(state)@),
            final(state)@.nodes.len() == old(state)@.nodes.len(),
            final(state)@.edges == old(state)@.edges,
            forall|validations: Seq<NodeId>, stack: Seq<NodeId>|
                (progress(final(state)@, *final(notes), validations, stack), r)
                    == #[trigger] output_checked(
                    self.sources().log,
                    progress(old(state)@, *old(notes), validations, stack),
                    edge,
                    most_recent_input,
                    command@,
                    output,
                ),
    {
        proof {
            reveal(output_checked);
        }
        if state.edge_is_phony(edge) {
            // Phony edges produce nothing. Their outputs are only dirty when
            // there are no inputs at all and the file is missing.
            if state.edge(edge).inputs().len() == 0 && !state.node(output).exists_on_disk() {
                if notes.is_some() {
                    let m: String = quoted(
                        "output ",
                        state.node(output).path(),
                        " of phony edge with no inputs doesn't exist",
                    );
                    explain(notes, output, m);
                }
                return true;
            }
            // Expose the newest input mtime so dependents can compare against
            // the phony node.
            if let Some(m) = most_recent_input {
                let mtime: i64 = state.node(m).mtime;
                state.raise_phony_mtime(output, mtime);
            }
            return false;
        }
        if !state.node(output).exists_on_disk() {
            if notes.is_some() {
                let m: String = quoted("output ", state.node(output).path(), " doesn't exist");
                explain(notes, output, m);
            }
            return true;
        }
        // A `restat` rule may have "cleaned" this output in a previous run, in
        // which case the mtime recorded in the log is authoritative and the
        // file's own mtime is ignored.
        let entry: Option<(u64, i64)> = match self.build_log {
            Some(log) => match log.lookup_by_output(state.node(output).path()) {
                Some(e) => Some((e.command_hash, e.mtime)),
                None => None,
            },
            None => None,
        };
        let used_restat: bool = entry.is_some() && state.edge_restat(edge);
        let out_mtime: i64 = state.node(output).mtime;
        if !used_restat {
            if let Some(m) = most_recent_input {
                let in_mtime: i64 = state.node(m).mtime;
                if out_mtime < in_mtime {
                    if notes.is_some() {
                        let text: String = joined(
                            "output ",
                            state.node(output).path(),
                            " older than most recent input ",
                            state.node(m).path(),
                            " (",
                        );
                        explain(notes, output, compared(text, out_mtime, in_mtime));
                    }
                    return true;
                }
            }
        }
        if self.build_log.is_none() {
            return false;
        }
        let generator: bool = state.edge_is_generator(edge);
        match entry {
            Some((hash, mtime)) => {
                if !generator && hash_command(command) != hash {
                    if notes.is_some() {
                        let m: String = prefixed(
                            "command line changed for ",
                            state.node(output).path(),
                        );
                        explain(notes, output, m);
                    }
                    return true;
                }
                if let Some(m) = most_recent_input {
                    let in_mtime: i64 = state.node(m).mtime;
                    if mtime < in_mtime {
                        // The recorded mtime can be older than the file's own
                        // mtime if a previous run wrote the output but failed
                        // or was interrupted.
                        if notes.is_some() {
                            let text: String = joined(
                                "recorded mtime of ",
                                state.node(output).path(),
                                " older than most recent input ",
                                state.node(m).path(),
                                " (",
                            );
                            explain(notes, output, compared(text, mtime, in_mtime));
                        }
                        return true;
                    }
                }
                false
            },
            None => {
                if !generator {
                    if notes.is_some() {
                        let m: String = prefixed(
                            "command line not found in log for ",
                            state.node(output).path(),
                        );
                        explain(notes, output, m);
                    }
                    return true;
                }
                false
            },
        }
    }

    /// Recompute whether any output of `edge` is dirty.
    pub fn recompute_outputs_dirty(
        &self,
        state: &mut State,
        notes: &mut Option<Explanations>,
        edge: EdgeId,
        most_recent_input: Option<NodeId>,
    ) -> (r: bool)
        requires
            old(state).wf(),
            edge.0 < old(state)@.edges.len(),
            most_recent_input matches Some(m) ==> m.0 < old(state)@.nodes.len(),
        ensures
            final(state).wf(),
            marks_kept(old(state)@, final(state)@),
            final(state)@.nodes.len() == old(state)@.nodes.len(),
            final(state)@.edges == old(state)@.edges,
            forall|validations: Seq<NodeId>, stack: Seq<NodeId>|
                (progress(final(state)@, *final(notes), validations, stack), r)
                    == #[trigger] edge_checked(
                    self.sources().log,
                    progress(old(state)@, *old(notes), validations, stack),
                    edge,
                    most_recent_input,
                ),
    {
        let ghost s0 = state@;
        let ghost n0 = *notes;
        let ghost log = self.sources().log;
        let ghost outs = s0.edges[edge.0 as int].outputs;
        let command: String = state.edge_command_for_hash(edge);
        let mut k: usize = 0;
        proof {
            state.lemma_wf();
            assert(s0.edge_ok(s0.edges[edge.0 as int]));
        }
        while k < state.edge(edge).outputs().len()
            invariant
                state.wf(),
                edge.0 < state@.edges.len(),
                k <= outs.len(),
                s0 == old(state)@,
                n0 == *old(notes),
                log == self.sources().log,
                outs == s0.edges[edge.0 as int].outputs,
                state@.edges == s0.edges,
                marks_kept(s0, state@),
                state@.nodes.len() == s0.nodes.len(),
                nodes_below(outs, s0.nodes.len()),
                most_recent_input matches Some(m) ==> m.0 < s0.nodes.len(),
                command@ == s0.hashed_command(edge.0 as int),
                forall|v: Seq<NodeId>, t: Seq<NodeId>|
                    outputs_checked(
                        log,
                        #[trigger] progress(state@, *notes, v, t),
                        edge,
                        most_recent_input,
                        command@,
                        outs,
                        k as int,
                    ) == edge_checked(log, progress(s0, n0, v, t), edge, most_recent_input),
            decreases outs.len() - k,
        {
            let output = state.edge(edge).outputs()[k];
            assert(output == outs[k as int]);
            let ghost s1 = state@;
            let ghost n1 = *notes;
            let dirty: bool = self.recompute_output_dirty(
                state,
                notes,
                edge,
                most_recent_input,
                command.as_str(),
                output,
            );
            proof {
                assert forall|v: Seq<NodeId>, t: Seq<NodeId>| #[trigger]
                    edge_checked(log, progress(s0, n0, v, t), edge, most_recent_input) == if dirty {
                        (progress(state@, *notes, v, t), true)
                    } else {
                        outputs_checked(
                            log,
                            progress(state@, *notes, v, t),
                            edge,
                            most_recent_input,
                            command@,
                            outs,
                            k + 1,
                        )
                    } by {
                    let p = progress(s1, n1, v, t);
                    assert((progress(state@, *notes, v, t), dirty) == output_checked(
                        log,
                        p,
                        edge,
                        most_recent_input,
                        command@,
                        output,
                    ));
                }
            }
            if dirty {
                return true;
            }
            k += 1;
        }
        proof {
            assert forall|v: Seq<NodeId>, t: Seq<NodeId>| #[trigger]
                edge_checked(log, progress(s0, n0, v, t), edge, most_recent_input) == (
                    progress(state@, *notes, v, t),
                    false,
                ) by {
                let p = progress(state@, *notes, v, t);
                assert(outputs_checked(
                    log,
                    p,
                    edge,
                    most_recent_input,
                    command@,
                    outs,
                    k as int,
                ) == (p, false));
            }
        }
        false
    }
}

proof fn lemma_spliced_kept(s: StateView, edge: EdgeId, nodes: Seq<NodeId>, k: int)
    requires
        edge.0 < s.edges.len(),
        nodes_below(nodes, s.nodes.len()),
        0 <= k,
    ensures
        marks_kept(s, s.inputs_spliced(edge, nodes, k)),
    decreases nodes.len() - k,
{
    if k < nodes.len() {
        lemma_spliced_kept(s.input_spliced(edge, nodes[k]), edge, nodes, k + 1);
    }
}

fn is_output_path(state: &State, nodes: &[NodeId], path: &str) -> (r: bool)
    requires
        nodes_below(nodes@, state@.nodes.len()),
    ensures
        r == is_path_among(state@, nodes@, path@),
{
    let mut i: usize = 0;
    while i < nodes.len()
        invariant
            i <= nodes@.len(),
            nodes_below(nodes@, state@.nodes.len()),
            forall|k: int| 0 <= k < i ==> path_of(state@, #[trigger] nodes@[k]) != path@,
        decreases nodes@.len() - i,
    {
        if str_eq(state.node(nodes[i]).path(), path) {
            assert(path_of(state@, nodes@[i as int]) == path@);
            return true;
        }
        i += 1;
    }
    false
}

pub(crate) fn intern_deps(state: &mut State, paths: &Vec<String>) -> (r: Vec<NodeId>)
    requires
        old(state).wf(),
    ensures
        final(state).wf(),
        only_grown(old(state)@, final(state)@),
        nodes_below(r@, final(state)@.nodes.len()),
        (final(state)@, r@) == deps_interned(old(state)@, texts(paths@), 0, Seq::empty()),
{
    let ghost ps = texts(paths@);
    let mut nodes: Vec<NodeId> = Vec::new();
    let mut k: usize = 0;
    assert(nodes@ =~= Seq::empty());
    while k < paths.len()
        invariant
            k <= paths@.len(),
            ps == texts(paths@),
            state.wf(),
            only_grown(old(state)@, state@),
            nodes_below(nodes@, state@.nodes.len()),
            deps_interned(state@, ps, k as int, nodes@) == deps_interned(
                old(state)@,
                ps,
                0,
                Seq::empty(),
            ),
        decreases paths@.len() - k,
    {
        assert(ps[k as int] == paths@[k as int]@);
        let mut path: String = paths[k].clone();
        let bits: u64 = canonicalize_path(&mut path);
        let n = state.get_node(path.as_str(), bits);
        nodes.push(n);
        k += 1;
    }
    nodes
}

impl<'a, D: DiskInterface> DependencyScan<'a, D> {
    fn apply_depfile(
        &self,
        state: &mut State,
        notes: &mut Option<Explanations>,
        edge: EdgeId,
        path: &str,
        content: &[u8],
    ) -> (r: Result<bool, Error>)
        requires
            old(state).wf(),
            edge.0 < old(state)@.edges.len(),
            old(state)@.edges[edge.0 as int].outputs.len() > 0,
        ensures
            final(state).wf(),
            marks_kept(old(state)@, final(state)@),
            forall|v: Seq<NodeId>, t: Seq<NodeId>|
                match (r, #[trigger] depfile_applied(
                    progress(old(state)@, *old(notes), v, t),
                    edge,
                    path@,
                    content@,
                )) {
                    (Ok(b), Ok((p, there))) => b == there && progress(
                        final(state)@,
                        *final(notes),
                        v,
                        t,
                    ) == p,
                    (Err(e), Err(f)) => e@ == f.error && progress(
                        final(state)@,
                        *final(notes),
                        v,
                        t,
                    ) == f.at,
                    _ => false,
                },
    {
        let ghost s0 = state@;
        proof {
            state.lemma_wf();
            assert(s0.edge_ok(s0.edges[edge.0 as int]));
        }
        let first = state.edge(edge).outputs()[0];
        if content.len() == 0 {
            if notes.is_some() {
                explain(notes, first, quoted("depfile '", path, "' is missing"));
            }
            return Ok(false);
        }
        let mut depfile = match parse_depfile(content) {
            Err(m) => {
                return Err(Error::Build(quoted(path, ": ", m.as_str())));
            },
            Ok(d) => d,
        };
        let ghost outs = texts(depfile.outs@);
        if depfile.outs.len() == 0 {
            return Err(Error::Build(prefixed(path, ": no outputs declared")));
        }
        let mut name: String = depfile.outs[0].clone();
        canonicalize_path(&mut name);
        let ghost names = outs.update(0, canonical(outs[0]));
        assert(outs[0] == depfile.outs@[0]@);
        depfile.outs.set(0, name);
        assert(texts(depfile.outs@) =~= names);
        assert(names[0] == depfile.outs@[0]@);
        if !str_eq(state.node(first).path(), depfile.outs[0].as_str()) {
            if notes.is_some() {
                let mut m: String = joined(
                    "expected depfile '",
                    path,
                    "' to mention '",
                    state.node(first).path(),
                    "', got '",
                );
                m.append(depfile.outs[0].as_str());
                m.append("'");
                explain(notes, first, m);
            }
            return Ok(false);
        }
        // Every output the depfile mentions must be an output of the edge.
        let mut k: usize = 0;
        while k < depfile.outs.len()
            invariant
                k <= depfile.outs@.len(),
                state.wf(),
                state@ == s0,
                s0 == old(state)@,
                *notes == *old(notes),
                edge.0 < s0.edges.len(),
                s0.edges[edge.0 as int].outputs.len() > 0,
                nodes_below(s0.edges[edge.0 as int].outputs, s0.nodes.len()),
                content@.len() > 0,
                depfile_of(content@) == Ok::<
                    (Seq<Seq<char>>, Seq<Seq<char>>),
                    Seq<char>,
                >((outs, texts(depfile.ins@))),
                outs.len() > 0,
                names == outs.update(0, canonical(outs[0])),
                texts(depfile.outs@) == names,
                path_of(s0, s0.edges[edge.0 as int].outputs[0]) == names[0],
                first_stranger(s0, s0.edges[edge.0 as int].outputs, names, k as int)
                    == first_stranger(s0, s0.edges[edge.0 as int].outputs, names, 0),
            decreases depfile.outs@.len() - k,
        {
            assert(names[k as int] == depfile.outs@[k as int]@);
            if !is_output_path(state, state.edge(edge).outputs(), depfile.outs[k].as_str()) {
                let m: String = joined(
                    path,
                    ": depfile mentions '",
                    depfile.outs[k].as_str(),
                    "' as an output, but no such output was declared",
                    "",
                );
                proof {
                    reveal_strlit("");
                    assert(m@ =~= path@ + ": depfile mentions '"@ + names[k as int]
                        + "' as an output, but no such output was declared"@);
                }
                return Err(Error::Build(m));
            }
            k += 1;
        }
        let nodes = intern_deps(state, &depfile.ins);
        proof {
            lemma_spliced_kept(state@, edge, nodes@, 0);
        }
        state.splice_inputs(edge, nodes.as_slice());
        Ok(true)
    }

    fn load_depfile(
        &self,
        state: &mut State,
        notes: &mut Option<Explanations>,
        edge: EdgeId,
        path: &str,
    ) -> (r: Result<bool, Error>)
        requires
            old(state).wf(),
            edge.0 < old(state)@.edges.len(),
            old(state)@.edges[edge.0 as int].outputs.len() > 0,
        ensures
            final(state).wf(),
            marks_kept(old(state)@, final(state)@),
            match D::content_of(self.sources().disk, path@) {
                Err(f) => r matches Err(e) && e@ == f && final(state)@ == old(state)@ && *final(notes)
                    == *old(notes),
                Ok(c) => forall|v: Seq<NodeId>, t: Seq<NodeId>|
                    match (r, #[trigger] depfile_applied(
                        progress(old(state)@, *old(notes), v, t),
                        edge,
                        path@,
                        or_empty(c),
                    )) {
                        (Ok(b), Ok((p, there))) => b == there && progress(
                            final(state)@,
                            *final(notes),
                            v,
                            t,
                        ) == p,
                        (Err(e), Err(f)) => e@ == f.error && progress(
                            final(state)@,
                            *final(notes),
                            v,
                            t,
                        ) == f.at,
                        _ => false,
                    },
            },
    {
        // A missing depfile is treated as an empty one.
        match self.disk.read_file(path) {
            Err(e) => Err(e),
            Ok(None) => {
                let empty: Vec<u8> = Vec::new();
                assert(empty@ =~= Seq::<u8>::empty());
                self.apply_depfile(state, notes, edge, path, empty.as_slice())
            },
            Ok(Some(c)) => self.apply_depfile(state, notes, edge, path, c.as_slice()),
        }
    }

    fn load_deps_from_log(&self, state: &mut State, notes: &mut Option<Explanations>, edge: EdgeId) -> (r:
        bool)
        requires
            old(state).wf(),
            edge.0 < old(state)@.edges.len(),
            old(state)@.edges[edge.0 as int].outputs.len() > 0,
            sources_fit(self.sources(), old(state)@.nodes.len()),
        ensures
            final(state).wf(),
            marks_kept(old(state)@, final(state)@),
            forall|v: Seq<NodeId>, t: Seq<NodeId>|
                (progress(final(state)@, *final(notes), v, t), r) == #[trigger] log_applied(
                    self.sources().deps,
                    progress(old(state)@, *old(notes), v, t),
                    edge,
                ),
    {
        proof {
            state.lemma_wf();
            assert(state@.edge_ok(state@.edges[edge.0 as int]));
        }
        // `deps` is only supported for the first output of an edge.
        let output = state.edge(edge).outputs()[0];
        let deps = match self.deps_log {
            Some(log) => log.get_deps(state, output),
            None => None,
        };
        match deps {
            None => {
                if notes.is_some() {
                    explain(
                        notes,
                        output,
                        quoted("deps for '", state.node(output).path(), "' are missing"),
                    );
                }
                false
            },
            Some(d) => {
                let mtime: i64 = state.node(output).mtime;
                if mtime > d.mtime {
                    if notes.is_some() {
                        let text: String = quoted(
                            "stored deps info out of date for '",
                            state.node(output).path(),
                            "' (",
                        );
                        explain(notes, output, compared(text, d.mtime, mtime));
                    }
                    return false;
                }
                proof {
                    let l = self.sources().deps->0;
                    let id = state@.nodes[output.0 as int].deps_log_id as int;
                    assert(crate::deps_log::deps_fit(l.deps[id], state@.nodes.len()));
                    lemma_spliced_kept(state@, edge, d.nodes@, 0);
                }
                state.splice_inputs(edge, d.nodes.as_slice());
                true
            },
        }
    }

    /// Load implicit dependencies for `edge`.
    ///
    /// Returns `Ok(false)` when the information is missing or out of date (the
    /// edge must then be rebuilt), and an error only for real failures.
    pub fn load_deps(&self, state: &mut State, notes: &mut Option<Explanations>, edge: EdgeId) -> (r:
        Result<bool, Error>)
        requires
            old(state).wf(),
            edge.0 < old(state)@.edges.len(),
            old(state)@.edges[edge.0 as int].outputs.len() > 0,
            sources_fit(self.sources(), old(state)@.nodes.len()),
        ensures
            final(state).wf(),
            marks_kept(old(state)@, final(state)@),
            forall|v: Seq<NodeId>, t: Seq<NodeId>|
                match (r, #[trigger] deps_applied::<D>(
                    self.sources(),
                    progress(old(state)@, *old(notes), v, t),
                    edge,
                )) {
                    (Ok(b), Ok((p, there))) => b == there && progress(
                        final(state)@,
                        *final(notes),
                        v,
                        t,
                    ) == p,
                    (Err(e), Err(f)) => e@ == f.error && progress(
                        final(state)@,
                        *final(notes),
                        v,
                        t,
                    ) == f.at,
                    _ => false,
                },
    {
        proof {
            reveal(deps_applied);
        }
        if state.edge_binding_bool(edge, "deps") {
            return Ok(self.load_deps_from_log(state, notes, edge));
        }
        let depfile: String = state.edge_depfile(edge);
        if !depfile.as_str().is_empty() {
            return self.load_depfile(state, notes, edge, depfile.as_str());
        }
        Ok(true)
    }

    /// Load a dyndep file and apply it to the graph.
    pub fn load_dyndeps(&self, state: &mut State, node: NodeId) -> (r: Result<DyndepFile, Error>)
        requires
            old(state).wf(),
            node.0 < old(state)@.nodes.len(),
        ensures
            final(state).wf(),
            marks_kept(old(state)@, final(state)@),
            read_as(
                r,
                final(state)@,
                dyndeps_loaded::<D>(old(state)@, self.sources().disk, node),
            ),
    {
        load_dyndeps(state, self.disk, node)
    }
}

proof fn lemma_marks_kept_advanced(s: StateView, t: StateView)
    requires
        marks_kept(s, t),
    ensures
        advanced(s, t),
{
}

/// An edge that makes a node has an output.
pub proof fn lemma_has_outputs(s: StateView, node: NodeId, edge: EdgeId)
    requires
        s.wf(),
        node.0 < s.nodes.len(),
        s.nodes[node.0 as int].in_edge == Some(edge),
    ensures
        edge.0 < s.edges.len(),
        s.edges[edge.0 as int].outputs.len() > 0,
{
    assert(s.node_ok(s.nodes[node.0 as int]));
    assert(s.producer_linked(node.0 as int));
}

impl<'a, D: DiskInterface> DependencyScan<'a, D> {
    fn stat_outputs(&self, state: &mut State, edge: EdgeId) -> (r: Result<(), Error>)
        requires
            old(state).wf(),
            edge.0 < old(state)@.edges.len(),
        ensures
            final(state).wf(),
            marks_kept(old(state)@, final(state)@),
            final(state)@.nodes.len() == old(state)@.nodes.len(),
            final(state)@.edges == old(state)@.edges,
            match (r, all_looked_at::<D>(
                self.sources().disk,
                old(state)@,
                old(state)@.edges[edge.0 as int].outputs,
                0,
            )) {
                (Ok(_), Ok(s)) => final(state)@ == s,
                (Err(e), Err(f)) => e@ == f.error && final(state)@ == f.state,
                _ => false,
            },
    {
        let ghost m = self.sources().disk;
        let ghost s0 = state@;
        let ghost outs = s0.edges[edge.0 as int].outputs;
        let mut k: usize = 0;
        proof {
            state.lemma_wf();
            assert(s0.edge_ok(s0.edges[edge.0 as int]));
        }
        while k < state.edge(edge).outputs().len()
            invariant
                state.wf(),
                edge.0 < state@.edges.len(),
                k <= outs.len(),
                s0 == old(state)@,
                m == self.sources().disk,
                outs == s0.edges[edge.0 as int].outputs,
                state@.edges == s0.edges,
                state@.nodes.len() == s0.nodes.len(),
                marks_kept(s0, state@),
                nodes_below(outs, s0.nodes.len()),
                all_looked_at::<D>(m, state@, outs, k as int) == all_looked_at::<D>(m, s0, outs, 0),
            decreases outs.len() - k,
        {
            let o = state.edge(edge).outputs()[k];
            assert(o == outs[k as int]);
            match self.stat_if_necessary(state, o) {
                Err(e) => {
                    return Err(e);
                },
                Ok(_) => {},
            }
            k += 1;
        }
        Ok(())
    }

    fn visit_outputs(&self, state: &mut State, notes: &mut Option<Explanations>, edge: EdgeId) -> (r:
        Result<bool, Error>)
        requires
            old(state).wf(),
            edge.0 < old(state)@.edges.len(),
            old(state)@.edges[edge.0 as int].outputs.len() > 0,
            sources_fit(self.sources(), old(state)@.nodes.len()),
        ensures
            final(state).wf(),
            marks_kept(old(state)@, final(state)@),
            forall|v: Seq<NodeId>, t: Seq<NodeId>|
                match (r, #[trigger] outputs_visited::<D>(
                    self.sources(),
                    progress(old(state)@, *old(notes), v, t),
                    edge,
                )) {
                    (Ok(b), Ok((p, missing))) => b == missing && progress(
                        final(state)@,
                        *final(notes),
                        v,
                        t,
                    ) == p,
                    (Err(e), Err(f)) => e@ == f.error && progress(
                        final(state)@,
                        *final(notes),
                        v,
                        t,
                    ) == f.at,
                    _ => false,
                },
    {
        proof {
            reveal(outputs_visited);
        }
        let ghost s0 = state@;
        let ghost n0 = *notes;
        match self.stat_outputs(state, edge) {
            Err(e) => {
                return Err(e);
            },
            Ok(_) => {},
        }
        if state.edge(edge).deps_loaded {
            return Ok(false);
        }
        state.set_deps_loaded(edge, true);
        proof {
            let s2 = state@;
            assert forall|v: Seq<NodeId>, t: Seq<NodeId>| #[trigger]
                progress(s0, n0, v, t).at(s2) == progress(s2, n0, v, t) by {}
        }
        match self.load_deps(state, notes, edge) {
            Err(e) => Err(e),
            Ok(there) => {
                if there {
                    Ok(false)
                } else {
                    // Dependency info is missing or stale: rebuild to
                    // regenerate it.
                    state.set_deps_missing(edge, true);
                    Ok(true)
                }
            },
        }
    }

    fn see_input(
        &self,
        state: &mut State,
        notes: &mut Option<Explanations>,
        node: NodeId,
        edge: EdgeId,
        i: usize,
        solid: usize,
        dirty: &mut bool,
        newest: &mut Option<NodeId>,
    )
        requires
            old(state).wf(),
            edge.0 < old(state)@.edges.len(),
            i < old(state)@.edges[edge.0 as int].inputs.len(),
            *old(newest) matches Some(m) ==> m.0 < old(state)@.nodes.len(),
        ensures
            final(state).wf(),
            marks_kept(old(state)@, final(state)@),
            final(state)@.nodes.len() == old(state)@.nodes.len(),
            *final(newest) matches Some(m) ==> m.0 < final(state)@.nodes.len(),
            forall|v: Seq<NodeId>, t: Seq<NodeId>|
                (
                    progress(final(state)@, *final(notes), v, t),
                    Seen { dirty: *final(dirty), newest: *final(newest) },
                ) == #[trigger] input_seen(
                    progress(old(state)@, *old(notes), v, t),
                    node,
                    edge,
                    i as int,
                    solid as int,
                    Seen { dirty: *old(dirty), newest: *old(newest) },
                ),
    {
        proof {
            state.lemma_wf();
            assert(state@.edge_ok(state@.edges[edge.0 as int]));
        }
        let input = state.edge(edge).inputs()[i];
        assert(input == state@.edges[edge.0 as int].inputs[i as int]);
        proof {
            assert(state@.node_ok(state@.nodes[input.0 as int]));
        }
        if let Some(producer) = state.node(input).in_edge() {
            if !state.edge(producer).outputs_ready {
                state.set_outputs_ready(edge, false);
            }
        }
        if i >= solid {
            return;  // Order-only inputs never make us dirty.
        }
        if state.node(input).dirty {
            if notes.is_some() {
                explain(notes, node, prefixed(state.node(input).path(), " is dirty"));
            }
            *dirty = true;
        } else {
            let newer: bool = match *newest {
                None => true,
                Some(m) => state.node(input).mtime > state.node(m).mtime,
            };
            if newer {
                *newest = Some(input);
            }
        }
    }

    fn mark_outputs_dirty(&self, state: &mut State, edge: EdgeId)
        requires
            old(state).wf(),
            edge.0 < old(state)@.edges.len(),
        ensures
            final(state).wf(),
            marks_kept(old(state)@, final(state)@),
            final(state)@.nodes.len() == old(state)@.nodes.len(),
            final(state)@.edges == old(state)@.edges,
            final(state)@ == all_dirty(
                old(state)@,
                old(state)@.edges[edge.0 as int].outputs,
                0,
            ),
    {
        let ghost s0 = state@;
        let ghost outs = s0.edges[edge.0 as int].outputs;
        let mut k: usize = 0;
        proof {
            state.lemma_wf();
            assert(s0.edge_ok(s0.edges[edge.0 as int]));
        }
        while k < state.edge(edge).outputs().len()
            invariant
                state.wf(),
                edge.0 < state@.edges.len(),
                k <= outs.len(),
                s0 == old(state)@,
                outs == s0.edges[edge.0 as int].outputs,
                state@.edges == s0.edges,
                state@.nodes.len() == s0.nodes.len(),
                marks_kept(s0, state@),
                nodes_below(outs, s0.nodes.len()),
                all_dirty(state@, outs, k as int) == all_dirty(s0, outs, 0),
            decreases outs.len() - k,
        {
            let o = state.edge(edge).outputs()[k];
            assert(o == outs[k as int]);
            state.set_dirty(o, true);
            k += 1;
        }
    }

    fn finish_edge(
        &self,
        state: &mut State,
        notes: &mut Option<Explanations>,
        node: NodeId,
        edge: EdgeId,
        seen_dirty: bool,
        newest: Option<NodeId>,
    )
        requires
            old(state).wf(),
            edge.0 < old(state)@.edges.len(),
            newest matches Some(m) ==> m.0 < old(state)@.nodes.len(),
        ensures
            final(state).wf(),
            links_kept(old(state)@, final(state)@),
            final(state)@.edges[edge.0 as int].mark == VisitMark::Done,
            forall|i: int|
                0 <= i < old(state)@.edges.len() && i != edge.0 ==> (
                #[trigger] final(state)@.edges[i]).mark == old(state)@.edges[i].mark,
            forall|v: Seq<NodeId>, t: Seq<NodeId>|
                progress(final(state)@, *final(notes), v, t.drop_last()) == #[trigger] finished(
                    self.sources().log,
                    progress(old(state)@, *old(notes), v, t),
                    node,
                    edge,
                    Seen { dirty: seen_dirty, newest },
                ),
    {
        proof {
            reveal(finished);
        }
        let dirty: bool = if seen_dirty {
            true
        } else {
            self.recompute_outputs_dirty(state, notes, edge, newest)
        };
        if dirty {
            self.mark_outputs_dirty(state, edge);
        }
        // A dirty edge's outputs are not ready. Phony edges with no inputs have
        // nothing to do, so they are always ready.
        let idle: bool = state.edge_is_phony(edge) && state.edge(edge).inputs().len() == 0;
        if dirty && !idle {
            state.set_outputs_ready(edge, false);
        }
        state.set_mark(edge, VisitMark::Done);
    }

    fn enter_edge(&self, state: &mut State, edge: EdgeId)
        requires
            old(state).wf(),
            edge.0 < old(state)@.edges.len(),
        ensures
            final(state).wf(),
            links_kept(old(state)@, final(state)@),
            final(state)@.nodes == old(state)@.nodes,
            final(state)@.edges[edge.0 as int].mark == VisitMark::InStack,
            forall|i: int|
                0 <= i < old(state)@.edges.len() && i != edge.0 ==> #[trigger] final(
                    state)@.edges[i] == old(state)@.edges[i],
            final(state)@ == entered(
                Progress {
                    state: old(state)@,
                    notes: None,
                    validations: Seq::empty(),
                    stack: Seq::empty(),
                },
                NodeId(0),
                edge,
            ).state,
    {
        let ghost s0 = state@;
        state.set_mark(edge, VisitMark::InStack);
        state.set_outputs_ready(edge, true);
        state.set_deps_missing(edge, false);
        proof {
            let e = s0.edges[edge.0 as int];
            assert(state@.edges =~= s0.edges.update(
                edge.0 as int,
                EdgeView {
                    mark: VisitMark::InStack,
                    outputs_ready: true,
                    deps_missing: false,
                    ..e
                },
            ));
        }
    }
}

/// What a scan of part of the graph leaves alone.
pub open spec fn scan_kept(
    s: StateView,
    t: StateView,
    stack: Seq<NodeId>,
    stack_after: Seq<NodeId>,
    validations: Seq<NodeId>,
) -> bool {
    &&& advanced(s, t)
    &&& unvisited(t.edges) <= unvisited(s.edges)
    &&& stack_after == stack
    &&& stack_ok(t, stack)
    &&& nodes_below(validations, t.nodes.len())
}

impl<'a, D: DiskInterface> DependencyScan<'a, D> {
    fn recompute_node_dirty(
        &self,
        state: &mut State,
        notes: &mut Option<Explanations>,
        node: NodeId,
        stack: &mut Vec<NodeId>,
        validations: &mut Vec<NodeId>,
        Ghost(depth): Ghost<nat>,
    ) -> (r: Result<(), Error>)
        requires
            old(state).wf(),
            node.0 < old(state)@.nodes.len(),
            sources_fit(self.sources(), old(state)@.nodes.len()),
            stack_ok(old(state)@, old(stack)@),
            nodes_below(old(validations)@, old(state)@.nodes.len()),
            depth >= unvisited(old(state)@.edges),
        ensures
            final(state).wf(),
            old(state)@.nodes.len() <= final(state)@.nodes.len(),
            r is Ok ==> scan_kept(
                old(state)@,
                final(state)@,
                old(stack)@,
                final(stack)@,
                final(validations)@,
            ),
            r is Ok && unvisited(final(state)@.edges) == unvisited(old(state)@.edges) ==> final(
                validations)@ == old(validations)@,
            match (r, visited::<D>(
                self.sources(),
                progress(old(state)@, *old(notes), old(validations)@, old(stack)@),
                node,
                depth,
            )) {
                (Ok(_), Ok(p)) => progress(
                    final(state)@,
                    *final(notes),
                    final(validations)@,
                    final(stack)@,
                ) == p,
                (Err(e), Err(f)) => e@ == f.error && progress(
                    final(state)@,
                    *final(notes),
                    final(validations)@,
                    final(stack)@,
                ) == f.at,
                _ => false,
            },
        decreases unvisited(old(state)@.edges), 0nat,
    {
        let ghost s0 = state@;
        let ghost p0 = progress(state@, *notes, validations@, stack@);
        proof {
            state.lemma_wf();
            assert(s0.node_ok(s0.nodes[node.0 as int]));
        }
        let edge: EdgeId = match state.node(node).in_edge() {
            None => {
                let r = self.visit_leaf(state, notes, node);
                proof {
                    lemma_marks_kept_advanced(s0, state@);
                    lemma_advanced(s0, state@);
                    lemma_stack_kept(s0, state@, stack@);
                    assert(leaf_visited::<D>(self.sources().disk, p0, node) == visited::<D>(
                        self.sources(),
                        p0,
                        node,
                        depth,
                    ));
                }
                return r;
            },
            Some(e) => e,
        };
        if state.edge(edge).mark == VisitMark::Done {
            proof {
                lemma_advanced(s0, s0);
            }
            return Ok(());
        }
        match self.verify_dag(state, node, edge, stack) {
            Err(e) => {
                return Err(e);
            },
            Ok(_) => {},
        }
        assert(s0.edges[edge.0 as int].mark == VisitMark::Unvisited);
        self.enter_edge(state, edge);
        stack.push(node);
        let ghost s1 = state@;
        let ghost p1 = entered(p0, node, edge);
        proof {
            assert(p1 =~= progress(s1, *notes, validations@, stack@));
            lemma_unvisited_less(s0.edges, s1.edges, edge.0 as int);
            lemma_entered(s0, s1, p0.stack, node, edge);
        }
        let ghost inner = (depth - 1) as nat;
        match self.visit_dyndep(state, notes, edge, stack, validations, Ghost(inner)) {
            Err(e) => {
                return Err(e);
            },
            Ok(_) => {},
        }
        let ghost s2 = state@;
        let ghost p2 = progress(s2, *notes, validations@, stack@);
        proof {
            state.lemma_wf();
            lemma_has_outputs(s2, node, edge);
        }
        let missing: bool = match self.visit_outputs(state, notes, edge) {
            Err(e) => {
                return Err(e);
            },
            Ok(b) => b,
        };
        let ghost s3 = state@;
        proof {
            lemma_marks_kept_advanced(s2, s3);
            lemma_advanced_twice(s1, s2, s3);
            lemma_advanced(s2, s3);
            lemma_stack_kept(s2, s3, stack@);
            state.lemma_wf();
            assert(s3.edge_ok(s3.edges[edge.0 as int]));
        }
        // Validation nodes are not recursed into here: that would trip the
        // cycle detector when a validation depends on this node.
        let ghost v3 = validations@;
        let mut more = vstd::slice::slice_to_vec(state.edge(edge).validations());
        validations.append(&mut more);
        assert(validations@ =~= v3 + s3.edges[edge.0 as int].validations);
        let count: usize = state.edge(edge).inputs().len();
        let order_only: usize = state.edge(edge).order_only_deps();
        let solid: usize = if order_only <= count {
            count - order_only
        } else {
            0
        };
        let mut dirty: bool = missing;
        let mut newest: Option<NodeId> = None;
        match self.visit_inputs(
            state,
            notes,
            node,
            edge,
            count,
            solid,
            &mut dirty,
            &mut newest,
            stack,
            validations,
            Ghost(inner),
        ) {
            Err(e) => {
                return Err(e);
            },
            Ok(_) => {},
        }
        let ghost s4 = state@;
        let ghost p4 = progress(s4, *notes, validations@, stack@);
        self.finish_edge(state, notes, node, edge, dirty, newest);
        stack.pop();
        proof {
            lemma_advanced_twice(s1, s3, s4);
            assert(stack@ =~= p4.stack.drop_last());
            assert(stack@ =~= p0.stack);
            lemma_left(s0, s1, s4, state@, p0.stack, edge);
            assert(nodes_below(validations@, state@.nodes.len()));
        }
        Ok(())
    }

    fn visit_dyndep(
        &self,
        state: &mut State,
        notes: &mut Option<Explanations>,
        edge: EdgeId,
        stack: &mut Vec<NodeId>,
        validations: &mut Vec<NodeId>,
        Ghost(depth): Ghost<nat>,
    ) -> (r: Result<(), Error>)
        requires
            old(state).wf(),
            edge.0 < old(state)@.edges.len(),
            sources_fit(self.sources(), old(state)@.nodes.len()),
            stack_ok(old(state)@, old(stack)@),
            nodes_below(old(validations)@, old(state)@.nodes.len()),
            depth >= unvisited(old(state)@.edges),
        ensures
            final(state).wf(),
            old(state)@.nodes.len() <= final(state)@.nodes.len(),
            r is Ok ==> scan_kept(
                old(state)@,
                final(state)@,
                old(stack)@,
                final(stack)@,
                final(validations)@,
            ),
            match (r, dyndep_visited::<D>(
                self.sources(),
                progress(old(state)@, *old(notes), old(validations)@, old(stack)@),
                edge,
                depth,
            )) {
                (Ok(_), Ok(p)) => progress(
                    final(state)@,
                    *final(notes),
                    final(validations)@,
                    final(stack)@,
                ) == p,
                (Err(e), Err(f)) => e@ == f.error && progress(
                    final(state)@,
                    *final(notes),
                    final(validations)@,
                    final(stack)@,
                ) == f.at,
                _ => false,
            },
        decreases unvisited(old(state)@.edges), 1nat,
    {
        let ghost s0 = state@;
        proof {
            state.lemma_wf();
            assert(s0.edge_ok(s0.edges[edge.0 as int]));
            lemma_advanced(s0, s0);
        }
        if state.edge(edge).deps_loaded {
            return Ok(());
        }
        let dyndep: NodeId = match state.edge(edge).dyndep() {
            None => {
                return Ok(());
            },
            Some(d) => d,
        };
        if !state.node(dyndep).dyndep_pending {
            return Ok(());
        }
        match self.recompute_node_dirty(state, notes, dyndep, stack, validations, Ghost(depth)) {
            Err(e) => {
                return Err(e);
            },
            Ok(_) => {},
        }
        let ghost s1 = state@;
        proof {
            state.lemma_wf();
            assert(s1.node_ok(s1.nodes[dyndep.0 as int]));
        }
        let ready: bool = match state.node(dyndep).in_edge() {
            None => true,
            Some(e) => state.edge(e).outputs_ready,
        };
        if ready {
            match self.load_dyndeps(state, dyndep) {
                Err(e) => {
                    return Err(e);
                },
                Ok(_) => {},
            }
            proof {
                lemma_marks_kept_advanced(s1, state@);
                lemma_advanced(s1, state@);
                lemma_advanced_twice(s0, s1, state@);
                lemma_stack_kept(s1, state@, stack@);
            }
        }
        Ok(())
    }

    fn visit_inputs(
        &self,
        state: &mut State,
        notes: &mut Option<Explanations>,
        node: NodeId,
        edge: EdgeId,
        count: usize,
        solid: usize,
        dirty: &mut bool,
        newest: &mut Option<NodeId>,
        stack: &mut Vec<NodeId>,
        validations: &mut Vec<NodeId>,
        Ghost(depth): Ghost<nat>,
    ) -> (r: Result<(), Error>)
        requires
            old(state).wf(),
            edge.0 < old(state)@.edges.len(),
            count <= old(state)@.edges[edge.0 as int].inputs.len(),
            sources_fit(self.sources(), old(state)@.nodes.len()),
            stack_ok(old(state)@, old(stack)@),
            nodes_below(old(validations)@, old(state)@.nodes.len()),
            *old(newest) is None,
            depth >= unvisited(old(state)@.edges),
        ensures
            final(state).wf(),
            old(state)@.nodes.len() <= final(state)@.nodes.len(),
            r is Ok ==> scan_kept(
                old(state)@,
                final(state)@,
                old(stack)@,
                final(stack)@,
                final(validations)@,
            ),
            r is Ok ==> (*final(newest) matches Some(m) ==> m.0 < final(state)@.nodes.len()),
            match (r, inputs_visited::<D>(
                self.sources(),
                progress(old(state)@, *old(notes), old(validations)@, old(stack)@),
                node,
                edge,
                0,
                count as nat,
                solid as int,
                Seen { dirty: *old(dirty), newest: *old(newest) },
                depth,
            )) {
                (Ok(_), Ok((p, seen))) => progress(
                    final(state)@,
                    *final(notes),
                    final(validations)@,
                    final(stack)@,
                ) == p && seen == (Seen { dirty: *final(dirty), newest: *final(newest) }),
                (Err(e), Err(f)) => e@ == f.error && progress(
                    final(state)@,
                    *final(notes),
                    final(validations)@,
                    final(stack)@,
                ) == f.at,
                _ => false,
            },
        decreases unvisited(old(state)@.edges), 1nat,
    {
        let ghost s0 = state@;
        let ghost c = self.sources();
        let ghost want = inputs_visited::<D>(
            c,
            progress(state@, *notes, validations@, stack@),
            node,
            edge,
            0,
            count as nat,
            solid as int,
            Seen { dirty: *dirty, newest: *newest },
            depth,
        );
        proof {
            lemma_advanced(s0, s0);
        }
        let mut i: usize = 0;
        while i < count
            invariant
                i <= count,
                state.wf(),
                s0 == old(state)@,
                s0.nodes.len() <= state@.nodes.len(),
                edge.0 < s0.edges.len(),
                count <= s0.edges[edge.0 as int].inputs.len(),
                c == self.sources(),
                sources_fit(c, state@.nodes.len()),
                scan_kept(s0, state@, old(stack)@, stack@, validations@),
                *newest matches Some(m) ==> m.0 < state@.nodes.len(),
                depth >= unvisited(s0.edges),
                want == inputs_visited::<D>(
                    c,
                    progress(old(state)@, *old(notes), old(validations)@, old(stack)@),
                    node,
                    edge,
                    0,
                    count as nat,
                    solid as int,
                    Seen { dirty: *old(dirty), newest: *old(newest) },
                    depth,
                ),
                want == inputs_visited::<D>(
                    c,
                    progress(state@, *notes, validations@, stack@),
                    node,
                    edge,
                    i as nat,
                    count as nat,
                    solid as int,
                    Seen { dirty: *dirty, newest: *newest },
                    depth,
                ),
            decreases count - i,
        {
            let ghost s1 = state@;
            proof {
                state.lemma_wf();
                assert(s1.edge_ok(s1.edges[edge.0 as int]));
                assert(s0.edges[edge.0 as int].inputs.len() <= s1.edges[edge.0 as int].inputs.len());
            }
            let input = state.edge(edge).inputs()[i];
            assert(input == s1.edges[edge.0 as int].inputs[i as int]);
            match self.recompute_node_dirty(state, notes, input, stack, validations, Ghost(depth)) {
                Err(e) => {
                    return Err(e);
                },
                Ok(_) => {},
            }
            let ghost s2 = state@;
            proof {
                assert(s1.edges[edge.0 as int].inputs.len() <= s2.edges[edge.0 as int].inputs.len());
            }
            self.see_input(state, notes, node, edge, i, solid, dirty, newest);
            proof {
                lemma_marks_kept_advanced(s2, state@);
                lemma_advanced_twice(s1, s2, state@);
                lemma_advanced_twice(s0, s1, state@);
                lemma_advanced(s0, state@);
                lemma_stack_kept(s2, state@, stack@);
                lemma_sources_fit(c, s1.nodes.len(), state@.nodes.len());
            }
            i += 1;
        }
        Ok(())
    }
}

pub proof fn lemma_sources_fit<M>(c: Sources<M>, a: nat, b: nat)
    requires
        sources_fit(c, a),
        a <= b,
    ensures
        sources_fit(c, b),
{
    if c.deps is Some {
        let l = c.deps->0;
        assert forall|i: int| 0 <= i < l.deps.len() implies crate::deps_log::deps_fit(
            #[trigger] l.deps[i],
            b,
        ) by {
            assert(crate::deps_log::deps_fit(l.deps[i], a));
        }
    }
}

proof fn lemma_entered(s0: StateView, s1: StateView, stack: Seq<NodeId>, node: NodeId, edge: EdgeId)
    requires
        stack_ok(s0, stack),
        s1.nodes == s0.nodes,
        s1.edges.len() == s0.edges.len(),
        edge.0 < s0.edges.len(),
        node.0 < s0.nodes.len(),
        s0.nodes[node.0 as int].in_edge == Some(edge),
        forall|i: int|
            0 <= i < s0.edges.len() && i != edge.0 ==> #[trigger] s1.edges[i] == s0.edges[i],
    ensures
        stack_ok(s1, stack.push(node)),
{
    let t = stack.push(node);
    assert forall|e: int|
        0 <= e < s1.edges.len() && (#[trigger] s1.edges[e]).mark == VisitMark::InStack implies is_on_stack(
        s1,
        t,
        EdgeId(e as usize),
    ) by {
        if e == edge.0 {
            assert(t[stack.len() as int] == node);
        } else {
            assert(s0.edges[e].mark == VisitMark::InStack);
            let k = choose|k: int|
                0 <= k < stack.len() && s0.nodes[(#[trigger] stack[k]).0 as int].in_edge == Some(
                    EdgeId(e as usize),
                );
            assert(t[k] == stack[k]);
        }
    }
}

proof fn lemma_left(
    s0: StateView,
    s1: StateView,
    s4: StateView,
    s5: StateView,
    stack: Seq<NodeId>,
    edge: EdgeId,
)
    requires
        stack_ok(s0, stack),
        edge.0 < s0.edges.len(),
        s0.edges[edge.0 as int].mark == VisitMark::Unvisited,
        s1.nodes == s0.nodes,
        links_kept(s0, s1),
        forall|i: int|
            0 <= i < s0.edges.len() && i != edge.0 ==> #[trigger] s1.edges[i] == s0.edges[i],
        advanced(s1, s4),
        links_kept(s4, s5),
        s5.edges[edge.0 as int].mark == VisitMark::Done,
        forall|i: int|
            0 <= i < s4.edges.len() && i != edge.0 ==> (#[trigger] s5.edges[i]).mark
                == s4.edges[i].mark,
    ensures
        advanced(s0, s5),
        unvisited(s5.edges) < unvisited(s0.edges),
        stack_ok(s5, stack),
{
    assert forall|i: int| 0 <= i < s0.nodes.len() && s0.nodes[i].in_edge is Some implies (
    #[trigger] s5.nodes[i]).in_edge == s0.nodes[i].in_edge by {
        assert(s4.nodes[i].in_edge == s1.nodes[i].in_edge);
    }
    assert forall|i: int| 0 <= i < s0.edges.len() implies s0.edges[i].inputs.len() <= (
    #[trigger] s5.edges[i]).inputs.len() && s0.edges[i].outputs.len() <= s5.edges[i].outputs.len() by {
        assert(s0.edges[i].inputs.len() <= s1.edges[i].inputs.len());
        assert(s1.edges[i].inputs.len() <= s4.edges[i].inputs.len());
    }
    assert forall|i: int| 0 <= i < s0.edges.len() implies (#[trigger] s5.edges[i]).mark
        == s0.edges[i].mark || (s0.edges[i].mark == VisitMark::Unvisited && s5.edges[i].mark
        == VisitMark::Done) by {
        if i != edge.0 {
            assert(s1.edges[i] == s0.edges[i]);
            assert(s4.edges[i].mark == s1.edges[i].mark || s4.edges[i].mark == VisitMark::Done);
        }
    }
    lemma_unvisited_less(s0.edges, s5.edges, edge.0 as int);
    lemma_stack_kept(s0, s5, stack);
}

/// Whether no edge is being visited.
pub open spec fn at_rest(s: StateView) -> bool {
    forall|e: int| 0 <= e < s.edges.len() ==> (#[trigger] s.edges[e]).mark != VisitMark::InStack
}

impl<'a, D: DiskInterface> DependencyScan<'a, D> {
    /// Update the dirty state of `node` and everything it depends on.
    ///
    /// Validation nodes discovered along the way are appended to
    /// `validation_nodes`; the caller should add them to the build as extra
    /// top-level targets.
    pub fn recompute_dirty(
        &self,
        state: &mut State,
        notes: &mut Option<Explanations>,
        node: NodeId,
        validation_nodes: &mut Vec<NodeId>,
    ) -> (r: Result<(), Error>)
        requires
            old(state).wf(),
            node.0 < old(state)@.nodes.len(),
            sources_fit(self.sources(), old(state)@.nodes.len()),
            at_rest(old(state)@),
            nodes_below(old(validation_nodes)@, old(state)@.nodes.len()),
        ensures
            final(state).wf(),
            old(state)@.nodes.len() <= final(state)@.nodes.len(),
            r is Ok ==> at_rest(final(state)@) && advanced(old(state)@, final(state)@)
                && nodes_below(final(validation_nodes)@, final(state)@.nodes.len()),
            match (r, queue_visited::<D>(
                self.sources(),
                progress(old(state)@, *old(notes), old(validation_nodes)@, Seq::empty()),
                seq![node],
            )) {
                (Ok(_), Ok(p)) => progress(
                    final(state)@,
                    *final(notes),
                    final(validation_nodes)@,
                    Seq::empty(),
                ) == p,
                (Err(e), Err(f)) => e@ == f.error && progress(
                    final(state)@,
                    *final(notes),
                    final(validation_nodes)@,
                    Seq::empty(),
                ) == f.at,
                _ => false,
            },
    {
        let ghost c = self.sources();
        let ghost s0 = state@;
        let ghost none = Seq::<NodeId>::empty();
        let ghost want = queue_visited::<D>(
            c,
            progress(state@, *notes, validation_nodes@, none),
            seq![node],
        );
        let mut queue: Vec<NodeId> = Vec::new();
        queue.push(node);
        assert(queue@ =~= seq![node]);
        proof {
            lemma_advanced(s0, s0);
        }
        while queue.len() > 0
            invariant
                state.wf(),
                s0 == old(state)@,
                s0.nodes.len() <= state@.nodes.len(),
                advanced(s0, state@),
                c == self.sources(),
                none == Seq::<NodeId>::empty(),
                sources_fit(c, state@.nodes.len()),
                at_rest(state@),
                nodes_below(queue@, state@.nodes.len()),
                nodes_below(validation_nodes@, state@.nodes.len()),
                want == queue_visited::<D>(
                    c,
                    progress(old(state)@, *old(notes), old(validation_nodes)@, none),
                    seq![node],
                ),
                want == queue_visited::<D>(
                    c,
                    progress(state@, *notes, validation_nodes@, none),
                    queue@,
                ),
            decreases unvisited(state@.edges), queue@.len(),
        {
            let ghost s1 = state@;
            let ghost q1 = queue@;
            let ghost v1 = validation_nodes@;
            let next = queue.remove(0);
            assert(queue@ =~= q1.drop_first());
            let mut stack: Vec<NodeId> = Vec::new();
            let mut more: Vec<NodeId> = Vec::new();
            assert(stack@ =~= none);
            assert(more@ =~= none);
            proof {
                lemma_unvisited_kept(s1.edges, s1.edges);
            }
            match self.recompute_node_dirty(
                state,
                notes,
                next,
                &mut stack,
                &mut more,
                Ghost(s1.edges.len()),
            ) {
                Err(e) => {
                    return Err(e);
                },
                Ok(_) => {},
            }
            let mut also = copied_nodes(&more);
            let ghost m = more@;
            queue.append(&mut also);
            validation_nodes.append(&mut more);
            proof {
                assert(queue@ =~= q1.drop_first() + m);
                assert(validation_nodes@ =~= v1 + m);
                lemma_advanced_twice(s0, s1, state@);
                lemma_sources_fit(c, s1.nodes.len(), state@.nodes.len());
                assert forall|k: int| 0 <= k < queue@.len() implies (#[trigger] queue@[k]).0
                    < state@.nodes.len() by {
                    if k < q1.len() - 1 {
                        assert(queue@[k] == q1[k + 1]);
                    } else {
                        assert(queue@[k] == m[k - (q1.len() - 1)]);
                    }
                }
                assert forall|e: int| 0 <= e < state@.edges.len() implies (
                #[trigger] state@.edges[e]).mark != VisitMark::InStack by {
                    if state@.edges[e].mark == VisitMark::InStack {
                        assert(is_on_stack(state@, none, EdgeId(e as usize)));
                    }
                }
            }
        }
        Ok(())
    }
}

pub(crate) fn copied_nodes(v: &Vec<NodeId>) -> (r: Vec<NodeId>)
    ensures
        r@ == v@,
{
    vstd::slice::slice_to_vec(v.as_slice())
}

/// An order-only input never makes an edge dirty, and never counts as its
/// newest input.
pub proof fn law_order_only_inputs_never_dirty(
    p: Progress,
    node: NodeId,
    edge: EdgeId,
    i: int,
    solid: int,
    seen: Seen,
)
    requires
        solid <= i,
    ensures
        input_seen(p, node, edge, i, solid, seen).1 == seen,
{
}

/// A dirty input that is not order-only makes an edge dirty.
pub proof fn law_dirty_inputs_spread(
    p: Progress,
    node: NodeId,
    edge: EdgeId,
    i: int,
    solid: int,
    seen: Seen,
)
    requires
        0 <= i < solid,
        edge.0 < p.state.edges.len(),
        p.state.nodes[p.state.edges[edge.0 as int].inputs[i].0 as int].dirty,
    ensures
        input_seen(p, node, edge, i, solid, seen).1.dirty,
{
}

/// Discovered inputs are put before the order-only inputs, which stay last and
/// in order.
pub proof fn law_discovered_inputs_precede_order_only(s: StateView, edge: EdgeId, node: NodeId)
    requires
        edge.0 < s.edges.len(),
        node.0 < s.nodes.len(),
        s.edges[edge.0 as int].order_only_deps <= s.edges[edge.0 as int].inputs.len(),
    ensures
        ({
            let e = s.edges[edge.0 as int];
            let f = s.input_spliced(edge, node).edges[edge.0 as int];
            &&& f.order_only_deps == e.order_only_deps
            &&& f.inputs.skip(f.first_order_only()) == e.inputs.skip(e.first_order_only())
            &&& f.inputs.take(f.first_order_only()) == e.inputs.take(e.first_order_only()).push(
                node,
            )
        }),
{
    let e = s.edges[edge.0 as int];
    let f = s.input_spliced(edge, node).edges[edge.0 as int];
    assert(f.inputs.skip(f.first_order_only()) =~= e.inputs.skip(e.first_order_only()));
    assert(f.inputs.take(f.first_order_only()) =~= e.inputs.take(e.first_order_only()).push(node));
}

/// An output of a real command that does not exist is dirty, whatever the logs
/// say.
pub proof fn law_missing_outputs_are_dirty(
    log: Option<Entries>,
    p: Progress,
    edge: EdgeId,
    newest: Option<NodeId>,
    command: Seq<char>,
    output: NodeId,
)
    requires
        p.state.edges[edge.0 as int].rule != phony_rule(),
        p.state.nodes[output.0 as int].exists != Existence::Exists,
    ensures
        output_checked(log, p, edge, newest, command, output).1,
{
    reveal(output_checked);
}

/// An output of a real command that is older than the newest input is dirty,
/// unless the command may leave its outputs alone and has been recorded.
pub proof fn law_older_outputs_are_dirty(
    log: Option<Entries>,
    p: Progress,
    edge: EdgeId,
    newest: NodeId,
    command: Seq<char>,
    output: NodeId,
)
    requires
        p.state.edges[edge.0 as int].rule != phony_rule(),
        p.state.nodes[output.0 as int].mtime < p.state.nodes[newest.0 as int].mtime,
        !p.state.restat(edge.0 as int) || log is None || !log->0.contains_key(
            p.state.nodes[output.0 as int].path,
        ),
    ensures
        output_checked(log, p, edge, Some(newest), command, output).1,
{
    reveal(output_checked);
}

/// A command that has changed since it was recorded makes its outputs dirty,
/// unless it is a generator.
pub proof fn law_changed_commands_are_dirty(
    log: Entries,
    p: Progress,
    edge: EdgeId,
    newest: Option<NodeId>,
    command: Seq<char>,
    output: NodeId,
)
    requires
        p.state.edges[edge.0 as int].rule != phony_rule(),
        p.state.binding(edge.0 as int, "generator"@, Escape::Shell).len() == 0,
        log.contains_key(p.state.nodes[output.0 as int].path),
        log[p.state.nodes[output.0 as int].path].command_hash != rapidhash_of(encode_utf8(command)),
    ensures
        output_checked(Some(log), p, edge, newest, command, output).1,
{
    reveal(output_checked);
}

/// Whether the outputs of a generator are dirty does not depend on its command.
pub proof fn law_generators_ignore_their_command(
    log: Option<Entries>,
    p: Progress,
    edge: EdgeId,
    newest: Option<NodeId>,
    one: Seq<char>,
    other: Seq<char>,
    output: NodeId,
)
    requires
        p.state.binding(edge.0 as int, "generator"@, Escape::Shell).len() > 0,
    ensures
        output_checked(log, p, edge, newest, one, output) == output_checked(
            log,
            p,
            edge,
            newest,
            other,
            output,
        ),
{
    reveal(output_checked);
}

/// Whether the log shows that `output` was made by `command` and is not older
/// than the newest input.
pub open spec fn is_up_to_date(
    log: Entries,
    p: Progress,
    edge: EdgeId,
    newest: Option<NodeId>,
    command: Seq<char>,
    output: NodeId,
) -> bool {
    let n = p.state.nodes[output.0 as int];
    &&& n.exists == Existence::Exists
    &&& log.contains_key(n.path)
    &&& log[n.path].command_hash == rapidhash_of(encode_utf8(command))
    &&& newest matches Some(m) ==> {
        let t = p.state.nodes[m.0 as int].mtime;
        &&& t <= log[n.path].mtime
        &&& t <= n.mtime || p.state.restat(edge.0 as int)
    }
}

/// The outputs of a real command that are up to date by the log make nothing
/// dirty, and checking them changes nothing.
pub proof fn law_up_to_date_outputs_are_clean(
    log: Entries,
    p: Progress,
    edge: EdgeId,
    newest: Option<NodeId>,
    command: Seq<char>,
    outputs: Seq<NodeId>,
    k: int,
)
    requires
        0 <= k,
        p.state.edges[edge.0 as int].rule != phony_rule(),
        forall|i: int|
            k <= i < outputs.len() ==> is_up_to_date(
                log,
                p,
                edge,
                newest,
                command,
                #[trigger] outputs[i],
            ),
    ensures
        outputs_checked(Some(log), p, edge, newest, command, outputs, k) == (p, false),
    decreases outputs.len() - k,
{
    if k < outputs.len() {
        assert(is_up_to_date(log, p, edge, newest, command, outputs[k]));
        assert(output_checked(Some(log), p, edge, newest, command, outputs[k]) == (p, false)) by {
            reveal(output_checked);
        }
        law_up_to_date_outputs_are_clean(log, p, edge, newest, command, outputs, k + 1);
    }
}

/// A file that no command makes is dirty exactly when it does not exist.
pub proof fn law_leaves_are_dirty_when_missing<D: DiskInterface>(
    m: D::Model,
    p: Progress,
    node: NodeId,
)
    requires
        node.0 < p.state.nodes.len(),
        p.state.nodes[node.0 as int].exists == Existence::Unknown,
        D::mtime_of(m, p.state.nodes[node.0 as int].path) is Ok,
    ensures
        leaf_visited::<D>(m, p, node) matches Ok(q) && q.state.nodes[node.0 as int].dirty == (
        D::mtime_of(m, p.state.nodes[node.0 as int].path)->Ok_0 == 0),
{
}

/// Visiting an edge that is done changes nothing.
pub proof fn law_edges_are_visited_once<D: DiskInterface>(
    c: Sources<D::Model>,
    p: Progress,
    node: NodeId,
    edge: EdgeId,
    depth: nat,
)
    requires
        p.state.nodes[node.0 as int].in_edge == Some(edge),
        p.state.edges[edge.0 as int].mark == VisitMark::Done,
    ensures
        visited::<D>(c, p, node, depth) == Ok::<Progress, Cut<Progress>>(p),
{
}

} // verus!
