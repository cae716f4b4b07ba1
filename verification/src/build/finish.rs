//! What follows when a command has finished.

use vstd::prelude::*;
use vstd::string::*;

use crate::build::start::explained;
use crate::build::{BuildConfig, Builder, Logs};
use crate::depfile::parse_depfile;
use crate::disk::DiskInterface;
use crate::error::Error;
use crate::eval::phony_rule;
use crate::exec::{CommandResult, ExitStatus};
use crate::graph::{intern_deps, DependencyScan, Explanations};
use crate::msvc::parse_show_includes;
use crate::parse::quoted;
use crate::plan::{EdgeResult, Plan};
use crate::state::{EdgeId, NodeId, State};
use crate::status::{tell, Status, StatusEvent};
use crate::text::str_eq;

verus! {

use crate::build::start::{edge_notes, lemma_explained_fits, with_explanations};
use crate::build::{sources_of, BuilderView, LogsView};
use crate::build_log::{ran, recorded_lines, with_recorded};
use crate::depfile::depfile_of;
use crate::deps_log::{deps_recorded, lemma_recorded_edges, DepsLogView, DepsView};
use crate::disk::Outcome;
use crate::dyndep::{dyndeps_loaded, only_grown};
use crate::error::{error_text, ErrorView};
use crate::graph::{
    at_rest, deps_interned, edge_checked, is_ready, is_up_to_date,
    law_up_to_date_outputs_are_clean, Progress, Sources,
};
use crate::hash::rapidhash_of;
use crate::msvc::filtered;
use crate::plan::{
    cleaned, dyndeps_planned, edge_ended, is_queued, lemma_queue_kept, lemma_same_makers, orderly,
    planned, queued_once, scanned, work, PlanView, Scanned,
};
use crate::state::{
    cut, law_bindings_are_fixed, nodes_below, path_of, says_same, Cut, Escape, Existence,
    StateView,
};
use crate::status::{all_heard, event_views, EventView};
use crate::text::{in_ascending_order, lemma_lists_once, lists, texts};
use vstd::utf8::encode_utf8;

/// What extracting the dependencies of a command comes to.
pub struct Collected<M> {
    /// The dependencies, or what is wrong.
    pub nodes: Outcome<Seq<NodeId>>,
    /// The output of the command that is to be shown.
    pub output: Seq<char>,
    pub state: StateView,
    pub disk: M,
}

/// The graph with a node for each path from the `k`-th on, in which all
/// separators are marked as backslashes, and these nodes behind `acc`.
pub open spec fn includes_interned(
    s: StateView,
    paths: Seq<Seq<char>>,
    k: int,
    acc: Seq<NodeId>,
) -> (StateView, Seq<NodeId>)
    decreases paths.len() - k,
{
    if 0 <= k < paths.len() {
        includes_interned(
            s.interned(paths[k], u64::MAX),
            paths,
            k + 1,
            acc.push(s.id_of(paths[k])),
        )
    } else {
        (s, acc)
    }
}

/// The dependencies that `cl.exe` prints.
pub open spec fn msvc_collected<M>(m: M, s: StateView, output: Seq<char>, prefix: Seq<char>) -> Collected<
    M,
> {
    let f = filtered(output, prefix);
    let (t, nodes) = includes_interned(s, in_ascending_order(f.includes), 0, Seq::empty());
    Collected { nodes: Ok(nodes), output: f.output, state: t, disk: m }
}

/// The dependencies in a depfile. A missing depfile is treated as empty.
pub open spec fn gcc_collected<D: DiskInterface>(
    m: D::Model,
    s: StateView,
    edge: EdgeId,
    output: Seq<char>,
    keep: bool,
) -> Collected<D::Model> {
    let depfile = s.binding(edge.0 as int, "depfile"@, Escape::Plain);
    let content = D::content_of(m, depfile);
    if depfile.len() == 0 {
        Collected {
            nodes: Err(
                ErrorView::Build("edge with deps=gcc but no depfile makes no sense"@),
            ),
            output,
            state: s,
            disk: m,
        }
    } else if content is Err {
        Collected { nodes: Err(content->Err_0), output, state: s, disk: m }
    } else if !(content->Ok_0 matches Some(b) && b.len() > 0) {
        Collected { nodes: Ok(Seq::empty()), output, state: s, disk: m }
    } else {
        match depfile_of(content->Ok_0->0) {
            Err(e) => Collected {
                nodes: Err(ErrorView::Build(depfile + ": "@ + e)),
                output,
                state: s,
                disk: m,
            },
            Ok((_, ins)) => {
                let (t, nodes) = deps_interned(s, ins, 0, Seq::empty());
                if keep {
                    Collected { nodes: Ok(nodes), output, state: t, disk: m }
                } else {
                    let gone = D::removed(m, depfile);
                    Collected {
                        nodes: match gone.0 {
                            Err(e) => Err(e),
                            Ok(_) => Ok(nodes),
                        },
                        output,
                        state: t,
                        disk: gone.1,
                    }
                }
            },
        }
    }
}

/// What extracting the dependencies of a command comes to.
pub open spec fn deps_collected<D: DiskInterface>(
    m: D::Model,
    s: StateView,
    edge: EdgeId,
    output: Seq<char>,
    keep: bool,
) -> Collected<D::Model> {
    let deps = s.binding(edge.0 as int, "deps"@, Escape::Shell);
    let prefix = s.binding(edge.0 as int, "msvc_deps_prefix"@, Escape::Shell);
    if deps.len() == 0 {
        Collected { nodes: Ok(Seq::empty()), output, state: s, disk: m }
    } else if deps == "msvc"@ {
        msvc_collected(m, s, output, prefix)
    } else if deps == "gcc"@ {
        gcc_collected::<D>(m, s, edge, output, keep)
    } else {
        Collected {
            nodes: Err(ErrorView::Build("unknown deps type '"@ + deps + "'"@)),
            output,
            state: s,
            disk: m,
        }
    }
}

fn intern_includes(state: &mut State, paths: &Vec<String>) -> (r: Vec<NodeId>)
    requires
        old(state).wf(),
    ensures
        final(state).wf(),
        only_grown(old(state)@, final(state)@),
        nodes_below(r@, final(state)@.nodes.len()),
        (final(state)@, r@) == includes_interned(old(state)@, texts(paths@), 0, Seq::empty()),
{
    let ghost ps = texts(paths@);
    let ghost want = includes_interned(old(state)@, ps, 0, Seq::empty());
    let mut nodes: Vec<NodeId> = Vec::new();
    let mut k: usize = 0;
    assert(nodes@ =~= Seq::empty());
    while k < paths.len()
        invariant
            k <= paths@.len(),
            ps == texts(paths@),
            state.wf(),
            only_grown(old(state)@, state@),
            nodes_below(nodes@, state@.nodes.len()),
            includes_interned(state@, ps, k as int, nodes@) == want,
        decreases paths@.len() - k,
    {
        let ghost s = state@;
        let node = state.get_node(paths[k].as_str(), u64::MAX);
        proof {
            assert(ps[k as int] == paths@[k as int]@);
        }
        nodes.push(node);
        k += 1;
    }
    nodes
}

fn collect_gcc<D: DiskInterface>(
    state: &mut State,
    disk: &mut D,
    edge: EdgeId,
    keep: bool,
    Ghost(output): Ghost<Seq<char>>,
) -> (r: Result<Vec<NodeId>, Error>)
    requires
        old(state).wf(),
        edge.0 < old(state)@.edges.len(),
    ensures
        final(state).wf(),
        only_grown(old(state)@, final(state)@),
        ({
            let w = gcc_collected::<D>(old(disk).model(), old(state)@, edge, output, keep);
            &&& final(state)@ == w.state
            &&& final(disk).model() == w.disk
            &&& match (r, w.nodes) {
                (Ok(v), Ok(n)) => v@ == n && nodes_below(v@, final(state)@.nodes.len()),
                (Err(e), Err(f)) => e@ == f,
                _ => false,
            }
        }),
{
    let depfile = state.edge_depfile(edge);
    if depfile.as_str().is_empty() {
        return Err(
            Error::Build("edge with deps=gcc but no depfile makes no sense".to_owned()),
        );
    }
    let nothing: Vec<NodeId> = Vec::new();
    assert(nothing@ =~= Seq::empty());
    let content = match disk.read_file(depfile.as_str()) {
        Err(e) => {
            return Err(e);
        },
        Ok(None) => {
            return Ok(nothing);
        },
        Ok(Some(content)) => content,
    };
    if content.len() == 0 {
        return Ok(nothing);
    }
    let deps = match parse_depfile(content.as_slice()) {
        Err(e) => {
            let mut text = depfile;
            text.append(": ");
            text.append(e.as_str());
            return Err(Error::Build(text));
        },
        Ok(deps) => deps,
    };
    let nodes = intern_deps(state, &deps.ins);
    if !keep {
        match disk.remove_file(depfile.as_str()) {
            Err(e) => {
                return Err(e);
            },
            Ok(_) => {},
        }
    }
    Ok(nodes)
}

/// Extract the dependencies of a command from its depfile or, for `deps = msvc`,
/// from its output, which then keeps what is to be shown.
pub fn collect_deps<D: DiskInterface>(
    state: &mut State,
    disk: &mut D,
    edge: EdgeId,
    output: &mut String,
    keep_depfile: bool,
) -> (r: Result<Vec<NodeId>, Error>)
    requires
        old(state).wf(),
        edge.0 < old(state)@.edges.len(),
    ensures
        final(state).wf(),
        only_grown(old(state)@, final(state)@),
        ({
            let w = deps_collected::<D>(
                old(disk).model(),
                old(state)@,
                edge,
                old(output)@,
                keep_depfile,
            );
            &&& final(state)@ == w.state
            &&& final(disk).model() == w.disk
            &&& final(output)@ == w.output
            &&& match (r, w.nodes) {
                (Ok(v), Ok(n)) => v@ == n && nodes_below(v@, final(state)@.nodes.len()),
                (Err(e), Err(f)) => e@ == f,
                _ => false,
            }
        }),
{
    let deps = state.edge_binding(edge, "deps");
    let prefix = state.edge_binding(edge, "msvc_deps_prefix");
    if deps.as_str().is_empty() {
        let nothing: Vec<NodeId> = Vec::new();
        assert(nothing@ =~= Seq::empty());
        Ok(nothing)
    } else if str_eq(deps.as_str(), "msvc") {
        let parsed = parse_show_includes(output.as_str(), prefix.as_str());
        proof {
            let set = filtered(output@, prefix@).includes;
            assert(lists(texts(parsed.includes@), set));
            lemma_lists_once(texts(parsed.includes@), in_ascending_order(set), set);
        }
        *output = parsed.filtered_output;
        Ok(intern_includes(state, &parsed.includes))
    } else if str_eq(deps.as_str(), "gcc") {
        collect_gcc(state, disk, edge, keep_depfile, Ghost(output@))
    } else {
        Err(Error::Build(quoted("unknown deps type '", deps.as_str(), "'")))
    }
}

/// What loading the dyndep file `node` and folding it into the plan comes to.
pub open spec fn dyndep_read<D: DiskInterface>(c: Sources<D::Model>, w: Scanned, node: NodeId) -> Result<
    Scanned,
    Cut<Scanned>,
> {
    match dyndeps_loaded::<D>(w.state, c.disk, node) {
        Err(f) => cut(f.error, Scanned { state: f.state, ..w }),
        Ok((s, v)) => dyndeps_planned::<D>(
            c,
            Scanned { state: s, ..w },
            node,
            v,
            s.nodes.len(),
        ),
    }
}

/// The same for the files from the `k`-th on.
pub open spec fn dyndeps_read<D: DiskInterface>(
    c: Sources<D::Model>,
    w: Scanned,
    files: Seq<NodeId>,
    k: int,
) -> Result<Scanned, Cut<Scanned>>
    decreases files.len() - k,
{
    if 0 <= k < files.len() {
        match dyndep_read::<D>(c, w, files[k]) {
            Err(f) => Err(f),
            Ok(x) => dyndeps_read::<D>(c, x, files, k + 1),
        }
    } else {
        Ok(w)
    }
}

/// The complaint about an edge that nobody has asked for.
pub open spec fn not_planned() -> ErrorView {
    ErrorView::Build("internal error: finished an edge not in the plan"@)
}

/// What an edge that has finished makes of the plan.
pub open spec fn edge_settled<D: DiskInterface>(
    c: Sources<D::Model>,
    w: Scanned,
    edge: EdgeId,
    result: EdgeResult,
) -> Result<Scanned, Cut<Scanned>> {
    if w.plan.wants(edge) is None {
        cut(not_planned(), w)
    } else {
        let x = edge_ended(
            work(w.plan, w.state, Seq::empty()),
            edge,
            result,
            planned(w.plan.want),
        );
        dyndeps_read::<D>(
            c,
            Scanned { plan: x.plan, state: x.state, notes: w.notes },
            x.pending,
            0,
        )
    }
}

proof fn lemma_fits_more(l: DepsLogView, n: nat, m: nat)
    requires
        l.fits(n),
        n <= m,
    ensures
        l.fits(m),
{
    assert forall|i: int| 0 <= i < l.deps.len() implies crate::deps_log::deps_fit(
        #[trigger] l.deps[i],
        m,
    ) by {
        assert(crate::deps_log::deps_fit(l.deps[i], n));
    }
}

/// Logs that fit a graph fit it when it has grown.
pub proof fn lemma_logs_fit_more(l: LogsView, n: nat, m: nat)
    requires
        l.fits(n),
        n <= m,
    ensures
        l.fits(m),
{
    if l.deps is Some {
        lemma_fits_more(l.deps->0, n, m);
    }
}

fn read_dyndep<D: DiskInterface>(
    plan: &mut Plan,
    state: &mut State,
    notes: &mut Option<Explanations>,
    disk: &D,
    logs: &Logs,
    node: NodeId,
) -> (r: Result<(), Error>)
    requires
        old(state).wf(),
        old(plan)@.fits(old(state)@),
        at_rest(old(state)@),
        logs@.fits(old(state)@.nodes.len()),
        node.0 < old(state)@.nodes.len(),
    ensures
        final(state).wf(),
        old(state)@.nodes.len() <= final(state)@.nodes.len(),
        r is Ok ==> final(plan)@.fits(final(state)@) && at_rest(final(state)@)
            && final(state)@.edges.len() == old(state)@.edges.len(),
        r is Ok && queued_once(old(plan)@, old(state)@) ==> queued_once(
            final(plan)@,
            final(state)@,
        ),
        match (r, dyndep_read::<D>(
            sources_of(disk.model(), logs@),
            scanned(old(plan)@, old(state)@, *old(notes)),
            node,
        )) {
            (Ok(_), Ok(w)) => scanned(final(plan)@, final(state)@, *final(notes)) == w,
            (Err(e), Err(f)) => e@ == f.error && scanned(final(plan)@, final(state)@, *final(notes))
                == f.at,
            _ => false,
        },
{
    let scan = DependencyScan::new(disk, logs.build_log(), logs.deps_log());
    let ghost s0 = state@;
    let loaded = scan.load_dyndeps(state, node);
    proof {
        lemma_logs_fit_more(logs@, s0.nodes.len(), state@.nodes.len());
        assert(at_rest(state@)) by {
            assert forall|e: int| 0 <= e < state@.edges.len() implies (
            #[trigger] state@.edges[e]).mark != crate::state::VisitMark::InStack by {
                assert(s0.edges[e].mark == state@.edges[e].mark);
            }
        }
        assert(plan@.fits(state@));
        if queued_once(plan@, s0) {
            lemma_queue_kept(plan@, s0, state@);
        }
    }
    match loaded {
        Err(e) => Err(e),
        Ok(ddf) => {
            let ghost w = Scanned {
                state: state@,
                ..scanned(old(plan)@, s0, *old(notes))
            };
            assert(w == scanned(plan@, state@, *notes));
            plan.dyndeps_loaded(&scan, state, notes, node, &ddf)
        },
    }
}

fn read_dyndeps<D: DiskInterface>(
    plan: &mut Plan,
    state: &mut State,
    notes: &mut Option<Explanations>,
    disk: &D,
    logs: &Logs,
    files: &[NodeId],
) -> (r: Result<(), Error>)
    requires
        old(state).wf(),
        old(plan)@.fits(old(state)@),
        at_rest(old(state)@),
        logs@.fits(old(state)@.nodes.len()),
        nodes_below(files@, old(state)@.nodes.len()),
    ensures
        final(state).wf(),
        old(state)@.nodes.len() <= final(state)@.nodes.len(),
        r is Ok ==> final(plan)@.fits(final(state)@) && at_rest(final(state)@)
            && final(state)@.edges.len() == old(state)@.edges.len(),
        r is Ok && queued_once(old(plan)@, old(state)@) ==> queued_once(
            final(plan)@,
            final(state)@,
        ),
        match (r, dyndeps_read::<D>(
            sources_of(disk.model(), logs@),
            scanned(old(plan)@, old(state)@, *old(notes)),
            files@,
            0,
        )) {
            (Ok(_), Ok(w)) => scanned(final(plan)@, final(state)@, *final(notes)) == w,
            (Err(e), Err(f)) => e@ == f.error && scanned(final(plan)@, final(state)@, *final(notes))
                == f.at,
            _ => false,
        },
{
    let ghost c = sources_of(disk.model(), logs@);
    let ghost s0 = state@;
    let ghost w0 = scanned(plan@, state@, *notes);
    let mut k: usize = 0;
    while k < files.len()
        invariant
            k <= files@.len(),
            c == sources_of(disk.model(), logs@),
            s0 == old(state)@,
            w0 == scanned(old(plan)@, s0, *old(notes)),
            state.wf(),
            plan@.fits(state@),
            queued_once(old(plan)@, s0) ==> queued_once(plan@, state@),
            at_rest(state@),
            s0.nodes.len() <= state@.nodes.len(),
            s0.edges.len() == state@.edges.len(),
            logs@.fits(state@.nodes.len()),
            nodes_below(files@, s0.nodes.len()),
            dyndeps_read::<D>(c, scanned(plan@, state@, *notes), files@, k as int)
                == dyndeps_read::<D>(c, w0, files@, 0),
        decreases files@.len() - k,
    {
        let ghost n = state@.nodes.len();
        match read_dyndep(plan, state, notes, disk, logs, files[k]) {
            Err(e) => {
                return Err(e);
            },
            Ok(_) => {},
        }
        proof {
            lemma_logs_fit_more(logs@, n, state@.nodes.len());
        }
        k += 1;
    }
    Ok(())
}

fn settle_edge<D: DiskInterface>(
    plan: &mut Plan,
    state: &mut State,
    notes: &mut Option<Explanations>,
    disk: &D,
    logs: &Logs,
    edge: EdgeId,
    result: EdgeResult,
) -> (r: Result<(), Error>)
    requires
        old(state).wf(),
        old(plan)@.fits(old(state)@),
        at_rest(old(state)@),
        logs@.fits(old(state)@.nodes.len()),
    ensures
        final(state).wf(),
        old(state)@.nodes.len() <= final(state)@.nodes.len(),
        r is Ok ==> final(plan)@.fits(final(state)@) && at_rest(final(state)@),
        r is Ok && queued_once(old(plan)@, old(state)@) && !is_queued(old(plan)@, edge)
            ==> queued_once(final(plan)@, final(state)@),
        match (r, edge_settled::<D>(
            sources_of(disk.model(), logs@),
            scanned(old(plan)@, old(state)@, *old(notes)),
            edge,
            result,
        )) {
            (Ok(_), Ok(w)) => scanned(final(plan)@, final(state)@, *final(notes)) == w,
            (Err(e), Err(f)) => e@ == f.error && scanned(final(plan)@, final(state)@, *final(notes))
                == f.at,
            _ => false,
        },
{
    let ghost s0 = state@;
    match plan.edge_finished(state, edge, result) {
        Err(e) => Err(e),
        Ok(pending) => {
            proof {
                lemma_rest_kept(s0, state@);
            }
            read_dyndeps(plan, state, notes, disk, logs, pending.as_slice())
        },
    }
}

proof fn lemma_rest_kept(s: StateView, t: StateView)
    requires
        crate::plan::same_graph(s, t),
        at_rest(s),
    ensures
        at_rest(t),
{
    assert forall|e: int| 0 <= e < t.edges.len() implies (#[trigger] t.edges[e]).mark
        != crate::state::VisitMark::InStack by {
        assert(s.edges[e].mark == t.edges[e].mark);
    }
}

impl Builder {
    /// Load the dyndep file `node` names and fold it into the plan.
    pub fn load_dyndeps<D: DiskInterface>(
        &mut self,
        state: &mut State,
        disk: &D,
        logs: &Logs,
        node: NodeId,
    ) -> (r: Result<(), Error>)
        requires
            old(state).wf(),
            old(self)@.plan.fits(old(state)@),
            at_rest(old(state)@),
            logs@.fits(old(state)@.nodes.len()),
            node.0 < old(state)@.nodes.len(),
        ensures
            final(state).wf(),
            old(state)@.nodes.len() <= final(state)@.nodes.len(),
            r is Ok ==> final(self)@.plan.fits(final(state)@) && at_rest(final(state)@),
            r is Ok && queued_once(old(self)@.plan, old(state)@) ==> queued_once(
                final(self)@.plan,
                final(state)@,
            ),
            match (r, dyndep_read::<D>(
                sources_of(disk.model(), logs@),
                old(self)@.scanned(old(state)@),
                node,
            )) {
                (Ok(_), Ok(w)) => final(state)@ == w.state && final(self)@ == (BuilderView {
                    plan: w.plan,
                    notes: w.notes,
                    ..old(self)@
                }),
                (Err(e), Err(f)) => e@ == f.error && final(state)@ == f.at.state && final(self)@ == (
                BuilderView { plan: f.at.plan, notes: f.at.notes, ..old(self)@ }),
                _ => false,
            },
    {
        read_dyndep(&mut self.plan, state, &mut self.explanations, disk, logs, node)
    }

    /// Note that an edge without a command to run, a phony one, is done.
    pub fn finish_phony<D: DiskInterface>(
        &mut self,
        state: &mut State,
        disk: &D,
        logs: &Logs,
        edge: EdgeId,
    ) -> (r: Result<(), Error>)
        requires
            old(state).wf(),
            old(self)@.plan.fits(old(state)@),
            at_rest(old(state)@),
            logs@.fits(old(state)@.nodes.len()),
        ensures
            final(state).wf(),
            old(state)@.nodes.len() <= final(state)@.nodes.len(),
            r is Ok ==> final(self)@.plan.fits(final(state)@) && at_rest(final(state)@),
            r is Ok && queued_once(old(self)@.plan, old(state)@) && !is_queued(
                old(self)@.plan,
                edge,
            ) ==> queued_once(final(self)@.plan, final(state)@),
            match (r, edge_settled::<D>(
                sources_of(disk.model(), logs@),
                old(self)@.scanned(old(state)@),
                edge,
                EdgeResult::Succeeded,
            )) {
                (Ok(_), Ok(w)) => final(state)@ == w.state && final(self)@ == (BuilderView {
                    plan: w.plan,
                    notes: w.notes,
                    ..old(self)@
                }),
                (Err(e), Err(f)) => e@ == f.error && final(state)@ == f.at.state && final(self)@ == (
                BuilderView { plan: f.at.plan, notes: f.at.notes, ..old(self)@ }),
                _ => false,
            },
    {
        settle_edge(
            &mut self.plan,
            state,
            &mut self.explanations,
            disk,
            logs,
            edge,
            EdgeResult::Succeeded,
        )
    }
}

/// What looking at the outputs from the `k`-th on again comes to: the plan, in
/// which what depends on an unchanged output of a `restat` rule is clean, the
/// newest mtime seen, and whether an output was unchanged.
pub open spec fn outputs_restated<D: DiskInterface>(
    c: Sources<D::Model>,
    w: Scanned,
    outputs: Seq<NodeId>,
    restat: bool,
    newest: i64,
    unchanged: bool,
    k: int,
) -> Result<(Scanned, i64, bool), Cut<Scanned>>
    decreases outputs.len() - k,
{
    if 0 <= k < outputs.len() {
        match D::mtime_of(c.disk, path_of(w.state, outputs[k])) {
            Err(f) => cut(f, w),
            Ok(t) => {
                let seen = if t > newest {
                    t
                } else {
                    newest
                };
                if restat && w.state.nodes[outputs[k].0 as int].mtime == t {
                    match cleaned(c.log, w, outputs[k], w.state.nodes.len()) {
                        Err(f) => Err(f),
                        Ok(x) => outputs_restated::<D>(c, x, outputs, restat, seen, true, k + 1),
                    }
                } else {
                    outputs_restated::<D>(c, w, outputs, restat, seen, unchanged, k + 1)
                }
            },
        }
    } else {
        Ok((w, newest, unchanged))
    }
}

/// The plan after a command that succeeded, as far as its outputs tell, and the
/// mtime to record for it. `restat` and `generator` rules look at the outputs
/// again; so does a command whose start could not be timed.
pub open spec fn edge_restated<D: DiskInterface>(
    c: Sources<D::Model>,
    w: Scanned,
    edge: EdgeId,
    dry_run: bool,
) -> Result<(Scanned, i64), Cut<Scanned>> {
    let e = edge.0 as int;
    let start = w.state.edges[e].command_start_time;
    let restat = w.state.restat(e);
    let generator = w.state.binding(e, "generator"@, Escape::Shell).len() > 0;
    if dry_run {
        Ok((w, 0))
    } else if start == 0 || restat || generator {
        match outputs_restated::<D>(c, w, w.state.edges[e].outputs, restat, start, false, 0) {
            Err(f) => Err(f),
            Ok((x, newest, unchanged)) => Ok(
                (
                    x,
                    if unchanged {
                        start
                    } else {
                        newest
                    },
                ),
            ),
        }
    } else {
        Ok((w, start))
    }
}

spec fn none_done(s: StateView, nodes: Seq<NodeId>) -> bool {
    forall|i: int| 0 <= i < nodes.len() ==> !is_ready(s, #[trigger] nodes[i])
}

/// Whether `edge`, which has run, can be taken note of without disturbing the
/// queue: it has been taken from the queue, and where its command may leave its
/// outputs alone, so that others may be spared, the plan is in order.
pub open spec fn may_settle(p: PlanView, s: StateView, edge: EdgeId, restat: bool) -> bool {
    &&& queued_once(p, s)
    &&& !is_queued(p, edge)
    &&& restat ==> orderly(p, s) && !s.edges[edge.0 as int].outputs_ready
}

proof fn lemma_settles_later(p: PlanView, s: StateView, t: StateView, edge: EdgeId, restat: bool)
    requires
        s.wf(),
        only_grown(s, t),
        may_settle(p, s, edge, restat),
    ensures
        may_settle(p, t, edge, restat),
{
    lemma_queue_kept(p, s, t);
    if restat {
        assert forall|e: int| 0 <= e < s.edges.len() && s.inputs_ready(e) implies #[trigger] t.inputs_ready(
            e,
        ) by {
            assert(s.edge_ok(s.edges[e]));
            assert forall|k: int| 0 <= k < t.edges[e].inputs.len() implies match t.nodes[(
            #[trigger] t.edges[e].inputs[k]).0 as int].in_edge {
                Some(f) => t.edges[f.0 as int].outputs_ready,
                None => true,
            } by {
                assert(t.edges[e].inputs[k] == s.edges[e].inputs[k]);
            }
        }
        assert(crate::plan::inputs_first(p, t));
    }
}

fn restat_outputs<D: DiskInterface>(
    plan: &mut Plan,
    state: &mut State,
    notes: &mut Option<Explanations>,
    disk: &D,
    logs: &Logs,
    outputs: &[NodeId],
    restat: bool,
    start: i64,
) -> (r: Result<(i64, bool), Error>)
    requires
        old(state).wf(),
        old(plan)@.fits(old(state)@),
        nodes_below(outputs@, old(state)@.nodes.len()),
    ensures
        final(state).wf(),
        final(plan)@.fits(final(state)@),
        final(state)@.nodes.len() == old(state)@.nodes.len(),
        final(state)@.edges == old(state)@.edges,
        final(plan)@.ready == old(plan)@.ready,
        final(plan)@.delayed == old(plan)@.delayed,
        !restat ==> final(plan)@ == old(plan)@ && final(state)@ == old(state)@,
        orderly(old(plan)@, old(state)@) && none_done(old(state)@, outputs@) ==> orderly(
            final(plan)@,
            final(state)@,
        ),
        match (r, outputs_restated::<D>(
            sources_of(disk.model(), logs@),
            scanned(old(plan)@, old(state)@, *old(notes)),
            outputs@,
            restat,
            start,
            false,
            0,
        )) {
            (Ok(t), Ok(w)) => (scanned(final(plan)@, final(state)@, *final(notes)), t.0, t.1) == w,
            (Err(e), Err(f)) => e@ == f.error && scanned(final(plan)@, final(state)@, *final(notes))
                == f.at,
            _ => false,
        },
{
    let ghost c = sources_of(disk.model(), logs@);
    let ghost w0 = scanned(plan@, state@, *notes);
    let ghost s0 = state@;
    proof {
        state.lemma_wf();
    }
    let scan = DependencyScan::new(disk, logs.build_log(), logs.deps_log());
    let mut newest: i64 = start;
    let mut unchanged: bool = false;
    let mut k: usize = 0;
    while k < outputs.len()
        invariant
            k <= outputs@.len(),
            c == sources_of(disk.model(), logs@),
            c == scan.sources(),
            s0 == old(state)@,
            w0 == scanned(old(plan)@, s0, *old(notes)),
            state.wf(),
            plan@.fits(state@),
            s0.wf(),
            s0.nodes.len() <= usize::MAX,
            plan@.ready == old(plan)@.ready,
            plan@.delayed == old(plan)@.delayed,
            !restat ==> plan@ == old(plan)@ && state@ == s0,
            orderly(old(plan)@, s0) && none_done(s0, outputs@) ==> orderly(plan@, state@),
            state@.nodes.len() == s0.nodes.len(),
            state@.edges == s0.edges,
            nodes_below(outputs@, s0.nodes.len()),
            outputs_restated::<D>(
                c,
                scanned(plan@, state@, *notes),
                outputs@,
                restat,
                newest,
                unchanged,
                k as int,
            ) == outputs_restated::<D>(c, w0, outputs@, restat, start, false, 0),
        decreases outputs@.len() - k,
    {
        let output = outputs[k];
        let mtime: i64 = match disk.stat(state.node(output).path()) {
            Err(e) => {
                return Err(e);
            },
            Ok(t) => t,
        };
        if mtime > newest {
            newest = mtime;
        }
        if restat && state.node(output).mtime == mtime {
            // The command did not change this output, so anything depending on
            // it is still clean. This also covers outputs that do not exist
            // (mtime 0).
            proof {
                state.lemma_wf();
                lemma_same_makers(s0, state@);
            }
            match plan.clean_node(&scan, state, notes, output) {
                Err(e) => {
                    return Err(e);
                },
                Ok(_) => {},
            }
            unchanged = true;
        }
        k += 1;
    }
    Ok((newest, unchanged))
}

fn restat_edge<D: DiskInterface>(
    plan: &mut Plan,
    state: &mut State,
    notes: &mut Option<Explanations>,
    disk: &D,
    logs: &Logs,
    edge: EdgeId,
    dry_run: bool,
) -> (r: Result<i64, Error>)
    requires
        old(state).wf(),
        old(plan)@.fits(old(state)@),
        edge.0 < old(state)@.edges.len(),
    ensures
        final(state).wf(),
        final(plan)@.fits(final(state)@),
        final(state)@.nodes.len() == old(state)@.nodes.len(),
        final(state)@.edges == old(state)@.edges,
        final(plan)@.ready == old(plan)@.ready,
        final(plan)@.delayed == old(plan)@.delayed,
        !old(state)@.restat(edge.0 as int) ==> final(plan)@ == old(plan)@ && final(state)@ == old(
            state)@,
        orderly(old(plan)@, old(state)@) && !old(state)@.edges[edge.0 as int].outputs_ready
            ==> orderly(final(plan)@, final(state)@),
        match (r, edge_restated::<D>(
            sources_of(disk.model(), logs@),
            scanned(old(plan)@, old(state)@, *old(notes)),
            edge,
            dry_run,
        )) {
            (Ok(t), Ok(w)) => (scanned(final(plan)@, final(state)@, *final(notes)), t) == w,
            (Err(e), Err(f)) => e@ == f.error && scanned(final(plan)@, final(state)@, *final(notes))
                == f.at,
            _ => false,
        },
{
    if dry_run {
        return Ok(0);
    }
    let restat: bool = state.edge_restat(edge);
    let generator: bool = state.edge_is_generator(edge);
    let start: i64 = state.edge(edge).command_start_time;
    if start == 0 || restat || generator {
        let outputs: Vec<NodeId> = vstd::slice::slice_to_vec(state.edge(edge).outputs());
        proof {
            state.lemma_wf();
            assert(state@.edge_ok(state@.edges[edge.0 as int]));
            assert(state@.outputs_linked(edge.0 as int));
        }
        match restat_outputs(plan, state, notes, disk, logs, outputs.as_slice(), restat, start) {
            Err(e) => Err(e),
            Ok((newest, unchanged)) => Ok(
                if unchanged {
                    start
                } else {
                    newest
                },
            ),
        }
    } else {
        Ok(start)
    }
}

/// The logs after a command has been recorded.
pub open spec fn command_logged(
    logs: LogsView,
    s: StateView,
    edge: EdgeId,
    start: i64,
    end: i64,
    mtime: i64,
) -> LogsView {
    let outputs = s.edges[edge.0 as int].outputs;
    let hash = rapidhash_of(encode_utf8(s.hashed_command(edge.0 as int)));
    let entry = ran(
        hash,
        #[verifier::truncate]
        (start as i32),
        #[verifier::truncate]
        (end as i32),
        mtime,
    );
    match logs.build {
        None => logs,
        Some(entries) => LogsView {
            build: Some(with_recorded(entries, s, outputs, entry)),
            lines: logs.lines + recorded_lines(s, outputs, entry),
            ..logs
        },
    }
}

/// What is left of recording dependencies.
#[verifier::ext_equal]
pub struct DepsLogged {
    /// What went wrong.
    pub error: Option<ErrorView>,
    pub state: StateView,
    pub logs: LogsView,
}

/// What recording the dependencies of the outputs from the `k`-th on comes to.
pub open spec fn deps_logged<D: DiskInterface>(
    m: D::Model,
    s: StateView,
    logs: LogsView,
    outputs: Seq<NodeId>,
    nodes: Seq<NodeId>,
    k: int,
) -> DepsLogged
    decreases outputs.len() - k,
{
    if 0 <= k < outputs.len() {
        match D::mtime_of(m, path_of(s, outputs[k])) {
            Err(f) => DepsLogged { error: Some(f), state: s, logs },
            Ok(mtime) => match logs.deps {
                None => deps_logged::<D>(m, s, logs, outputs, nodes, k + 1),
                Some(log) => {
                    let x = deps_recorded(log, s, outputs[k], DepsView { mtime, nodes });
                    let logged = LogsView {
                        deps: Some(x.log),
                        bytes: logs.bytes + x.bytes,
                        ..logs
                    };
                    match x.error {
                        Some(f) => DepsLogged {
                            error: Some(ErrorView::Build(f)),
                            state: x.state,
                            logs: logged,
                        },
                        None => deps_logged::<D>(m, x.state, logged, outputs, nodes, k + 1),
                    }
                },
            },
        }
    } else {
        DepsLogged { error: None, state: s, logs }
    }
}

fn log_command(logs: &mut Logs, state: &State, edge: EdgeId, start: i64, end: i64, mtime: i64)
    requires
        state.wf(),
        edge.0 < state@.edges.len(),
    ensures
        final(logs)@ == command_logged(old(logs)@, state@, edge, start, end, mtime),
{
    if let Some(log) = &mut logs.build_log {
        let lines = log.record_command(
            state,
            edge,
            #[verifier::truncate]
            (start as i32),
            #[verifier::truncate]
            (end as i32),
            mtime,
        );
        logs.lines.append(lines.as_str());
    }
}

fn log_deps<D: DiskInterface>(
    logs: &mut Logs,
    state: &mut State,
    disk: &D,
    outputs: &[NodeId],
    nodes: &[NodeId],
) -> (r: Result<(), Error>)
    requires
        old(state).wf(),
        old(logs)@.fits(old(state)@.nodes.len()),
        nodes_below(outputs@, old(state)@.nodes.len()),
        nodes_below(nodes@, old(state)@.nodes.len()),
    ensures
        final(state).wf(),
        final(state)@.nodes.len() == old(state)@.nodes.len(),
        final(state)@.edges == old(state)@.edges,
        final(state)@.pools == old(state)@.pools,
        final(logs)@.fits(final(state)@.nodes.len()),
        ({
            let w = deps_logged::<D>(disk.model(), old(state)@, old(logs)@, outputs@, nodes@, 0);
            &&& final(state)@ == w.state
            &&& final(logs)@ == w.logs
            &&& match (r, w.error) {
                (Ok(_), None) => true,
                (Err(e), Some(f)) => e@ == f,
                _ => false,
            }
        }),
{
    let ghost m = disk.model();
    let ghost s0 = state@;
    let ghost l0 = logs@;
    let mut k: usize = 0;
    while k < outputs.len()
        invariant
            k <= outputs@.len(),
            m == disk.model(),
            s0 == old(state)@,
            l0 == old(logs)@,
            state.wf(),
            state@.nodes.len() == s0.nodes.len(),
            state@.edges == s0.edges,
            state@.pools == s0.pools,
            logs@.fits(s0.nodes.len()),
            nodes_below(outputs@, s0.nodes.len()),
            nodes_below(nodes@, s0.nodes.len()),
            deps_logged::<D>(m, state@, logs@, outputs@, nodes@, k as int) == deps_logged::<D>(
                m,
                s0,
                l0,
                outputs@,
                nodes@,
                0,
            ),
        decreases outputs@.len() - k,
    {
        let output = outputs[k];
        let mtime: i64 = match disk.stat(state.node(output).path()) {
            Err(e) => {
                return Err(e);
            },
            Ok(t) => t,
        };
        if let Some(log) = &mut logs.deps_log {
            proof {
                lemma_recorded_edges(log@, state@, output, DepsView { mtime, nodes: nodes@ });
            }
            let recorded = log.record_deps(state, output, mtime, nodes, &mut logs.bytes);
            match recorded {
                Err(e) => {
                    return Err(e);
                },
                Ok(_) => {},
            }
        }
        k += 1;
    }
    Ok(())
}

/// What is left of a command.
#[verifier::ext_equal]
pub struct Finished<M> {
    /// The plan and the graph, or what went wrong, and both as they are then.
    pub work: Result<Scanned, Cut<Scanned>>,
    pub disk: M,
    pub logs: LogsView,
}

/// What a command that succeeded comes to, where `nodes` are the dependencies
/// that were extracted, if that was asked for. What has been removed and
/// recorded stays so when something goes wrong behind it.
pub open spec fn success_settled<D: DiskInterface>(
    m: D::Model,
    logs: LogsView,
    w: Scanned,
    edge: EdgeId,
    nodes: Option<Seq<NodeId>>,
    start: i64,
    end: i64,
    config: BuildConfig,
) -> Finished<D::Model> {
    let e = edge.0 as int;
    match edge_restated::<D>(sources_of(m, logs), w, edge, config.dry_run) {
        Err(f) => Finished { work: Err(f), disk: m, logs },
        Ok((x, mtime)) => if x.plan.wants(edge) is None {
            Finished { work: cut(not_planned(), x), disk: m, logs }
        } else {
            let y = edge_ended(
                work(x.plan, x.state, Seq::empty()),
                edge,
                EdgeResult::Succeeded,
                planned(x.plan.want),
            );
            let rspfile = y.state.binding(e, "rspfile"@, Escape::Plain);
            let gone = if rspfile.len() > 0 && !config.keep_rsp {
                D::removed(m, rspfile)
            } else {
                (Ok(false), m)
            };
            let logged = command_logged(logs, y.state, edge, start, end, mtime);
            let recorded = if nodes is Some && !config.dry_run {
                deps_logged::<D>(
                    gone.1,
                    y.state,
                    logged,
                    y.state.edges[e].outputs,
                    nodes->0,
                    0,
                )
            } else {
                DepsLogged { error: None, state: y.state, logs: logged }
            };
            if gone.0 is Err {
                Finished {
                    work: cut(
                        gone.0->Err_0,
                        Scanned { plan: y.plan, state: y.state, notes: x.notes },
                    ),
                    disk: gone.1,
                    logs,
                }
            } else if recorded.error is Some {
                Finished {
                    work: cut(
                        recorded.error->0,
                        Scanned { plan: y.plan, state: recorded.state, notes: x.notes },
                    ),
                    disk: gone.1,
                    logs: recorded.logs,
                }
            } else {
                Finished {
                    work: dyndeps_read::<D>(
                        sources_of(gone.1, recorded.logs),
                        Scanned { plan: y.plan, state: recorded.state, notes: x.notes },
                        y.pending,
                        0,
                    ),
                    disk: gone.1,
                    logs: recorded.logs,
                }
            }
        },
    }
}

/// How a command ended, once it is known whether its dependencies could be
/// extracted: failing to is a failure of the command.
pub open spec fn final_status<M>(status: ExitStatus, c: Collected<M>) -> ExitStatus {
    if c.nodes is Err && status.success() {
        ExitStatus(1)
    } else {
        status
    }
}

/// The output of a command, with the complaint about its dependencies.
pub open spec fn final_output<M>(status: ExitStatus, c: Collected<M>) -> Seq<char> {
    if c.nodes is Err && status.success() {
        (if c.output.len() > 0 {
            c.output.push('\n')
        } else {
            c.output
        }) + error_text(c.nodes->Err_0)
    } else {
        c.output
    }
}

/// What a command that has ended comes to.
pub open spec fn command_settled<D: DiskInterface>(
    m: D::Model,
    logs: LogsView,
    w: Scanned,
    edge: EdgeId,
    status: ExitStatus,
    output: Seq<char>,
    start: i64,
    end: i64,
    config: BuildConfig,
) -> Finished<D::Model> {
    let c = deps_collected::<D>(m, w.state, edge, output, config.keep_depfile);
    let x = Scanned { state: c.state, ..w };
    if final_status(status, c).success() {
        let asked = w.state.binding(edge.0 as int, "deps"@, Escape::Shell).len() > 0;
        let nodes = if asked {
            Some(c.nodes->Ok_0)
        } else {
            None
        };
        success_settled::<D>(c.disk, logs, x, edge, nodes, start, end, config)
    } else {
        Finished {
            work: edge_settled::<D>(sources_of(c.disk, logs), x, edge, EdgeResult::Failed),
            disk: c.disk,
            logs,
        }
    }
}

#[verifier::rlimit(40)]
fn settle_success<D: DiskInterface>(
    plan: &mut Plan,
    state: &mut State,
    notes: &mut Option<Explanations>,
    disk: &mut D,
    logs: &mut Logs,
    edge: EdgeId,
    nodes: Option<Vec<NodeId>>,
    start: i64,
    end: i64,
    config: BuildConfig,
) -> (r: Result<(), Error>)
    requires
        old(state).wf(),
        old(plan)@.fits(old(state)@),
        at_rest(old(state)@),
        old(logs)@.fits(old(state)@.nodes.len()),
        edge.0 < old(state)@.edges.len(),
        nodes matches Some(n) ==> nodes_below(n@, old(state)@.nodes.len()),
    ensures
        final(state).wf(),
        old(state)@.nodes.len() <= final(state)@.nodes.len(),
        r is Ok ==> final(plan)@.fits(final(state)@) && at_rest(final(state)@)
            && final(logs)@.fits(final(state)@.nodes.len()),
        r is Ok && may_settle(
            old(plan)@,
            old(state)@,
            edge,
            old(state)@.restat(edge.0 as int),
        ) ==> queued_once(
            final(plan)@,
            final(state)@,
        ),
        ({
            let w = success_settled::<D>(
                old(disk).model(),
                old(logs)@,
                scanned(old(plan)@, old(state)@, *old(notes)),
                edge,
                (match nodes {
                    Some(n) => Some(n@),
                    None => None,
                }),
                start,
                end,
                config,
            );
            &&& final(disk).model() == w.disk
            &&& final(logs)@ == w.logs
            &&& match (r, w.work) {
                (Ok(_), Ok(x)) => scanned(final(plan)@, final(state)@, *final(notes)) == x,
                (Err(e), Err(f)) => e@ == f.error && scanned(final(plan)@, final(state)@, *final(notes))
                == f.at,
                _ => false,
            }
        }),
{
    let ghost s0 = state@;
    let mtime: i64 = match restat_edge(plan, state, notes, disk, logs, edge, config.dry_run) {
        Err(e) => {
            return Err(e);
        },
        Ok(t) => t,
    };
    let ghost s1 = state@;
    assert(at_rest(s1));
    let pending = match plan.edge_finished(state, edge, EdgeResult::Succeeded) {
        Err(e) => {
            return Err(e);
        },
        Ok(pending) => pending,
    };
    proof {
        lemma_rest_kept(s1, state@);
    }

    // Delete the response file, if any.
    let rspfile = state.edge_rspfile(edge);
    if !rspfile.as_str().is_empty() && !config.keep_rsp {
        match disk.remove_file(rspfile.as_str()) {
            Err(e) => {
                return Err(e);
            },
            Ok(_) => {},
        }
    }
    log_command(logs, state, edge, start, end, mtime);
    let ghost s2 = state@;
    if !config.dry_run {
        if let Some(n) = &nodes {
            let outputs: Vec<NodeId> = vstd::slice::slice_to_vec(state.edge(edge).outputs());
            proof {
                state.lemma_wf();
                assert(state@.edge_ok(state@.edges[edge.0 as int]));
            }
            match log_deps(logs, state, disk, outputs.as_slice(), n.as_slice()) {
                Err(e) => {
                    return Err(e);
                },
                Ok(_) => {},
            }
        }
    }
    assert(at_rest(state@));
    assert(plan@.fits(state@));
    proof {
        if queued_once(plan@, s2) {
            lemma_queue_kept(plan@, s2, state@);
        }
    }

    // Load any dyndep information that just became available.
    let ghost n1 = state@.nodes.len();
    let read = read_dyndeps(plan, state, notes, disk, logs, pending.as_slice());
    proof {
        lemma_logs_fit_more(logs@, n1, state@.nodes.len());
    }
    read
}

impl BuilderView {
    /// When the command of `edge` was started.
    pub open spec fn started(self, edge: EdgeId) -> i64 {
        let i = edge.0 as int;
        if i < self.running.len() && self.running[i] is Some {
            self.running[i]->0
        } else {
            0
        }
    }

    /// The builder after the command of `edge` has been taken note of.
    pub open spec fn edge_noted(self, edge: EdgeId, plan: PlanView, notes: Option<crate::graph::Notes>) -> BuilderView {
        BuilderView {
            plan,
            notes,
            running: if edge.0 < self.running.len() {
                self.running.update(edge.0 as int, None)
            } else {
                self.running
            },
            edges_finished: self.edges_finished.wrapping_add(1),
            ..self
        }
    }
}

fn take_slot(v: &mut Vec<Option<i64>>, edge: EdgeId) -> (r: i64)
    ensures
        r == (if edge.0 < old(v)@.len() && old(v)@[edge.0 as int] is Some {
            old(v)@[edge.0 as int]->0
        } else {
            0
        }),
        final(v)@ == (if edge.0 < old(v)@.len() {
            old(v)@.update(edge.0 as int, None)
        } else {
            old(v)@
        }),
{
    if edge.0 < v.len() {
        let start: i64 = match v[edge.0] {
            Some(t) => t,
            None => 0,
        };
        v.set(edge.0, None);
        start
    } else {
        0
    }
}

/// What is known once a command has ended.
#[derive(Debug)]
pub struct Ended {
    /// What there is to tell of it.
    pub events: Vec<StatusEvent>,
    /// The dependencies that it reported, if it was asked for any.
    pub nodes: Option<Vec<NodeId>>,
    /// When it was started.
    pub start: i64,
    /// When it ended.
    pub end: i64,
}

impl Builder {
    /// Take note that a command has ended, and say what there is to tell of it.
    ///
    /// Dependencies are extracted first: that filters the output (we want to
    /// strip `/showIncludes` noise even from a failing compile) and can itself
    /// fail, which makes the edge fail.
    pub fn note_end<D: DiskInterface>(
        &mut self,
        state: &mut State,
        disk: &mut D,
        result: &mut CommandResult,
        now_millis: i64,
    ) -> (r: Ended)
        requires
            old(state).wf(),
            old(result).edge.0 < old(state)@.edges.len(),
        ensures
            final(state).wf(),
            only_grown(old(state)@, final(state)@),
            ({
                let edge = old(result).edge;
                let asked = old(state)@.binding(edge.0 as int, "deps"@, Escape::Shell).len() > 0;
                let c = deps_collected::<D>(
                    old(disk).model(),
                    old(state)@,
                    edge,
                    old(result).output@,
                    old(self)@.config.keep_depfile,
                );
                &&& final(state)@ == c.state
                &&& final(disk).model() == c.disk
                &&& final(result).edge == edge
                &&& final(result).status == final_status(old(result).status, c)
                &&& final(result).output@ == final_output(old(result).status, c)
                &&& final(self)@ == old(self)@.edge_noted(edge, old(self)@.plan, old(self)@.notes)
                &&& r.start == old(self)@.started(edge)
                &&& r.end == now_millis.wrapping_sub(old(self)@.start_time)
                &&& match r.nodes {
                    Some(v) => asked && c.nodes == Ok::<Seq<NodeId>, ErrorView>(v@) && nodes_below(
                        v@,
                        final(state)@.nodes.len(),
                    ),
                    None => !asked || c.nodes is Err,
                }
                &&& event_views(r.events@) == with_explanations(
                    edge_notes(old(self)@.notes, c.state, edge),
                    EventView::EdgeFinished {
                        edge,
                        start: r.start,
                        end: r.end,
                        status: final(result).status,
                        output: final(result).output@,
                    },
                )
            }),
    {
        let edge = result.edge;
        let asked: bool = state.edge_binding_bool(edge, "deps");
        let keep: bool = self.config.keep_depfile;
        let collected = collect_deps(state, disk, edge, &mut result.output, keep);
        let mut nodes: Option<Vec<NodeId>> = None;
        match collected {
            Ok(v) => {
                if asked {
                    nodes = Some(v);
                }
            },
            Err(e) => {
                if result.status.success() {
                    if !result.output.as_str().is_empty() {
                        result.output.push('\n');
                    }
                    result.output.append(e.message().as_str());
                    result.status = ExitStatus::failure();
                }
            },
        }
        let start: i64 = take_slot(&mut self.running, edge);
        let end: i64 = now_millis.wrapping_sub(self.start_time_millis);
        self.edges_finished = self.edges_finished.wrapping_add(1);
        let lines = self.explanation_lines(state, edge);
        let events = explained(
            lines,
            StatusEvent::EdgeFinished {
                edge,
                start_time_millis: start,
                end_time_millis: end,
                status: result.status,
                output: result.output.clone(),
            },
        );
        Ended { events, nodes, start, end }
    }

    /// Record the outcome of one command. The status is told what
    /// [`Builder::note_end`] says, whatever becomes of the rest.
    #[verifier::rlimit(40)]
    pub fn finish_command<D: DiskInterface, S: Status>(
        &mut self,
        state: &mut State,
        disk: &mut D,
        logs: &mut Logs,
        status: &mut S,
        result: &mut CommandResult,
        now_millis: i64,
    ) -> (r: Result<(), Error>)
        requires
            old(state).wf(),
            old(self)@.plan.fits(old(state)@),
            at_rest(old(state)@),
            old(logs)@.fits(old(state)@.nodes.len()),
            old(result).edge.0 < old(state)@.edges.len(),
        ensures
            final(state).wf(),
            old(state)@.nodes.len() <= final(state)@.nodes.len(),
            r is Ok ==> final(self)@.plan.fits(final(state)@) && at_rest(final(state)@)
                && final(logs)@.fits(final(state)@.nodes.len()),
            ({
                let c = deps_collected::<D>(
                    old(disk).model(),
                    old(state)@,
                    old(result).edge,
                    old(result).output@,
                    old(self)@.config.keep_depfile,
                );
                &&& r is Ok && may_settle(
                    old(self)@.plan,
                    old(state)@,
                    old(result).edge,
                    c.state.restat(old(result).edge.0 as int),
                ) ==> queued_once(final(self)@.plan, final(state)@)
                &&& final(result).edge == old(result).edge
                &&& final(result).status == final_status(old(result).status, c)
                &&& final(result).output@ == final_output(old(result).status, c)
                &&& final(status).model() == all_heard::<S>(
                    old(status).model(),
                    c.state,
                    with_explanations(
                        edge_notes(old(self)@.notes, c.state, old(result).edge),
                        EventView::EdgeFinished {
                            edge: old(result).edge,
                            start: old(self)@.started(old(result).edge),
                            end: now_millis.wrapping_sub(old(self)@.start_time),
                            status: final(result).status,
                            output: final(result).output@,
                        },
                    ),
                    0,
                )
            }),
            final(self)@ == old(self)@.edge_noted(
                old(result).edge,
                final(self)@.plan,
                final(self)@.notes,
            ),
            ({
                let w = command_settled::<D>(
                    old(disk).model(),
                    old(logs)@,
                    old(self)@.scanned(old(state)@),
                    old(result).edge,
                    old(result).status,
                    old(result).output@,
                    old(self)@.started(old(result).edge),
                    now_millis.wrapping_sub(old(self)@.start_time),
                    old(self)@.config,
                );
                &&& final(disk).model() == w.disk
                &&& final(logs)@ == w.logs
                &&& match (r, w.work) {
                    (Ok(_), Ok(x)) => final(self)@.scanned(final(state)@) == x,
                    (Err(e), Err(f)) => e@ == f.error && final(self)@.scanned(final(state)@) == f.at,
                    _ => false,
                }
            }),
    {
        let ghost b0 = self@;
        let ghost s0 = state@;
        proof {
            state.lemma_wf();
        }
        let edge = result.edge;
        let ended = self.note_end(state, disk, result, now_millis);
        proof {
            lemma_explained_fits(
                ended.events@,
                edge_notes(b0.notes, state@, edge),
                EventView::EdgeFinished {
                    edge,
                    start: ended.start,
                    end: ended.end,
                    status: result.status,
                    output: result.output@,
                },
                state@,
            );
        }
        tell(status, state, ended.events.as_slice());
        proof {
            lemma_logs_fit_more(logs@, s0.nodes.len(), state@.nodes.len());
            assert(at_rest(state@));
            assert(self@.plan.fits(state@));
            let restat = state@.restat(edge.0 as int);
            if may_settle(b0.plan, s0, edge, restat) {
                lemma_settles_later(b0.plan, s0, state@, edge, restat);
            }
            assert(scanned(self.plan@, state@, self.explanations) == (Scanned {
                state: state@,
                ..b0.scanned(s0)
            }));
        }
        if !result.status.success() {
            let ghost n1 = state@.nodes.len();
            let settled = settle_edge(
                &mut self.plan,
                state,
                &mut self.explanations,
                disk,
                logs,
                edge,
                EdgeResult::Failed,
            );
            proof {
                lemma_logs_fit_more(logs@, n1, state@.nodes.len());
            }
            return settled;
        }
        let config = self.config;
        settle_success(
            &mut self.plan,
            state,
            &mut self.explanations,
            disk,
            logs,
            edge,
            ended.nodes,
            ended.start,
            ended.end,
            config,
        )
    }
}

proof fn lemma_recorded_entries(
    entries: crate::build_log::Entries,
    s: StateView,
    outputs: Seq<NodeId>,
    e: crate::build_log::EntryView,
    k: int,
)
    requires
        0 <= k < outputs.len(),
    ensures
        with_recorded(entries, s, outputs, e).contains_key(s.nodes[outputs[k].0 as int].path),
        with_recorded(entries, s, outputs, e)[s.nodes[outputs[k].0 as int].path] == e,
    decreases outputs.len(),
{
    if k < outputs.len() - 1 {
        lemma_recorded_entries(entries, s, outputs.drop_last(), e, k);
        assert(outputs.drop_last()[k] == outputs[k]);
    }
}

/// What has been built is not built again: once a command has been recorded,
/// a later scan of the graph finds its outputs clean, as long as they exist and
/// no input is newer than what was recorded or, unless the command may leave
/// its outputs alone, than an output.
pub proof fn law_recorded_commands_are_not_run_again(
    logs: LogsView,
    s: StateView,
    edge: EdgeId,
    start: i64,
    end: i64,
    mtime: i64,
    p: Progress,
    newest: Option<NodeId>,
)
    requires
        logs.build is Some,
        s.wf(),
        edge.0 < s.edges.len(),
        s.edges[edge.0 as int].rule != phony_rule(),
        says_same(s, p.state, edge.0 as int),
        p.state.edges[edge.0 as int].outputs == s.edges[edge.0 as int].outputs,
        forall|k: int|
            0 <= k < s.edges[edge.0 as int].outputs.len() ==> p.state.nodes[(
            #[trigger] s.edges[edge.0 as int].outputs[k]).0 as int].exists == Existence::Exists,
        newest matches Some(m) ==> p.state.nodes[m.0 as int].mtime <= mtime,
        newest matches Some(m) ==> p.state.restat(edge.0 as int) || (forall|k: int|
            0 <= k < s.edges[edge.0 as int].outputs.len() ==> p.state.nodes[m.0 as int].mtime
                <= p.state.nodes[(#[trigger] s.edges[edge.0 as int].outputs[k]).0 as int].mtime),
    ensures
        edge_checked(command_logged(logs, s, edge, start, end, mtime).build, p, edge, newest) == (
            p,
            false,
        ),
{
    let e = edge.0 as int;
    let outputs = s.edges[e].outputs;
    let command = s.hashed_command(e);
    let entry = ran(
        rapidhash_of(encode_utf8(command)),
        #[verifier::truncate]
        (start as i32),
        #[verifier::truncate]
        (end as i32),
        mtime,
    );
    let log = with_recorded(logs.build->0, s, outputs, entry);
    assert(s.edge_ok(s.edges[e]));
    law_bindings_are_fixed(s, p.state, e, "command"@, Escape::Shell);
    assert forall|k: int| 0 <= k < outputs.len() implies is_up_to_date(
        log,
        p,
        edge,
        newest,
        command,
        #[trigger] outputs[k],
    ) by {
        lemma_recorded_entries(logs.build->0, s, outputs, entry, k);
        assert(p.state.nodes[outputs[k].0 as int].path == s.nodes[outputs[k].0 as int].path);
    }
    law_up_to_date_outputs_are_clean(log, p, edge, newest, command, outputs, 0);
}

proof fn lemma_includes_named(s: StateView, paths: Seq<Seq<char>>, k: int, acc: Seq<NodeId>)
    requires
        0 <= k <= paths.len(),
        nodes_below(acc, s.nodes.len()),
        s.nodes.len() + (paths.len() - k) <= usize::MAX,
    ensures
        ({
            let (t, v) = includes_interned(s, paths, k, acc);
            &&& s.nodes.len() <= t.nodes.len()
            &&& forall|n: int| 0 <= n < s.nodes.len() ==> #[trigger] t.nodes[n] == s.nodes[n]
            &&& v.len() == acc.len() + (paths.len() - k)
            &&& v.take(acc.len() as int) == acc
            &&& forall|j: int|
                k <= j < paths.len() ==> t.nodes[v[acc.len() + (j - k)].0 as int].path
                    == #[trigger] paths[j]
        }),
    decreases paths.len() - k,
{
    if k < paths.len() {
        let path = paths[k];
        crate::state::lemma_node_index(s.nodes, path, 0);
        let u = s.interned(path, u64::MAX);
        let id = s.id_of(path);
        let more = acc.push(id);
        assert(u.nodes[id.0 as int].path == path);
        assert(nodes_below(more, u.nodes.len()));
        lemma_includes_named(u, paths, k + 1, more);
        let (t, v) = includes_interned(s, paths, k, acc);
        assert(v.take(acc.len() as int) =~= acc) by {
            assert(v.take(more.len() as int) == more);
            assert forall|i: int| 0 <= i < acc.len() implies v[i] == acc[i] by {
                assert(v.take(more.len() as int)[i] == more[i]);
            }
        }
        assert(v[acc.len() as int] == id) by {
            assert(v.take(more.len() as int)[acc.len() as int] == more[acc.len() as int]);
        }
        assert forall|n: int| 0 <= n < s.nodes.len() implies #[trigger] t.nodes[n] == s.nodes[n] by {
            assert(u.nodes[n] == s.nodes[n]);
        }
        assert(t.nodes[id.0 as int] == u.nodes[id.0 as int]);
    } else {
        assert(acc.take(acc.len() as int) =~= acc);
    }
}

/// The dependencies that a command reports are collected: those in its depfile, in
/// order, which is removed then unless it is to be kept; or those that it notes in
/// its output, in ascending order. No other file is touched, and the output of a
/// command that does not note its dependencies stays what it is.
pub proof fn law_reported_dependencies_are_collected<D: DiskInterface>(
    ok: spec_fn(D::Model) -> bool,
    m: D::Model,
    s: StateView,
    edge: EdgeId,
    output: Seq<char>,
    keep: bool,
)
    requires
        crate::disk::is_filesystem::<D>(ok),
        ok(m),
    ensures
        ({
            let e = edge.0 as int;
            let deps = s.binding(e, "deps"@, Escape::Shell);
            let depfile = s.binding(e, "depfile"@, Escape::Plain);
            let prefix = s.binding(e, "msvc_deps_prefix"@, Escape::Shell);
            let c = deps_collected::<D>(m, s, edge, output, keep);
            &&& deps != "msvc"@ ==> c.output == output
            &&& forall|q: Seq<char>|
                q != depfile ==> #[trigger] D::content_of(c.disk, q) == D::content_of(m, q)
            &&& keep || deps != "gcc"@ ==> c.disk == m
            &&& deps == "gcc"@ && c.nodes is Ok ==> ({
                let content = D::content_of(m, depfile);
                &&& depfile.len() > 0
                &&& content is Ok
                &&& match content->Ok_0 {
                    None => c.nodes->Ok_0.len() == 0,
                    Some(b) => if b.len() == 0 {
                        c.nodes->Ok_0.len() == 0
                    } else {
                        &&& depfile_of(b) is Ok
                        &&& !keep ==> crate::disk::gone::<D>(c.disk, depfile)
                        &&& s.nodes.len() + depfile_of(b)->Ok_0.1.len() <= usize::MAX ==> {
                            let ins = depfile_of(b)->Ok_0.1;
                            &&& c.nodes->Ok_0.len() == ins.len()
                            &&& forall|j: int|
                                0 <= j < ins.len() ==> c.state.nodes[c.nodes->Ok_0[j].0 as int].path
                                    == crate::canon::canonical(#[trigger] ins[j])
                        }
                    },
                }
            })
            &&& deps == "msvc"@ ==> ({
                let f = filtered(output, prefix);
                &&& c.nodes is Ok
                &&& c.output == f.output
                &&& f.includes.finite() && s.nodes.len() + f.includes.len() <= usize::MAX ==> {
                    let v = c.nodes->Ok_0;
                    &&& lists(
                        Seq::new(v.len(), |j: int| c.state.nodes[v[j].0 as int].path),
                        f.includes,
                    )
                }
            })
        }),
{
    let e = edge.0 as int;
    let deps = s.binding(e, "deps"@, Escape::Shell);
    let depfile = s.binding(e, "depfile"@, Escape::Plain);
    let prefix = s.binding(e, "msvc_deps_prefix"@, Escape::Shell);
    let c = deps_collected::<D>(m, s, edge, output, keep);
    reveal_strlit("gcc");
    reveal_strlit("msvc");
    assert("gcc"@.len() == 3 && "msvc"@.len() == 4);
    let gone = D::removed(m, depfile);
    assert(crate::disk::same_elsewhere::<D>(m, gone.1, depfile));
    if deps == "gcc"@ && c.nodes is Ok {
        let content = D::content_of(m, depfile);
        if let Some(b) = content->Ok_0 {
            if b.len() > 0 {
                let ins = depfile_of(b)->Ok_0.1;
                if s.nodes.len() + ins.len() <= usize::MAX {
                    crate::scan::lemma_deps_named(s, ins, 0, Seq::empty());
                    let v = c.nodes->Ok_0;
                    assert forall|j: int| 0 <= j < ins.len() implies c.state.nodes[v[j].0 as int].path
                        == crate::canon::canonical(#[trigger] ins[j]) by {
                        assert(v[0 + (j - 0)] == v[j]);
                    }
                }
            }
        }
    }
    if deps == "msvc"@ {
        let f = filtered(output, prefix);
        if f.includes.finite() && s.nodes.len() + f.includes.len() <= usize::MAX {
            let paths = in_ascending_order(f.includes);
            crate::text::lemma_in_ascending_order(f.includes);
            crate::text::lemma_lists_len(paths, f.includes);
            lemma_includes_named(s, paths, 0, Seq::empty());
            let v = c.nodes->Ok_0;
            assert(Seq::new(v.len(), |j: int| c.state.nodes[v[j].0 as int].path) =~= paths) by {
                assert forall|j: int| 0 <= j < paths.len() implies c.state.nodes[v[j].0 as int].path
                    == #[trigger] paths[j] by {
                    assert(v[0 + (j - 0)] == v[j]);
                }
            }
        }
    }
}

proof fn lemma_deps_logged<D: DiskInterface>(
    m: D::Model,
    s: StateView,
    logs: LogsView,
    outputs: Seq<NodeId>,
    nodes: Seq<NodeId>,
    k: int,
)
    requires
        s.wf(),
        logs.deps is Some,
        crate::deps_log::ids_agree(logs.deps->0.nodes, s),
        logs.deps->0.deps.len() <= logs.deps->0.nodes.len(),
        nodes_below(outputs, s.nodes.len()),
        nodes_below(nodes, s.nodes.len()),
        outputs.no_duplicates(),
        0 <= k,
        deps_logged::<D>(m, s, logs, outputs, nodes, k).error is None,
        s.nodes.len() <= i32::MAX,
    ensures
        ({
            let w = deps_logged::<D>(m, s, logs, outputs, nodes, k);
            &&& w.logs.deps is Some
            &&& w.state.nodes.len() == s.nodes.len()
            &&& forall|j: int|
                k <= j < outputs.len() ==> is_logged::<D>(m, s, w, nodes, #[trigger] outputs[j])
            &&& forall|n: NodeId|
                n.0 < s.nodes.len() && (forall|j: int| k <= j < outputs.len() ==> outputs[j] != n)
                    ==> #[trigger] w.logs.deps->0.deps_of(w.state, n) == logs.deps->0.deps_of(s, n)
            &&& w.logs.build == logs.build
        }),
    decreases outputs.len() - k,
{
    if k < outputs.len() {
        let o = outputs[k];
        let log = logs.deps->0;
        let mtime = D::mtime_of(m, path_of(s, o))->Ok_0;
        let d = DepsView { mtime, nodes };
        let x = deps_recorded(log, s, o, d);
        let logged = LogsView { deps: Some(x.log), bytes: logs.bytes + x.bytes, ..logs };
        crate::deps_log::lemma_ids_are_few(log, s, o, d);
        crate::deps_log::lemma_recorded(log, s, o, d);
        crate::deps_log::law_recorded_deps_are_known(log, s, o, d);
        lemma_deps_logged::<D>(m, x.state, logged, outputs, nodes, k + 1);
        let w = deps_logged::<D>(m, s, logs, outputs, nodes, k);
        assert forall|j: int| k + 1 <= j < outputs.len() implies outputs[j] != o by {}
        assert(is_logged::<D>(m, s, w, nodes, o)) by {
            assert(w.logs.deps->0.deps_of(w.state, o) == x.log.deps_of(x.state, o));
        }
        assert forall|j: int| k <= j < outputs.len() implies is_logged::<D>(
            m,
            s,
            w,
            nodes,
            #[trigger] outputs[j],
        ) by {
            if j > k {
                assert(is_logged::<D>(m, x.state, w, nodes, outputs[j]));
                assert(x.state.nodes[outputs[j].0 as int].path
                    == s.nodes[outputs[j].0 as int].path);
            }
        }
        assert forall|n: NodeId|
            n.0 < s.nodes.len() && (forall|j: int|
                k <= j < outputs.len() ==> outputs[j] != n) implies #[trigger] w.logs.deps->0.deps_of(
            w.state,
            n,
        ) == logs.deps->0.deps_of(s, n) by {
            assert(n != outputs[k]);
            crate::deps_log::law_recording_keeps_other_deps(log, s, o, d, n);
        }
    }
}

/// Whether the log knows, of what a command made, when it was made and from what.
pub open spec fn is_logged<D: DiskInterface>(
    m: D::Model,
    s: StateView,
    w: DepsLogged,
    nodes: Seq<NodeId>,
    output: NodeId,
) -> bool {
    &&& D::mtime_of(m, s.nodes[output.0 as int].path) is Ok
    &&& w.logs.deps->0.deps_of(w.state, output) == Some(
        DepsView { mtime: D::mtime_of(m, s.nodes[output.0 as int].path)->Ok_0, nodes },
    )
}

/// The dependencies of a command that succeeded are recorded of all its outputs,
/// with the times that these have now, and those of nothing else are changed.
pub proof fn law_dependencies_are_recorded<D: DiskInterface>(
    m: D::Model,
    s: StateView,
    logs: LogsView,
    outputs: Seq<NodeId>,
    nodes: Seq<NodeId>,
)
    requires
        s.wf(),
        logs.deps is Some,
        crate::deps_log::ids_agree(logs.deps->0.nodes, s),
        logs.deps->0.deps.len() <= logs.deps->0.nodes.len(),
        nodes_below(outputs, s.nodes.len()),
        nodes_below(nodes, s.nodes.len()),
        outputs.no_duplicates(),
        deps_logged::<D>(m, s, logs, outputs, nodes, 0).error is None,
        s.nodes.len() <= i32::MAX,
    ensures
        ({
            let w = deps_logged::<D>(m, s, logs, outputs, nodes, 0);
            &&& forall|j: int|
                0 <= j < outputs.len() ==> is_logged::<D>(m, s, w, nodes, #[trigger] outputs[j])
            &&& forall|n: NodeId|
                n.0 < s.nodes.len() && !outputs.contains(n) ==> #[trigger] w.logs.deps->0.deps_of(
                    w.state,
                    n,
                ) == logs.deps->0.deps_of(s, n)
        }),
{
    lemma_deps_logged::<D>(m, s, logs, outputs, nodes, 0);
}

} // verus!
