//! Getting an edge ready to run, and clearing up after an interrupted build.

use vstd::prelude::*;
use vstd::string::*;

use crate::build::Builder;
use crate::disk::{make_dirs, DiskInterface};
use crate::error::Error;
use crate::state::{EdgeId, NodeId, State};
use crate::status::{tell, Status, StatusEvent};

verus! {

use crate::build::{with_slot, BuilderView};
use crate::disk::{
    dirs_made, has_directories, has_directory, is_filesystem, is_tree, law_directories_are_made,
    present, same_elsewhere, MemDisk, MemDiskView, Outcome,
};
use crate::error::{error_text, ErrorView};
use crate::eval::phony_rule;
use crate::graph::{notes_about, Notes};
use crate::state::{
    edges_below, law_bindings_are_fixed, nodes_below, path_of, says_same, EdgeView, Escape,
    StateView,
};
use crate::status::{all_heard, event_fits, event_views, EventView};
use crate::text::texts;

/// What creating the directories of the outputs from the `k`-th on comes to,
/// and the time by the clock of the disk, which is told by writing the lock
/// file where it is not known (-1).
pub open spec fn outputs_prepared<D: DiskInterface>(
    m: D::Model,
    s: StateView,
    outputs: Seq<NodeId>,
    lock: Seq<char>,
    now: i64,
    k: int,
) -> (Outcome<i64>, D::Model)
    decreases outputs.len() - k,
{
    if 0 <= k < outputs.len() {
        let made = dirs_made::<D>(m, path_of(s, outputs[k]));
        if made.0 is Err {
            (Err(made.0->Err_0), made.1)
        } else if now == -1 {
            let wrote = D::written(made.1, lock, ""@, false);
            if wrote.0 is Err {
                (Err(wrote.0->Err_0), wrote.1)
            } else {
                let time = match D::mtime_of(wrote.1, lock) {
                    Ok(t) => t,
                    Err(_) => 0,
                };
                outputs_prepared::<D>(wrote.1, s, outputs, lock, time, k + 1)
            }
        } else {
            outputs_prepared::<D>(made.1, s, outputs, lock, now, k + 1)
        }
    } else {
        (Ok(now), m)
    }
}

/// The graph when it is known when the command of `edge` was started.
pub open spec fn started_at(s: StateView, edge: EdgeId, time: i64) -> StateView {
    let e = edge.0 as int;
    s.with_edge(e, EdgeView { command_start_time: time, ..s.edges[e] })
}

/// What is left of getting an edge ready.
#[verifier::ext_equal]
pub struct Prepared<M> {
    /// What went wrong.
    pub error: Option<ErrorView>,
    pub state: StateView,
    pub disk: M,
}

/// What getting the depfile and the response file of `edge` ready comes to.
pub open spec fn files_prepared<D: DiskInterface>(m: D::Model, s: StateView, edge: EdgeId) -> Prepared<
    D::Model,
> {
    let e = edge.0 as int;
    let depfile = s.binding(e, "depfile"@, Escape::Plain);
    let rspfile = s.binding(e, "rspfile"@, Escape::Plain);
    let made = if depfile.len() > 0 {
        dirs_made::<D>(m, depfile)
    } else {
        (Ok(()), m)
    };
    if made.0 is Err {
        Prepared { error: Some(made.0->Err_0), state: s, disk: made.1 }
    } else if rspfile.len() > 0 {
        let content = s.binding(e, "rspfile_content"@, Escape::Shell);
        let wrote = D::written(made.1, rspfile, content, true);
        Prepared {
            error: match wrote.0 {
                Ok(_) => None,
                Err(f) => Some(f),
            },
            state: s,
            disk: wrote.1,
        }
    } else {
        Prepared { error: None, state: s, disk: made.1 }
    }
}

/// What getting `edge` ready to run comes to.
pub open spec fn edge_prepared<D: DiskInterface>(
    m: D::Model,
    s: StateView,
    edge: EdgeId,
    lock: Seq<char>,
    dry_run: bool,
) -> Prepared<D::Model> {
    let outputs = s.edges[edge.0 as int].outputs;
    let now = if dry_run {
        0
    } else {
        -1i64
    };
    let (time, disk) = outputs_prepared::<D>(m, s, outputs, lock, now, 0);
    match time {
        Err(f) => Prepared { error: Some(f), state: s, disk },
        Ok(t) => files_prepared::<D>(disk, started_at(s, edge, t), edge),
    }
}

/// The explanations for the outputs from the `k`-th on.
pub open spec fn notes_for(notes: Notes, outputs: Seq<NodeId>, k: int) -> Seq<Seq<char>>
    decreases outputs.len() - k,
{
    if 0 <= k < outputs.len() {
        notes_about(notes, outputs[k], notes.len() as int) + notes_for(notes, outputs, k + 1)
    } else {
        Seq::empty()
    }
}

/// The explanations for an edge.
pub open spec fn edge_notes(notes: Option<Notes>, s: StateView, edge: EdgeId) -> Seq<Seq<char>> {
    match notes {
        None => Seq::empty(),
        Some(n) => notes_for(n, s.edges[edge.0 as int].outputs, 0),
    }
}

impl BuilderView {
    /// The builder after it has got the command of `edge` ready.
    pub open spec fn edge_started(self, edge: EdgeId, now: i64) -> BuilderView {
        BuilderView {
            running: with_slot(
                self.running,
                edge.0 as int,
                Some(now.wrapping_sub(self.start_time)),
            ),
            edges_started: self.edges_started.wrapping_add(1),
            ..self
        }
    }
}

fn set_slot(v: &mut Vec<Option<i64>>, i: usize, x: Option<i64>)
    requires
        i < usize::MAX,
    ensures
        final(v)@ == with_slot(old(v)@, i as int, x),
{
    let ghost v0 = v@;
    while v.len() <= i
        invariant
            i < usize::MAX,
            v0.len() <= v@.len(),
            v@.len() <= v0.len() || v@.len() <= i + 1,
            forall|k: int| 0 <= k < v0.len() ==> v@[k] == v0[k],
            forall|k: int| v0.len() <= k < v@.len() ==> v@[k] is None,
        decreases i + 1 - v@.len(),
    {
        v.push(None);
    }
    v.set(i, x);
    assert(v@ =~= with_slot(v0, i as int, x));
}

fn prepare_outputs<D: DiskInterface>(
    state: &State,
    disk: &mut D,
    edge: EdgeId,
    lock: &str,
    now: i64,
) -> (r: Result<i64, Error>)
    requires
        state.wf(),
        edge.0 < state@.edges.len(),
    ensures
        ({
            let w = outputs_prepared::<D>(
                old(disk).model(),
                state@,
                state@.edges[edge.0 as int].outputs,
                lock@,
                now,
                0,
            );
            &&& final(disk).model() == w.1
            &&& crate::disk::same_outcome(r, w.0)
        }),
{
    let mut time: i64 = now;
    let outputs = state.edge(edge).outputs();
    let ghost want = outputs_prepared::<D>(old(disk).model(), state@, outputs@, lock@, now, 0);
    proof {
        state.lemma_wf();
        assert(state@.edge_ok(state@.edges[edge.0 as int]));
    }
    let mut k: usize = 0;
    while k < outputs.len()
        invariant
            k <= outputs@.len(),
            nodes_below(outputs@, state@.nodes.len()),
            state.wf(),
            outputs@ == state@.edges[edge.0 as int].outputs,
            want == outputs_prepared::<D>(old(disk).model(), state@, outputs@, lock@, now, 0),
            outputs_prepared::<D>(disk.model(), state@, outputs@, lock@, time, k as int) == want,
        decreases outputs@.len() - k,
    {
        match make_dirs(disk, state.node(outputs[k]).path()) {
            Err(e) => {
                return Err(e);
            },
            Ok(_) => {},
        }
        if time == -1 {
            match disk.write_file(lock, "", false) {
                Err(e) => {
                    return Err(e);
                },
                Ok(_) => {},
            }
            time = match disk.stat(lock) {
                Ok(t) => t,
                Err(_) => 0,
            };
        }
        k += 1;
    }
    Ok(time)
}

fn prepare_files<D: DiskInterface>(state: &State, disk: &mut D, edge: EdgeId) -> (r: Result<
    (),
    Error,
>)
    requires
        state.wf(),
        edge.0 < state@.edges.len(),
    ensures
        ({
            let w = files_prepared::<D>(old(disk).model(), state@, edge);
            &&& final(disk).model() == w.disk
            &&& match (r, w.error) {
                (Ok(_), None) => true,
                (Err(e), Some(f)) => e@ == f,
                _ => false,
            }
        }),
{
    let depfile = state.edge_depfile(edge);
    if !depfile.as_str().is_empty() {
        match make_dirs(disk, depfile.as_str()) {
            Err(e) => {
                return Err(e);
            },
            Ok(_) => {},
        }
    }
    let rspfile = state.edge_rspfile(edge);
    if !rspfile.as_str().is_empty() {
        let content = state.edge_binding(edge, "rspfile_content");
        return disk.write_file(rspfile.as_str(), content.as_str(), true);
    }
    Ok(())
}

/// An event, behind the explanations for its edge, if there are any.
pub open spec fn with_explanations(lines: Seq<Seq<char>>, e: EventView) -> Seq<EventView> {
    if lines.len() > 0 {
        seq![EventView::Explanations(lines), e]
    } else {
        seq![e]
    }
}

pub(crate) fn explained(lines: Vec<String>, event: StatusEvent) -> (r: Vec<StatusEvent>)
    ensures
        event_views(r@) == with_explanations(texts(lines@), event@),
{
    let mut events: Vec<StatusEvent> = Vec::new();
    if lines.len() > 0 {
        events.push(StatusEvent::Explanations(lines));
    }
    events.push(event);
    assert(event_views(events@) =~= with_explanations(texts(lines@), event@));
    events
}

/// An event about an edge of the graph fits together with the explanations
/// before it.
pub proof fn lemma_explained_fits(
    v: Seq<StatusEvent>,
    lines: Seq<Seq<char>>,
    e: EventView,
    s: StateView,
)
    requires
        event_views(v) == with_explanations(lines, e),
        event_fits(e, s),
    ensures
        forall|i: int| 0 <= i < v.len() ==> event_fits(#[trigger] v[i]@, s),
{
    assert(v.len() == event_views(v).len());
    assert forall|i: int| 0 <= i < v.len() implies event_fits(#[trigger] v[i]@, s) by {
        assert(event_views(v)[i] == v[i]@);
    }
}

impl Builder {
    /// The explanations for an edge, if they are wanted.
    pub fn explanation_lines(&self, state: &State, edge: EdgeId) -> (r: Vec<String>)
        requires
            state.wf(),
            edge.0 < state@.edges.len(),
        ensures
            texts(r@) == edge_notes(self@.notes, state@, edge),
    {
        let mut lines: Vec<String> = Vec::new();
        assert(texts(lines@) =~= Seq::empty());
        if let Some(explanations) = &self.explanations {
            let outputs = state.edge(edge).outputs();
            let ghost want = notes_for(explanations@, outputs@, 0);
            let mut k: usize = 0;
            assert(texts(lines@) + want =~= want);
            while k < outputs.len()
                invariant
                    k <= outputs@.len(),
                    texts(lines@) + notes_for(explanations@, outputs@, k as int) == want,
                decreases outputs@.len() - k,
            {
                let ghost had = texts(lines@);
                explanations.lookup_and_append(outputs[k], &mut lines);
                proof {
                    let more = notes_about(
                        explanations@,
                        outputs@[k as int],
                        explanations@.len() as int,
                    );
                    let rest = notes_for(explanations@, outputs@, k + 1);
                    assert(had + (more + rest) =~= (had + more) + rest);
                }
                k += 1;
            }
            assert(texts(lines@) + Seq::<Seq<char>>::empty() =~= texts(lines@));
        }
        lines
    }

    /// Take note that the command of an edge, which is not phony, is about to be
    /// launched, and say what there is to tell of it.
    pub fn note_start(&mut self, state: &State, edge: EdgeId, now_millis: i64) -> (r: Vec<
        StatusEvent,
    >)
        requires
            state.wf(),
            edge.0 < state@.edges.len(),
        ensures
            final(self)@ == old(self)@.edge_started(edge, now_millis),
            event_views(r@) == with_explanations(
                edge_notes(old(self)@.notes, state@, edge),
                EventView::EdgeStarted {
                    edge,
                    start: now_millis.wrapping_sub(old(self)@.start_time),
                },
            ),
    {
        let start_time: i64 = now_millis.wrapping_sub(self.start_time_millis);
        proof {
            state.lemma_wf();
        }
        set_slot(&mut self.running, edge.0, Some(start_time));
        self.edges_started = self.edges_started.wrapping_add(1);
        let lines = self.explanation_lines(state, edge);
        explained(lines, StatusEvent::EdgeStarted { edge, start_time_millis: start_time })
    }

    /// Get one edge ready for its command to be launched. There is nothing to
    /// do for one that is phony. The status is told what
    /// [`Builder::note_start`] says, whatever becomes of the rest.
    pub fn start_edge<D: DiskInterface, S: Status>(
        &mut self,
        state: &mut State,
        disk: &mut D,
        status: &mut S,
        edge: EdgeId,
        now_millis: i64,
    ) -> (r: Result<(), Error>)
        requires
            old(state).wf(),
            edge.0 < old(state)@.edges.len(),
        ensures
            final(state).wf(),
            old(state)@.edges[edge.0 as int].rule == phony_rule() ==> r is Ok && final(self)@
                == old(self)@ && final(state)@ == old(state)@ && final(disk).model() == old(disk).model()
                && final(status).model() == old(status).model(),
            old(state)@.edges[edge.0 as int].rule != phony_rule() ==> ({
                let w = edge_prepared::<D>(
                    old(disk).model(),
                    old(state)@,
                    edge,
                    old(self)@.lock_file,
                    old(self)@.config.dry_run,
                );
                &&& final(self)@ == old(self)@.edge_started(edge, now_millis)
                &&& final(state)@ == w.state
                &&& final(disk).model() == w.disk
                &&& final(status).model() == all_heard::<S>(
                    old(status).model(),
                    old(state)@,
                    with_explanations(
                        edge_notes(old(self)@.notes, old(state)@, edge),
                        EventView::EdgeStarted {
                            edge,
                            start: now_millis.wrapping_sub(old(self)@.start_time),
                        },
                    ),
                    0,
                )
                &&& match (r, w.error) {
                    (Ok(_), None) => true,
                    (Err(e), Some(f)) => e@ == f,
                    _ => false,
                }
            }),
    {
        if state.edge_is_phony(edge) {
            return Ok(());
        }
        let ghost b0 = self@;
        let events = self.note_start(state, edge, now_millis);
        proof {
            lemma_explained_fits(
                events@,
                edge_notes(b0.notes, state@, edge),
                EventView::EdgeStarted { edge, start: now_millis.wrapping_sub(b0.start_time) },
                state@,
            );
        }
        tell(status, state, events.as_slice());

        // Create the output directories, and note the filesystem's idea of
        // "now" so `restat` rules can tell whether a command touched anything.
        let now: i64 = if self.config.dry_run {
            0
        } else {
            -1
        };
        match prepare_outputs(state, disk, edge, self.lock_file_path.as_str(), now) {
            Err(e) => {
                return Err(e);
            },
            Ok(time) => {
                state.set_command_start_time(edge, time);
            },
        }
        prepare_files(state, disk, edge)
    }

    /// The complaint about a command that could not be launched.
    pub fn launch_error(&self, state: &State, edge: EdgeId, error: &Error) -> (r: Error)
        requires
            state.wf(),
            edge.0 < state@.edges.len(),
        ensures
            r@ == ErrorView::Build(
                "command '"@ + state@.binding(edge.0 as int, "command"@, Escape::Shell)
                    + "' failed: "@ + error_text(error@),
            ),
    {
        let mut text: String = "command '".to_owned();
        text.append(state.edge_command(edge).as_str());
        text.append("' failed: ");
        text.append(error.message().as_str());
        Error::Build(text)
    }
}

/// What clearing up the outputs from the `k`-th on comes to. An output is
/// removed if it has changed, or in any case where there is a depfile, since
/// the command may have written the depfile and not the output.
pub open spec fn outputs_cleared<D: DiskInterface>(
    m: D::Model,
    s: StateView,
    outputs: Seq<NodeId>,
    depfile: Seq<char>,
    k: int,
) -> D::Model
    decreases outputs.len() - k,
{
    if 0 <= k < outputs.len() {
        let path = path_of(s, outputs[k]);
        let left = match D::mtime_of(m, path) {
            Err(_) => m,
            Ok(t) => if depfile.len() > 0 || t != s.nodes[outputs[k].0 as int].mtime {
                D::removed(m, path).1
            } else {
                m
            },
        };
        outputs_cleared::<D>(left, s, outputs, depfile, k + 1)
    } else {
        m
    }
}

/// What clearing up after the edges from the `k`-th on comes to.
pub open spec fn edges_cleared<D: DiskInterface>(
    m: D::Model,
    s: StateView,
    edges: Seq<EdgeId>,
    k: int,
) -> D::Model
    decreases edges.len() - k,
{
    if 0 <= k < edges.len() {
        let e = edges[k].0 as int;
        let depfile = s.binding(e, "depfile"@, Escape::Plain);
        let left = outputs_cleared::<D>(m, s, s.edges[e].outputs, depfile, 0);
        edges_cleared::<D>(
            if depfile.len() > 0 {
                D::removed(left, depfile).1
            } else {
                left
            },
            s,
            edges,
            k + 1,
        )
    } else {
        m
    }
}

/// What clearing up after a build whose commands for `edges` did not finish
/// comes to: what they have half written goes, and the lock file.
pub open spec fn cleared<D: DiskInterface>(
    m: D::Model,
    s: StateView,
    edges: Seq<EdgeId>,
    lock: Seq<char>,
) -> D::Model {
    let left = edges_cleared::<D>(m, s, edges, 0);
    match D::mtime_of(left, lock) {
        Err(_) => left,
        Ok(t) => if t > 0 {
            D::removed(left, lock).1
        } else {
            left
        },
    }
}

/// What there is to tell of clearing up the outputs from the `k`-th on: why
/// those could not be looked at that could not.
pub open spec fn outputs_complaints<D: DiskInterface>(
    m: D::Model,
    s: StateView,
    outputs: Seq<NodeId>,
    depfile: Seq<char>,
    k: int,
) -> Seq<EventView>
    decreases outputs.len() - k,
{
    if 0 <= k < outputs.len() {
        let path = path_of(s, outputs[k]);
        match D::mtime_of(m, path) {
            Err(e) => seq![EventView::Error(error_text(e))] + outputs_complaints::<D>(
                m,
                s,
                outputs,
                depfile,
                k + 1,
            ),
            Ok(t) => outputs_complaints::<D>(
                if depfile.len() > 0 || t != s.nodes[outputs[k].0 as int].mtime {
                    D::removed(m, path).1
                } else {
                    m
                },
                s,
                outputs,
                depfile,
                k + 1,
            ),
        }
    } else {
        Seq::empty()
    }
}

/// What there is to tell of clearing up after the edges from the `k`-th on.
pub open spec fn edges_complaints<D: DiskInterface>(
    m: D::Model,
    s: StateView,
    edges: Seq<EdgeId>,
    k: int,
) -> Seq<EventView>
    decreases edges.len() - k,
{
    if 0 <= k < edges.len() {
        let e = edges[k].0 as int;
        let depfile = s.binding(e, "depfile"@, Escape::Plain);
        let left = outputs_cleared::<D>(m, s, s.edges[e].outputs, depfile, 0);
        outputs_complaints::<D>(m, s, s.edges[e].outputs, depfile, 0) + edges_complaints::<D>(
            if depfile.len() > 0 {
                D::removed(left, depfile).1
            } else {
                left
            },
            s,
            edges,
            k + 1,
        )
    } else {
        Seq::empty()
    }
}

fn clear_outputs<D: DiskInterface>(
    state: &State,
    disk: &mut D,
    events: &mut Vec<StatusEvent>,
    edge: EdgeId,
    depfile: &str,
)
    requires
        state.wf(),
        edge.0 < state@.edges.len(),
    ensures
        final(disk).model() == outputs_cleared::<D>(
            old(disk).model(),
            state@,
            state@.edges[edge.0 as int].outputs,
            depfile@,
            0,
        ),
        event_views(final(events)@) == event_views(old(events)@) + outputs_complaints::<D>(
            old(disk).model(),
            state@,
            state@.edges[edge.0 as int].outputs,
            depfile@,
            0,
        ),
{
    let outputs = state.edge(edge).outputs();
    let ghost want = outputs_cleared::<D>(disk.model(), state@, outputs@, depfile@, 0);
    let ghost told = event_views(events@) + outputs_complaints::<D>(
        disk.model(),
        state@,
        outputs@,
        depfile@,
        0,
    );
    proof {
        state.lemma_wf();
        assert(state@.edge_ok(state@.edges[edge.0 as int]));
    }
    let always: bool = !depfile.is_empty();
    let mut k: usize = 0;
    while k < outputs.len()
        invariant
            k <= outputs@.len(),
            nodes_below(outputs@, state@.nodes.len()),
            state.wf(),
            always == (depfile@.len() > 0),
            outputs_cleared::<D>(disk.model(), state@, outputs@, depfile@, k as int) == want,
            event_views(events@) + outputs_complaints::<D>(
                disk.model(),
                state@,
                outputs@,
                depfile@,
                k as int,
            ) == told,
        decreases outputs@.len() - k,
    {
        let node = state.node(outputs[k]);
        let ghost had = event_views(events@);
        let ghost m = disk.model();
        match disk.stat(node.path()) {
            Err(e) => {
                events.push(StatusEvent::Error(e.message()));
                proof {
                    let rest = outputs_complaints::<D>(m, state@, outputs@, depfile@, k + 1);
                    let x = EventView::Error(error_text(e@));
                    assert(event_views(events@) =~= had.push(x));
                    assert(had + (seq![x] + rest) =~= had.push(x) + rest);
                }
            },
            Ok(mtime) => {
                if always || mtime != node.mtime {
                    let _ = disk.remove_file(node.path());
                }
            },
        }
        k += 1;
    }
    assert(event_views(events@) + Seq::<EventView>::empty() =~= event_views(events@));
}

impl Builder {
    /// Delete the outputs of interrupted commands, so a later build does not
    /// mistake a half-written file for a finished one, and say what there is to
    /// tell of it.
    pub fn clear_up<D: DiskInterface>(&self, state: &State, disk: &mut D, active: &[EdgeId]) -> (r: Vec<
        StatusEvent,
    >)
        requires
            state.wf(),
            edges_below(active@, state@.edges.len()),
        ensures
            final(disk).model() == cleared::<D>(
                old(disk).model(),
                state@,
                active@,
                self@.lock_file,
            ),
            event_views(r@) == edges_complaints::<D>(old(disk).model(), state@, active@, 0),
    {
        let ghost want = edges_cleared::<D>(disk.model(), state@, active@, 0);
        let ghost told = edges_complaints::<D>(disk.model(), state@, active@, 0);
        let mut events: Vec<StatusEvent> = Vec::new();
        let mut k: usize = 0;
        assert(event_views(events@) + told =~= told);
        while k < active.len()
            invariant
                k <= active@.len(),
                state.wf(),
                edges_below(active@, state@.edges.len()),
                edges_cleared::<D>(disk.model(), state@, active@, k as int) == want,
                event_views(events@) + edges_complaints::<D>(
                    disk.model(),
                    state@,
                    active@,
                    k as int,
                ) == told,
            decreases active@.len() - k,
        {
            let edge = active[k];
            let depfile = state.edge_depfile(edge);
            let ghost had = event_views(events@);
            let ghost m = disk.model();
            clear_outputs(state, disk, &mut events, edge, depfile.as_str());
            if !depfile.as_str().is_empty() {
                let _ = disk.remove_file(depfile.as_str());
            }
            k += 1;
            proof {
                let mine = outputs_complaints::<D>(
                    m,
                    state@,
                    state@.edges[edge.0 as int].outputs,
                    depfile@,
                    0,
                );
                let rest = edges_complaints::<D>(disk.model(), state@, active@, k as int);
                assert(had + (mine + rest) =~= (had + mine) + rest);
            }
        }
        assert(event_views(events@) + Seq::<EventView>::empty() =~= event_views(events@));
        match disk.stat(self.lock_file_path.as_str()) {
            Err(_) => {},
            Ok(mtime) => {
                if mtime > 0 {
                    let _ = disk.remove_file(self.lock_file_path.as_str());
                }
            },
        }
        events
    }

    /// Delete the outputs of interrupted commands. The status is told what
    /// [`Builder::clear_up`] says.
    pub fn cleanup<D: DiskInterface, S: Status>(
        &self,
        state: &State,
        disk: &mut D,
        status: &mut S,
        active: &[EdgeId],
    )
        requires
            state.wf(),
            edges_below(active@, state@.edges.len()),
        ensures
            final(disk).model() == cleared::<D>(
                old(disk).model(),
                state@,
                active@,
                self@.lock_file,
            ),
            final(status).model() == all_heard::<S>(
                old(status).model(),
                state@,
                edges_complaints::<D>(old(disk).model(), state@, active@, 0),
                0,
            ),
    {
        let ghost m = disk.model();
        let events = self.clear_up(state, disk, active);
        proof {
            lemma_edges_complaints::<D>(m, state@, active@, 0);
            assert forall|i: int| 0 <= i < events@.len() implies event_fits(
                #[trigger] events@[i]@,
                state@,
            ) by {
                assert(event_views(events@)[i] == events@[i]@);
            }
        }
        tell(status, state, events.as_slice());
    }
}

proof fn lemma_outputs_complaints<D: DiskInterface>(
    m: D::Model,
    s: StateView,
    outputs: Seq<NodeId>,
    depfile: Seq<char>,
    k: int,
)
    ensures
        forall|i: int|
            0 <= i < outputs_complaints::<D>(m, s, outputs, depfile, k).len() ==> (
            #[trigger] outputs_complaints::<D>(m, s, outputs, depfile, k)[i]) is Error,
    decreases outputs.len() - k,
{
    if 0 <= k < outputs.len() {
        let path = path_of(s, outputs[k]);
        match D::mtime_of(m, path) {
            Err(_) => {
                lemma_outputs_complaints::<D>(m, s, outputs, depfile, k + 1);
            },
            Ok(t) => {
                lemma_outputs_complaints::<D>(
                    if depfile.len() > 0 || t != s.nodes[outputs[k].0 as int].mtime {
                        D::removed(m, path).1
                    } else {
                        m
                    },
                    s,
                    outputs,
                    depfile,
                    k + 1,
                );
            },
        }
    }
}

proof fn lemma_edges_complaints<D: DiskInterface>(m: D::Model, s: StateView, edges: Seq<EdgeId>, k: int)
    ensures
        forall|i: int|
            0 <= i < edges_complaints::<D>(m, s, edges, k).len() ==> (
            #[trigger] edges_complaints::<D>(m, s, edges, k)[i]) is Error,
    decreases edges.len() - k,
{
    if 0 <= k < edges.len() {
        let e = edges[k].0 as int;
        let depfile = s.binding(e, "depfile"@, Escape::Plain);
        let left = outputs_cleared::<D>(m, s, s.edges[e].outputs, depfile, 0);
        lemma_outputs_complaints::<D>(m, s, s.edges[e].outputs, depfile, 0);
        lemma_edges_complaints::<D>(
            if depfile.len() > 0 {
                D::removed(left, depfile).1
            } else {
                left
            },
            s,
            edges,
            k + 1,
        );
    }
}

/// Whether some files have been removed, and nothing else has happened.
pub open spec fn only_removed(m: MemDiskView, w: MemDiskView) -> bool {
    &&& w.dirs == m.dirs
    &&& forall|p: Seq<char>| #[trigger]
        w.files.contains_key(p) ==> m.files.contains_key(p) && w.files[p] == m.files[p]
}

proof fn lemma_outputs_cleared(m: MemDiskView, s: StateView, outputs: Seq<NodeId>, depfile: Seq<char>, k: int)
    requires
        0 <= k,
    ensures
        ({
            let w = outputs_cleared::<MemDisk>(m, s, outputs, depfile, k);
            &&& only_removed(m, w)
            &&& forall|j: int|
                k <= j < outputs.len() && w.files.contains_key(path_of(s, #[trigger] outputs[j]))
                    ==> depfile.len() == 0 && w.files[path_of(s, outputs[j])].1
                    == s.nodes[outputs[j].0 as int].mtime
        }),
    decreases outputs.len() - k,
{
    if k < outputs.len() {
        let path = path_of(s, outputs[k]);
        let left = match MemDisk::mtime_of(m, path) {
            Err(_) => m,
            Ok(t) => if depfile.len() > 0 || t != s.nodes[outputs[k].0 as int].mtime {
                MemDisk::removed(m, path).1
            } else {
                m
            },
        };
        lemma_outputs_cleared(left, s, outputs, depfile, k + 1);
    }
}

proof fn lemma_edges_cleared(m: MemDiskView, s: StateView, edges: Seq<EdgeId>, k: int)
    requires
        0 <= k,
    ensures
        only_removed(m, edges_cleared::<MemDisk>(m, s, edges, k)),
    decreases edges.len() - k,
{
    if k < edges.len() {
        let e = edges[k].0 as int;
        let depfile = s.binding(e, "depfile"@, Escape::Plain);
        lemma_outputs_cleared(m, s, s.edges[e].outputs, depfile, 0);
        let left = outputs_cleared::<MemDisk>(m, s, s.edges[e].outputs, depfile, 0);
        let next = if depfile.len() > 0 {
            MemDisk::removed(left, depfile).1
        } else {
            left
        };
        lemma_edges_cleared(next, s, edges, k + 1);
    }
}

proof fn lemma_edge_cleared(m: MemDiskView, s: StateView, edges: Seq<EdgeId>, k: int, i: int, j: int)
    requires
        0 <= k <= i < edges.len(),
        0 <= j < s.edges[edges[i].0 as int].outputs.len(),
    ensures
        ({
            let w = edges_cleared::<MemDisk>(m, s, edges, k);
            let o = s.edges[edges[i].0 as int].outputs[j];
            w.files.contains_key(path_of(s, o)) ==> w.files[path_of(s, o)].1
                == s.nodes[o.0 as int].mtime
        }),
    decreases edges.len() - k,
{
    let e = edges[k].0 as int;
    let depfile = s.binding(e, "depfile"@, Escape::Plain);
    lemma_outputs_cleared(m, s, s.edges[e].outputs, depfile, 0);
    let left = outputs_cleared::<MemDisk>(m, s, s.edges[e].outputs, depfile, 0);
    let next = if depfile.len() > 0 {
        MemDisk::removed(left, depfile).1
    } else {
        left
    };
    if k == i {
        lemma_edges_cleared(next, s, edges, k + 1);
    } else {
        lemma_edge_cleared(next, s, edges, k + 1, i, j);
    }
}

/// An interrupted build leaves no half-written output: of the outputs of the
/// commands that were running, only those are left that have not changed since
/// they were looked at. The lock file is gone, and no other file has appeared
/// or changed.
pub proof fn law_interrupted_outputs_are_removed(
    m: MemDiskView,
    s: StateView,
    edges: Seq<EdgeId>,
    lock: Seq<char>,
    i: int,
    j: int,
)
    requires
        0 <= i < edges.len(),
        0 <= j < s.edges[edges[i].0 as int].outputs.len(),
        m.files.contains_key(lock) ==> m.files[lock].1 > 0,
    ensures
        ({
            let w = cleared::<MemDisk>(m, s, edges, lock);
            let o = s.edges[edges[i].0 as int].outputs[j];
            &&& only_removed(m, w)
            &&& !w.files.contains_key(lock)
            &&& w.files.contains_key(path_of(s, o)) ==> w.files[path_of(s, o)].1
                == s.nodes[o.0 as int].mtime
        }),
{
    lemma_edges_cleared(m, s, edges, 0);
    lemma_edge_cleared(m, s, edges, 0, i, j);
}

/// Whether nothing that exists has gone from one disk to the other.
pub open spec fn all_kept<D: DiskInterface>(m: D::Model, n: D::Model) -> bool {
    forall|q: Seq<char>| #[trigger] present::<D>(m, q) ==> present::<D>(n, q)
}

proof fn lemma_directories_kept<D: DiskInterface>(m: D::Model, n: D::Model, path: Seq<char>)
    requires
        all_kept::<D>(m, n),
    ensures
        has_directory::<D>(m, path) ==> has_directory::<D>(n, path),
        has_directories::<D>(m, path) ==> has_directories::<D>(n, path),
{
    if has_directories::<D>(m, path) {
        assert forall|i: int|
            0 < i < path.len() && #[trigger] path[i] == '/' && path[i - 1]
                != '/' implies present::<D>(n, path.take(i)) by {
            assert(present::<D>(m, path.take(i)));
        }
    }
    if has_directory::<D>(m, path) {
        assert forall|i: int|
            0 < i < path.len() && #[trigger] path[i] == '/' && path[i - 1] != '/' && (forall|j: int|
                i < j < path.len() && #[trigger] path[j] == '/' ==> path[j - 1]
                    == '/') implies present::<D>(n, path.take(i)) by {
            assert(present::<D>(m, path.take(i)));
        }
    }
}

proof fn lemma_written<D: DiskInterface>(
    ok: spec_fn(D::Model) -> bool,
    m: D::Model,
    path: Seq<char>,
    text: Seq<char>,
    crlf: bool,
)
    requires
        is_filesystem::<D>(ok),
        ok(m),
    ensures
        ({
            let n = D::written(m, path, text, crlf).1;
            &&& ok(n)
            &&& all_kept::<D>(m, n)
            &&& is_tree::<D>(m) && has_directories::<D>(m, path) ==> is_tree::<D>(n)
        }),
{
    let n = D::written(m, path, text, crlf).1;
    assert(same_elsewhere::<D>(m, n, path));
    assert forall|q: Seq<char>| #[trigger] present::<D>(m, q) implies present::<D>(n, q) by {
        if q != path {
            assert(D::content_of(n, q) == D::content_of(m, q));
        }
    }
    if is_tree::<D>(m) && has_directories::<D>(m, path) {
        assert forall|q: Seq<char>| #[trigger] present::<D>(n, q) implies has_directories::<D>(
            n,
            q,
        ) by {
            if q != path {
                assert(D::content_of(n, q) == D::content_of(m, q));
                assert(present::<D>(m, q));
            }
            lemma_directories_kept::<D>(m, n, q);
        }
    }
}

proof fn lemma_outputs_prepared<D: DiskInterface>(
    ok: spec_fn(D::Model) -> bool,
    m: D::Model,
    s: StateView,
    outputs: Seq<NodeId>,
    lock: Seq<char>,
    now: i64,
    k: int,
)
    requires
        is_filesystem::<D>(ok),
        ok(m),
        0 <= k,
    ensures
        ({
            let (r, n) = outputs_prepared::<D>(m, s, outputs, lock, now, k);
            &&& ok(n)
            &&& all_kept::<D>(m, n)
            &&& forall|q: Seq<char>|
                q != lock ==> #[trigger] D::content_of(n, q) == D::content_of(m, q)
            &&& r is Ok ==> forall|j: int|
                k <= j < outputs.len() ==> has_directory::<D>(n, path_of(s, #[trigger] outputs[j]))
            &&& r is Ok && now == -1 && k < outputs.len() ==> present::<D>(n, lock)
            &&& now != -1 ==> D::content_of(n, lock) == D::content_of(m, lock)
            &&& is_tree::<D>(m) && has_directories::<D>(m, lock) ==> is_tree::<D>(n) && (r is Ok
                ==> forall|j: int|
                k <= j < outputs.len() ==> has_directories::<D>(
                    n,
                    path_of(s, #[trigger] outputs[j]),
                ))
        }),
    decreases outputs.len() - k,
{
    if k < outputs.len() {
        let path = path_of(s, outputs[k]);
        let made = dirs_made::<D>(m, path);
        law_directories_are_made::<D>(ok, m, path);
        lemma_directories_kept::<D>(m, made.1, lock);
        if made.0 is Ok {
            let mut u = made.1;
            let mut time = now;
            let mut go = true;
            if now == -1 {
                let wrote = D::written(made.1, lock, ""@, false);
                lemma_written::<D>(ok, made.1, lock, ""@, false);
                assert(same_elsewhere::<D>(made.1, wrote.1, lock));
                lemma_directories_kept::<D>(made.1, wrote.1, path);
                lemma_directories_kept::<D>(made.1, wrote.1, lock);
                assert forall|q: Seq<char>|
                    q != lock implies #[trigger] D::content_of(wrote.1, q) == D::content_of(m, q) by {
                    assert(D::content_of(made.1, q) == D::content_of(m, q));
                }
                u = wrote.1;
                time = match D::mtime_of(wrote.1, lock) {
                    Ok(t) => t,
                    Err(_) => 0,
                };
                go = wrote.0 is Ok;
            }
            if go {
                lemma_outputs_prepared::<D>(ok, u, s, outputs, lock, time, k + 1);
                let n = outputs_prepared::<D>(u, s, outputs, lock, time, k + 1).1;
                lemma_directories_kept::<D>(u, n, path);
                assert forall|q: Seq<char>|
                    q != lock implies #[trigger] D::content_of(n, q) == D::content_of(m, q) by {
                    assert(D::content_of(u, q) == D::content_of(m, q));
                }
                assert(D::content_of(made.1, lock) == D::content_of(m, lock));
            }
        }
    }
}

/// When a command is started, the directories that its outputs and its depfile
/// are in exist, the response file holds what it is to hold, and no other file
/// but the lock file has been touched. Where everything that exists is in
/// directories that exist, all directories that the paths lead through exist.
pub proof fn law_commands_find_their_directories<D: DiskInterface>(
    ok: spec_fn(D::Model) -> bool,
    m: D::Model,
    s: StateView,
    edge: EdgeId,
    lock: Seq<char>,
    dry_run: bool,
)
    requires
        is_filesystem::<D>(ok),
        ok(m),
        edge.0 < s.edges.len(),
        s.edge_ok(s.edges[edge.0 as int]),
        edge_prepared::<D>(m, s, edge, lock, dry_run).error is None,
    ensures
        ({
            let n = edge_prepared::<D>(m, s, edge, lock, dry_run).disk;
            let outputs = s.edges[edge.0 as int].outputs;
            let depfile = s.binding(edge.0 as int, "depfile"@, Escape::Plain);
            let rspfile = s.binding(edge.0 as int, "rspfile"@, Escape::Plain);
            let content = s.binding(edge.0 as int, "rspfile_content"@, Escape::Shell);
            &&& forall|k: int|
                0 <= k < outputs.len() ==> has_directory::<D>(
                    n,
                    s.nodes[(#[trigger] outputs[k]).0 as int].path,
                )
            &&& depfile.len() > 0 ==> has_directory::<D>(n, depfile)
            &&& rspfile.len() > 0 ==> D::content_of(n, rspfile) == Ok::<
                Option<Seq<u8>>,
                ErrorView,
            >(Some(vstd::utf8::encode_utf8(content)))
            &&& forall|q: Seq<char>|
                q != lock && q != rspfile ==> #[trigger] D::content_of(n, q) == D::content_of(m, q)
            &&& dry_run && lock != rspfile ==> D::content_of(n, lock) == D::content_of(m, lock)
            &&& is_tree::<D>(m) && has_directories::<D>(m, lock) ==> {
                &&& forall|k: int|
                    0 <= k < outputs.len() ==> has_directories::<D>(
                        n,
                        s.nodes[(#[trigger] outputs[k]).0 as int].path,
                    )
                &&& depfile.len() > 0 ==> has_directories::<D>(n, depfile)
            }
        }),
{
    let e = edge.0 as int;
    let outputs = s.edges[e].outputs;
    let now = if dry_run {
        0
    } else {
        -1i64
    };
    lemma_outputs_prepared::<D>(ok, m, s, outputs, lock, now, 0);
    let (time, u) = outputs_prepared::<D>(m, s, outputs, lock, now, 0);
    let t = started_at(s, edge, time->Ok_0);
    assert(says_same(s, t, e));
    law_bindings_are_fixed(s, t, e, "depfile"@, Escape::Plain);
    law_bindings_are_fixed(s, t, e, "rspfile"@, Escape::Plain);
    law_bindings_are_fixed(s, t, e, "rspfile_content"@, Escape::Shell);
    let depfile = s.binding(e, "depfile"@, Escape::Plain);
    let rspfile = s.binding(e, "rspfile"@, Escape::Plain);
    let content = s.binding(e, "rspfile_content"@, Escape::Shell);
    let mut v = u;
    if depfile.len() > 0 {
        law_directories_are_made::<D>(ok, u, depfile);
        v = dirs_made::<D>(u, depfile).1;
    }
    assert forall|q: Seq<char>| q != lock implies #[trigger] D::content_of(v, q) == D::content_of(
        m,
        q,
    ) by {
        assert(D::content_of(u, q) == D::content_of(m, q));
    }
    assert(D::content_of(v, lock) == D::content_of(u, lock));
    let n = edge_prepared::<D>(m, s, edge, lock, dry_run).disk;
    if rspfile.len() > 0 {
        lemma_written::<D>(ok, v, rspfile, content, true);
        assert(n == D::written(v, rspfile, content, true).1);
        assert(same_elsewhere::<D>(v, n, rspfile));
        assert forall|q: Seq<char>|
            q != lock && q != rspfile implies #[trigger] D::content_of(n, q) == D::content_of(
            m,
            q,
        ) by {
            assert(D::content_of(v, q) == D::content_of(m, q));
        }
    } else {
        assert(n == v);
    }
    lemma_directories_kept::<D>(v, n, depfile);
    assert forall|k: int| 0 <= k < outputs.len() implies has_directory::<D>(
        n,
        s.nodes[(#[trigger] outputs[k]).0 as int].path,
    ) && (is_tree::<D>(m) && has_directories::<D>(m, lock) ==> has_directories::<D>(
        n,
        s.nodes[outputs[k].0 as int].path,
    )) by {
        lemma_directories_kept::<D>(u, v, path_of(s, outputs[k]));
        lemma_directories_kept::<D>(v, n, path_of(s, outputs[k]));
    }
}

} // verus!
