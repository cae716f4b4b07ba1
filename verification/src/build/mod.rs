//! Running a build: turning a plan into commands, then recording what happened.
//!
//! [`Builder`] makes the decisions of a build. Whoever drives it asks
//! [`Builder::next_step`] what to do, starts and awaits commands, and tells the
//! builder how they ended.

use vstd::prelude::*;
use vstd::string::*;

use crate::build_log::BuildLog;
use crate::deps_log::DepsLog;
use crate::disk::DiskInterface;
use crate::error::Error;
use crate::exec::{CommandResult, ExitStatus};
use crate::graph::{DependencyScan, Explanations};
use crate::parse::quoted;
use crate::plan::Plan;
use crate::state::{EdgeId, NodeId, State};
use crate::util::guess_parallelism;

pub mod finish;
pub mod start;

pub use crate::status::Verbosity;

verus! {

use crate::build_log::Entries;
use crate::deps_log::DepsLogView;
use crate::error::ErrorView;
use crate::graph::{at_rest, notes_of, progress, queue_visited, Notes, Sources};
use crate::plan::{
    empty_plan, initially_scheduled, orderly, queued_once, runs_unready, scan_start, scanned,
    weighed, with_target, with_unready_targets, work, PlanView, Scanned,
};
use crate::state::{cut, Cut, StateView};
use vstd::utf8::encode_utf8;

/// Options controlling how a build runs.
#[derive(Copy, Clone, PartialEq, Eq, Structural, Debug)]
pub struct BuildConfig {
    /// How much to print.
    pub verbosity: Verbosity,
    /// Report success without running anything (`-n`).
    pub dry_run: bool,
    /// How many commands to run at once (`-j`).
    pub parallelism: usize,
    /// How many failures to tolerate before stopping (`-k`).
    pub failures_allowed: usize,
    /// Keep depfiles after reading them (`-d keepdepfile`).
    pub keep_depfile: bool,
    /// Keep response files after a command succeeds (`-d keeprsp`).
    pub keep_rsp: bool,
    /// Collect and print why each target is being rebuilt (`-d explain`).
    pub explain: bool,
}

/// The options for a machine with as many processors, where nothing else is
/// asked for.
pub open spec fn default_config(parallelism: usize) -> BuildConfig {
    BuildConfig {
        verbosity: Verbosity::Normal,
        dry_run: false,
        parallelism,
        failures_allowed: 1,
        keep_depfile: false,
        keep_rsp: false,
        explain: false,
    }
}

impl Default for BuildConfig {
    /// The options for a machine with one processor.
    fn default() -> (r: BuildConfig)
        ensures
            r == default_config(2),
    {
        BuildConfig {
            verbosity: Verbosity::Normal,
            dry_run: false,
            parallelism: guess_parallelism(1),
            failures_allowed: 1,
            keep_depfile: false,
            keep_rsp: false,
            explain: false,
        }
    }
}

/// The logs of a build, and what is to be appended to their files.
pub struct Logs {
    pub build_log: Option<BuildLog>,
    pub deps_log: Option<DepsLog>,
    /// To be appended to the file of the build log.
    pub lines: String,
    /// To be appended to the file of the deps log.
    pub bytes: Vec<u8>,
}

/// The logs of a build by what they hold.
#[verifier::ext_equal]
pub struct LogsView {
    pub build: Option<Entries>,
    /// Whether the build log should be rewritten.
    pub stale: bool,
    pub deps: Option<DepsLogView>,
    pub lines: Seq<char>,
    pub bytes: Seq<u8>,
}

impl View for Logs {
    type V = LogsView;

    open spec fn view(&self) -> LogsView {
        LogsView {
            build: match self.build_log {
                Some(l) => Some(l.recorded()),
                None => None,
            },
            stale: self.build_log matches Some(l) && l.stale(),
            deps: match self.deps_log {
                Some(l) => Some(l@),
                None => None,
            },
            lines: self.lines@,
            bytes: self.bytes@,
        }
    }
}

impl LogsView {
    /// Whether the ids in the deps log are ids of the graph.
    pub open spec fn fits(self, n: nat) -> bool {
        self.deps matches Some(l) ==> l.fits(n)
    }
}

impl Logs {
    /// The logs, with nothing to be appended yet.
    pub fn new(build_log: Option<BuildLog>, deps_log: Option<DepsLog>) -> (r: Logs)
        ensures
            r.build_log == build_log,
            r.deps_log == deps_log,
            r@.lines == Seq::<char>::empty(),
            r@.bytes == Seq::<u8>::empty(),
    {
        let r = Logs { build_log, deps_log, lines: String::new(), bytes: Vec::new() };
        assert(r@.lines =~= Seq::empty());
        assert(r@.bytes =~= Seq::empty());
        r
    }

    fn build_log(&self) -> (r: Option<&BuildLog>)
        ensures
            crate::graph::log_of(r) == self@.build,
    {
        match &self.build_log {
            Some(l) => Some(l),
            None => None,
        }
    }

    fn deps_log(&self) -> (r: Option<&DepsLog>)
        ensures
            crate::graph::deps_log_of(r) == self@.deps,
    {
        match &self.deps_log {
            Some(l) => Some(l),
            None => None,
        }
    }
}

/// Where a scan gets its information from.
pub open spec fn sources_of<M>(disk: M, logs: LogsView) -> Sources<M> {
    Sources { disk, log: logs.build, deps: logs.deps }
}

/// What is to be done next in a build.
#[derive(Copy, Clone, PartialEq, Eq, Structural, Debug)]
pub enum BuildStep {
    /// Start the command of an edge; one that is phony is done at once.
    Start(EdgeId),
    /// Wait for a command to finish.
    Wait,
    /// Nothing: the build has succeeded.
    Finished,
    /// Nothing: the build cannot go on.
    Stuck,
}

/// The slots with that for `i` replaced.
pub open spec fn with_slot(v: Seq<Option<i64>>, i: int, x: Option<i64>) -> Seq<Option<i64>> {
    Seq::new(
        if i < v.len() {
            v.len()
        } else {
            (i + 1) as nat
        },
        |k: int|
            if k == i {
                x
            } else if k < v.len() {
                v[k]
            } else {
                None
            },
    )
}

/// A builder by what it holds.
#[verifier::ext_equal]
pub struct BuilderView {
    pub config: BuildConfig,
    pub plan: PlanView,
    /// The explanations, if they are wanted.
    pub notes: Option<Notes>,
    /// When the commands that run were started.
    pub running: Seq<Option<i64>>,
    pub lock_file: Seq<char>,
    pub start_time: i64,
    pub exit_code: ExitStatus,
    pub edges_started: u64,
    pub edges_finished: u64,
    /// How many commands may still fail.
    pub failures_left: usize,
    /// How many commands run.
    pub pending: usize,
    /// How many more commands may start before waiting, while any do.
    pub room: Option<usize>,
    /// Whether a command has started since it was last asked how many may.
    pub recheck: bool,
}

impl BuilderView {
    /// The part of a builder that a scan changes.
    pub open spec fn scanned(self, s: StateView) -> Scanned {
        Scanned { plan: self.plan, state: s, notes: self.notes }
    }

    /// Whether there is still something to do.
    pub open spec fn more_to_do(self) -> bool {
        self.plan.wanted_edges > 0 && self.plan.command_edges > 0
    }

    /// The builder when it decides what to do, knowing that `available` more
    /// commands may start.
    pub open spec fn with_room(self, available: usize) -> BuilderView {
        let room = match self.room {
            None => if self.failures_left > 0 {
                Some(available)
            } else {
                None
            },
            Some(r) => if self.recheck && available < r {
                Some(available)
            } else {
                Some(r)
            },
        };
        BuilderView { room, recheck: false, ..self }
    }

    /// The builder when no more commands can start.
    pub open spec fn waiting(self) -> (BuilderView, BuildStep) {
        let idle = BuilderView { room: None, ..self };
        if self.room is Some && self.pending == 0 && !self.more_to_do() {
            (idle, BuildStep::Finished)
        } else if self.pending > 0 {
            (idle, BuildStep::Wait)
        } else {
            (idle, BuildStep::Stuck)
        }
    }

    /// What the builder decides, and how that leaves it, when `available` more
    /// commands may start.
    pub open spec fn step(self, available: usize) -> (BuilderView, BuildStep) {
        if self.room is None && !self.more_to_do() {
            (self, BuildStep::Finished)
        } else {
            let b = self.with_room(available);
            if (b.room matches Some(r) && r > 0) && b.plan.ready.len() > 0 {
                (
                    BuilderView {
                        plan: PlanView { ready: b.plan.ready.drop_first(), ..b.plan },
                        ..b
                    },
                    BuildStep::Start(b.plan.ready[0].edge),
                )
            } else {
                b.waiting()
            }
        }
    }

    /// Why a build cannot go on.
    pub open spec fn stuck_text(self) -> Seq<char> {
        if self.failures_left == 0 {
            if self.config.failures_allowed > 1 {
                "subcommands failed"@
            } else {
                "subcommand failed"@
            }
        } else if self.failures_left < self.config.failures_allowed {
            "cannot make progress due to previous errors"@
        } else {
            "stuck [this is a bug]"@
        }
    }

    /// The builder after a command has been started.
    pub open spec fn command_started(self) -> BuilderView {
        BuilderView {
            pending: self.pending.wrapping_add(1),
            room: match self.room {
                Some(r) => Some(r.wrapping_sub(1)),
                None => None,
            },
            recheck: true,
            ..self
        }
    }

    /// The builder after a command has ended, and what that means has, or has
    /// not, been worked out.
    pub open spec fn command_ended(self, status: ExitStatus, worked_out: bool) -> BuilderView {
        BuilderView {
            pending: self.pending.wrapping_sub(1),
            exit_code: if !status.success() {
                status
            } else if !worked_out {
                ExitStatus(1)
            } else {
                self.exit_code
            },
            failures_left: if worked_out && !status.success() && self.failures_left > 0 {
                (self.failures_left - 1) as usize
            } else {
                self.failures_left
            },
            ..self
        }
    }
}

/// The path of the file by which a build tells the time of the disk.
pub open spec fn lock_path(s: StateView) -> Seq<char> {
    let dir = s.scopes.value(0, "builddir"@);
    if dir.len() == 0 {
        ".ninja_lock"@
    } else {
        dir + "/.ninja_lock"@
    }
}

/// Drives a build: plans targets, schedules edges and updates the logs.
pub struct Builder {
    config: BuildConfig,
    plan: Plan,
    explanations: Option<Explanations>,
    running: Vec<Option<i64>>,
    lock_file_path: String,
    start_time_millis: i64,
    exit_code: ExitStatus,
    edges_started: u64,
    edges_finished: u64,
    failures_left: usize,
    pending: usize,
    room: Option<usize>,
    recheck: bool,
}

impl View for Builder {
    type V = BuilderView;

    closed spec fn view(&self) -> BuilderView {
        BuilderView {
            config: self.config,
            plan: self.plan@,
            notes: notes_of(self.explanations),
            running: self.running@,
            lock_file: self.lock_file_path@,
            start_time: self.start_time_millis,
            exit_code: self.exit_code,
            edges_started: self.edges_started,
            edges_finished: self.edges_finished,
            failures_left: self.failures_left,
            pending: self.pending,
            room: self.room,
            recheck: self.recheck,
        }
    }
}

impl Builder {
    /// Create a builder.
    ///
    /// `start_time_millis` is the time the whole build started, used for the
    /// timings recorded in the build log.
    pub fn new(state: &State, config: BuildConfig, start_time_millis: i64) -> (r: Builder)
        requires
            state.wf(),
        ensures
            r@ == (BuilderView {
                config,
                plan: empty_plan(),
                notes: if config.explain {
                    Some(Seq::empty())
                } else {
                    None
                },
                running: Seq::empty(),
                lock_file: lock_path(state@),
                start_time: start_time_millis,
                exit_code: ExitStatus(0),
                edges_started: 0,
                edges_finished: 0,
                failures_left: config.failures_allowed,
                pending: 0,
                room: None,
                recheck: false,
            }),
    {
        let mut lock_file_path: String = state.global_binding("builddir");
        if lock_file_path.as_str().is_empty() {
            lock_file_path = ".ninja_lock".to_owned();
        } else {
            lock_file_path.append("/.ninja_lock");
        }
        let r = Builder {
            config,
            plan: Plan::new(),
            explanations: if config.explain {
                Some(Explanations::new())
            } else {
                None
            },
            running: Vec::new(),
            lock_file_path,
            start_time_millis,
            exit_code: ExitStatus::ok(),
            edges_started: 0,
            edges_finished: 0,
            failures_left: config.failures_allowed,
            pending: 0,
            room: None,
            recheck: false,
        };
        assert(r@.running =~= Seq::empty());
        r
    }

    /// The build plan.
    pub fn plan(&self) -> (r: &Plan)
        ensures
            r@ == self@.plan,
    {
        &self.plan
    }

    /// The changes of the plan that nobody has been told of yet.
    pub fn take_plan_changes(&mut self) -> (r: Vec<crate::plan::PlanChange>)
        ensures
            r@ == old(self)@.plan.changes,
            final(self)@ == (BuilderView {
                plan: PlanView { changes: Seq::empty(), ..old(self)@.plan },
                ..old(self)@
            }),
    {
        self.plan.take_changes()
    }

    /// The exit code to use for the process.
    pub fn exit_code(&self) -> (r: ExitStatus)
        ensures
            r == self@.exit_code,
    {
        self.exit_code
    }

    /// How many edges were started.
    pub fn edges_started(&self) -> (r: u64)
        ensures
            r == self@.edges_started,
    {
        self.edges_started
    }

    /// How many edges finished.
    pub fn edges_finished(&self) -> (r: u64)
        ensures
            r == self@.edges_finished,
    {
        self.edges_finished
    }

    /// Explanations collected when `explain` is enabled.
    pub fn explanations(&self) -> (r: Option<&Explanations>)
        ensures
            match r {
                Some(e) => self@.notes == Some(e@),
                None => self@.notes is None,
            },
    {
        match &self.explanations {
            Some(e) => Some(e),
            None => None,
        }
    }

    /// True if there is nothing to do.
    pub fn already_up_to_date(&self) -> (r: bool)
        ensures
            r == !self@.more_to_do(),
    {
        !self.plan.more_to_do()
    }

    /// The time since the build started.
    pub fn elapsed(&self, now_millis: i64) -> (r: i64)
        ensures
            r == now_millis.wrapping_sub(self@.start_time),
    {
        now_millis.wrapping_sub(self.start_time_millis)
    }

    /// Get ready to run. Returns false if there is nothing to do.
    pub fn begin(&mut self, state: &mut State) -> (r: bool)
        requires
            old(state).wf(),
            old(self)@.plan.fits(old(state)@),
        ensures
            final(state).wf(),
            final(self)@.plan.fits(final(state)@),
            at_rest(old(state)@) ==> at_rest(final(state)@),
            final(state)@.nodes == old(state)@.nodes,
            r == old(self)@.more_to_do(),
            !r ==> final(self)@ == old(self)@ && final(state)@ == old(state)@,
            r && old(self)@.plan.ready.len() == 0 && old(self)@.plan.delayed.len() == 0
                ==> queued_once(final(self)@.plan, final(state)@) && (runs_unready(
                old(self)@.plan,
                old(state)@,
            ) ==> orderly(final(self)@.plan, final(state)@)),
            r ==> ({
                let w = initially_scheduled(
                    work(
                        old(self)@.plan,
                        weighed(old(state)@, old(self)@.plan.targets),
                        Seq::empty(),
                    ),
                );
                &&& final(state)@ == w.state
                &&& final(self)@ == (BuilderView {
                    plan: w.plan,
                    failures_left: old(self)@.config.failures_allowed,
                    pending: 0,
                    room: None,
                    recheck: false,
                    ..old(self)@
                })
            }),
    {
        if self.already_up_to_date() {
            return false;
        }
        self.plan.prepare_queue(state);
        self.failures_left = self.config.failures_allowed;
        self.pending = 0;
        self.room = None;
        self.recheck = false;
        true
    }

    /// Decide what is to be done next, when `available` more commands may be
    /// started right now: start as many commands as are allowed to, then reap
    /// the next one that finishes.
    pub fn next_step(&mut self, available: usize) -> (r: BuildStep)
        ensures
            (final(self)@, r) == old(self)@.step(available),
    {
        if self.room.is_none() && !self.plan.more_to_do() {
            return BuildStep::Finished;
        }
        match self.room {
            None => {
                if self.failures_left > 0 {
                    self.room = Some(available);
                }
            },
            Some(r) => {
                if self.recheck && available < r {
                    self.room = Some(available);
                }
            },
        }
        self.recheck = false;
        let may_start: bool = match self.room {
            Some(r) => r > 0,
            None => false,
        };
        if may_start {
            if let Some(edge) = self.plan.find_work() {
                return BuildStep::Start(edge);
            }
        }
        let started: bool = self.room.is_some();
        self.room = None;
        if started && self.pending == 0 && !self.plan.more_to_do() {
            BuildStep::Finished
        } else if self.pending > 0 {
            BuildStep::Wait
        } else {
            BuildStep::Stuck
        }
    }

    /// Why the build cannot go on.
    pub fn stuck_error(&self) -> (r: Error)
        ensures
            r@ == ErrorView::Build(self@.stuck_text()),
    {
        Error::Build(
            if self.failures_left == 0 {
                if self.config.failures_allowed > 1 {
                    "subcommands failed".to_owned()
                } else {
                    "subcommand failed".to_owned()
                }
            } else if self.failures_left < self.config.failures_allowed {
                "cannot make progress due to previous errors".to_owned()
            } else {
                "stuck [this is a bug]".to_owned()
            },
        )
    }

    /// Note that a command has been started.
    pub fn command_started(&mut self)
        ensures
            final(self)@ == old(self)@.command_started(),
    {
        self.pending = self.pending.wrapping_add(1);
        self.room = match self.room {
            Some(r) => Some(r.wrapping_sub(1)),
            None => None,
        };
        self.recheck = true;
    }

    /// True if what waiting for a command came to means that the build was
    /// interrupted: there is no result, or the command was interrupted.
    pub fn is_interrupted(result: &Option<CommandResult>) -> (r: bool)
        ensures
            r == (match *result {
                Some(c) => c.status.interrupted(),
                None => true,
            }),
    {
        match result {
            Some(c) => c.status.interrupted(),
            None => true,
        }
    }

    /// Note that a command has ended, and whether [`Builder::finish_command`]
    /// could work out what that means.
    pub fn command_ended(&mut self, status: ExitStatus, worked_out: bool)
        ensures
            final(self)@ == old(self)@.command_ended(status, worked_out),
    {
        self.pending = self.pending.wrapping_sub(1);
        if !status.success() {
            self.exit_code = status;
        } else if !worked_out {
            self.exit_code = ExitStatus::failure();
        }
        if worked_out && !status.success() && self.failures_left > 0 {
            self.failures_left = self.failures_left - 1;
        }
    }

    /// Note that the build stops with `status`.
    pub fn stop(&mut self, status: ExitStatus)
        ensures
            final(self)@ == (BuilderView { exit_code: status, ..old(self)@ }),
    {
        self.exit_code = status;
    }
}

/// What adding a target comes to.
pub open spec fn target_planned<D: DiskInterface>(
    c: Sources<D::Model>,
    w: Scanned,
    target: NodeId,
) -> Result<Scanned, Cut<Scanned>> {
    match queue_visited::<D>(c, scan_start(w), seq![target]) {
        Err(f) => cut(f.error, Scanned { state: f.at.state, notes: f.at.notes, ..w }),
        Ok(p) => {
            let s = p.state;
            let needed = match s.nodes[target.0 as int].in_edge {
                None => true,
                Some(e) => !s.edges[e.0 as int].outputs_ready,
            };
            let first = if needed {
                with_target(w.plan, s, target)
            } else {
                Ok((w.plan, false))
            };
            match first {
                Err(f) => cut(f.error, Scanned { plan: f.at, state: s, notes: p.notes }),
                Ok((q, _)) => match with_unready_targets(q, s, p.validations, 0) {
                    Err(f) => cut(f.error, Scanned { plan: f.at, state: s, notes: p.notes }),
                    Ok(plan) => Ok(Scanned { plan, state: s, notes: p.notes }),
                },
            }
        },
    }
}

impl Builder {
    /// Scan `target` and add whatever needs building to the plan.
    pub fn add_target<D: DiskInterface>(
        &mut self,
        state: &mut State,
        disk: &D,
        logs: &Logs,
        target: NodeId,
    ) -> (r: Result<(), Error>)
        requires
            old(state).wf(),
            old(self)@.plan.fits(old(state)@),
            at_rest(old(state)@),
            logs@.fits(old(state)@.nodes.len()),
            target.0 < old(state)@.nodes.len(),
        ensures
            final(state).wf(),
            old(state)@.nodes.len() <= final(state)@.nodes.len(),
            r is Ok ==> final(self)@.plan.fits(final(state)@) && at_rest(final(state)@),
            match (r, target_planned::<D>(
                sources_of(disk.model(), logs@),
                old(self)@.scanned(old(state)@),
                target,
            )) {
                (Ok(_), Ok(w)) => final(state)@ == w.state && final(self)@ == (BuilderView {
                    plan: w.plan,
                    notes: w.notes,
                    ..old(self)@
                }),
                (Err(e), Err(f)) => e@ == f.error && final(state)@ == f.at.state && final(self)@ == (
                BuilderView { plan: f.at.plan, notes: f.at.notes, ..old(self)@ }),
                _ => false,
            },
    {
        let ghost b0 = self@;
        let ghost s0 = state@;
        let ghost none = Seq::<NodeId>::empty();
        let scan = DependencyScan::new(disk, logs.build_log(), logs.deps_log());
        let mut validations: Vec<NodeId> = Vec::new();
        proof {
            assert(validations@ =~= none);
            assert(scan_start(b0.scanned(s0)) == progress(s0, self.explanations, none, none));
        }
        match scan.recompute_dirty(state, &mut self.explanations, target, &mut validations) {
            Err(e) => {
                return Err(e);
            },
            Ok(_) => {},
        }
        proof {
            state.lemma_wf();
            assert(state@.node_ok(state@.nodes[target.0 as int]));
            assert(b0.plan.fits(state@));
        }
        let needed: bool = match state.node(target).in_edge() {
            None => true,
            Some(e) => !state.edge(e).outputs_ready(),
        };
        if needed {
            match self.plan.add_target(state, target) {
                Err(e) => {
                    return Err(e);
                },
                Ok(_) => {},
            }
        }
        // Validations found while scanning become extra top-level targets.
        self.plan.add_unready_targets(state, validations.as_slice())
    }

    /// Add a target by path, resolving it in the graph first.
    pub fn add_target_by_name<D: DiskInterface>(
        &mut self,
        state: &mut State,
        disk: &D,
        logs: &Logs,
        name: &str,
    ) -> (r: Result<NodeId, Error>)
        requires
            old(state).wf(),
            old(self)@.plan.fits(old(state)@),
            at_rest(old(state)@),
            logs@.fits(old(state)@.nodes.len()),
        ensures
            final(state).wf(),
            old(state)@.nodes.len() <= final(state)@.nodes.len(),
            r is Ok ==> final(self)@.plan.fits(final(state)@) && at_rest(final(state)@),
            match old(state)@.find_node(name@) {
                None => final(self)@ == old(self)@ && final(state)@ == old(state)@ && (r matches Err(e)
                    && e@ == ErrorView::Build("unknown target: '"@ + name@ + "'"@)),
                Some(n) => match (r, target_planned::<D>(
                    sources_of(disk.model(), logs@),
                    old(self)@.scanned(old(state)@),
                    n,
                )) {
                    (Ok(m), Ok(w)) => m == n && final(state)@ == w.state && final(self)@ == (
                    BuilderView { plan: w.plan, notes: w.notes, ..old(self)@ }),
                    (Err(e), Err(f)) => e@ == f.error && final(state)@ == f.at.state && final(self)@ == (
                    BuilderView { plan: f.at.plan, notes: f.at.notes, ..old(self)@ }),
                    _ => false,
                },
            },
    {
        proof {
            state.lemma_wf();
            crate::state::lemma_node_index(state@.nodes, name@, 0);
        }
        match state.lookup_node(name) {
            None => Err(Error::Build(quoted("unknown target: '", name, "'"))),
            Some(n) => match self.add_target(state, disk, logs, n) {
                Err(e) => Err(e),
                Ok(_) => Ok(n),
            },
        }
    }
}

/// Once as many commands have failed as may, nothing more is started: what
/// runs is waited for, and then the build cannot go on.
pub proof fn law_failures_stop_the_build(b: BuilderView, available: usize)
    requires
        b.failures_left == 0,
        b.room is None,
        b.more_to_do(),
    ensures
        b.pending > 0 ==> b.step(available).1 == BuildStep::Wait,
        b.pending == 0 ==> b.step(available).1 == BuildStep::Stuck,
        b.step(available).0.stuck_text() == (if b.config.failures_allowed > 1 {
            "subcommands failed"@
        } else {
            "subcommand failed"@
        }),
{
}

/// A command is started only where there is room for it, and takes up one place
/// of it.
pub proof fn law_starts_stay_within_the_room(b: BuilderView, available: usize)
    requires
        b.step(available).1 is Start,
    ensures
        ({
            let room = match b.room {
                None => available,
                Some(r) => if b.recheck && available < r {
                    available
                } else {
                    r
                },
            };
            &&& room > 0
            &&& b.step(available).0.command_started().room == Some((room - 1) as usize)
        }),
{
}

/// A build is finished only when nothing is left to do.
pub proof fn law_finished_means_done(b: BuilderView, available: usize)
    requires
        b.step(available).1 == BuildStep::Finished,
    ensures
        !b.more_to_do(),
{
}

} // verus!
