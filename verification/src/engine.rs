//! The high-level entry point: load a manifest, keep the logs, run builds.
//!
//! An [`Engine`] holds what a build needs. The files of the logs, the clock and
//! the commands belong to whoever drives it: it is given what the files hold and
//! says what is to be written, and it says what is to be built next.

use vstd::prelude::*;
use vstd::string::*;

use crate::build::{BuildConfig, Builder, Logs};
use crate::build_log::{BuildLog, LoadStatus};
use crate::canon::canonicalize_path;
use crate::clean::{CleanReport, Cleaner};
use crate::deps_log::{DepsLog, Repair};
use crate::disk::{make_dirs, DiskInterface};
use crate::error::Error;
use crate::exec::ExitStatus;
use crate::parse::{quoted, ManifestParser, ParserOptions, PhonyCycleAction};
use crate::state::{EdgeId, NodeId, State};
use crate::tools::collect_targets;

verus! {

use crate::build::{sources_of, target_planned, BuilderView, LogsView};
use crate::build_log::{
    first_unseen, is_log_text, is_mostly_stale, lines_read, load_start, restated, restated_before,
    selects, Entries,
};
use crate::canon::canonical;
use crate::clean::{all_cleaned, dead_cleaned, rules_cleaned, targets_cleaned};
use crate::deps_log::{
    load_repair, load_warning, loaded as deps_loaded, outputs_known, recompacted, DepsLogView,
};
use crate::disk::{dirs_made, Outcome};
use crate::dyndep::{all_loaded, marks_kept};
use crate::error::{error_text, ErrorView};
use crate::eval::root_scope;
use crate::graph::at_rest;
use crate::lexer::LexerView;
use crate::parse::{files_of, loaded, statements, Parsed, Stopped, MAX_DEPTH};
use crate::state::{initial_state, nodes_below, EdgeView, StateView};
use crate::text::texts;
use crate::tools::{are_targets, is_first_complaint};

/// How many times the manifest may regenerate itself before we give up.
pub const MANIFEST_REBUILD_LIMIT: usize = 100;

/// Options for [`Engine`].
#[derive(Copy, Clone, Debug)]
pub struct EngineOptions {
    /// How the build itself behaves.
    pub build: BuildConfig,
    /// How the manifest is parsed.
    pub parser: ParserOptions,
    /// Rebuild the manifest first if the manifest is itself a build output.
    pub rebuild_manifest: bool,
}

impl Default for EngineOptions {
    fn default() -> (r: EngineOptions)
        ensures
            r.build == crate::build::default_config(2),
            r.parser.phony_cycle_action == PhonyCycleAction::Warn,
            !r.parser.quiet,
            r.rebuild_manifest,
    {
        EngineOptions {
            build: BuildConfig::default(),
            parser: ParserOptions::default(),
            rebuild_manifest: true,
        }
    }
}

/// What a build did.
#[derive(Copy, Clone, PartialEq, Eq, Structural, Debug, Default)]
pub struct BuildSummary {
    /// True if nothing needed doing.
    pub up_to_date: bool,
    /// How many edges were started.
    pub edges_started: u64,
    /// How many edges finished.
    pub edges_finished: u64,
    /// True if the manifest regenerated itself and the build restarted.
    pub manifest_rebuilt: bool,
}

/// How a build goes on after its manifest has been looked at.
#[derive(Copy, Clone, PartialEq, Eq, Structural, Debug)]
pub enum ManifestStep {
    /// The manifest is as it was: build the targets.
    Build,
    /// The manifest has changed: load it, and start the next round.
    Reload,
    /// There is nothing more to do.
    Stop(BuildSummary),
}

/// What is to become of the files of the logs.
#[derive(Debug)]
pub struct LogFiles {
    /// Whether the file of the build log is of no use and goes.
    pub remove_build_log: bool,
    /// What the file of the build log is to hold instead, if anything.
    pub build_log: Option<String>,
    /// What is to become of the file of the deps log first.
    pub deps_repair: Repair,
    /// What the file of the deps log is to hold instead, if anything.
    pub deps_log: Option<Vec<u8>>,
}

/// A loaded build: the graph, the logs, and the options to build it with.
pub struct Engine<D: DiskInterface> {
    pub state: State,
    pub disk: D,
    pub logs: Logs,
    pub build_dir: String,
    pub manifest_path: String,
    pub options: EngineOptions,
    pub warnings: Vec<String>,
    pub exit_code: ExitStatus,
    pub build_log_found: bool,
    pub deps_log_found: bool,
}

/// The graph of a manifest, and the warnings about it.
pub open spec fn manifest_read<D: DiskInterface>(
    m: D::Model,
    options: ParserOptions,
    path: Seq<char>,
) -> Result<Parsed, Stopped> {
    loaded(
        files_of::<D>(m),
        options,
        Parsed { state: initial_state(), warnings: Seq::empty() },
        path,
        root_scope(),
        None,
        MAX_DEPTH as nat,
    )
}

/// The graph of a manifest that is given as text, and the warnings about it.
pub open spec fn text_read<D: DiskInterface>(
    m: D::Model,
    options: ParserOptions,
    filename: Seq<char>,
    text: Seq<u8>,
) -> Result<Parsed, Stopped> {
    statements(
        files_of::<D>(m),
        options,
        Parsed { state: initial_state(), warnings: Seq::empty() },
        root_scope(),
        LexerView { filename, input: text, ofs: 0, last: None },
        MAX_DEPTH as nat,
    )
}

/// What making the build directory comes to. A dry run makes none.
pub open spec fn build_dir_made<D: DiskInterface>(m: D::Model, dir: Seq<char>, dry_run: bool) -> (
    Outcome<()>,
    D::Model,
) {
    if dir.len() > 0 && !dry_run {
        dirs_made::<D>(m, dir + "/."@)
    } else {
        (Ok(()), m)
    }
}

/// The path of a file in the build directory.
pub open spec fn in_build_dir(dir: Seq<char>, name: Seq<char>) -> Seq<char> {
    if dir.len() == 0 {
        name
    } else {
        dir + "/"@ + name
    }
}

/// Whether `path` is no longer produced by the build and no longer exists.
/// Entries for files that still exist are kept: generators may want them.
pub open spec fn is_gone<D: DiskInterface>(m: D::Model, s: StateView, path: Seq<char>) -> bool {
    let made = s.find_node(path) matches Some(n) && s.nodes[n.0 as int].in_edge is Some;
    let there = D::mtime_of(m, path) matches Ok(t) && t != 0;
    !made && !there
}

/// The entries of a build log whose outputs are not gone.
pub open spec fn kept_entries<D: DiskInterface>(m: D::Model, s: StateView, entries: Entries) -> Entries {
    Map::new(
        |k: Seq<char>| entries.contains_key(k) && !is_gone::<D>(m, s, k),
        |k: Seq<char>| entries[k],
    )
}

fn is_path_dead<D: DiskInterface>(state: &State, disk: &D, path: &str) -> (r: bool)
    requires
        state.wf(),
    ensures
        r == is_gone::<D>(disk.model(), state@, path@),
{
    proof {
        state.lemma_wf();
    }
    if let Some(n) = state.lookup_node(path) {
        if state.node(n).in_edge().is_some() {
            return false;
        }
    }
    match disk.stat(path) {
        Ok(t) => t == 0,
        Err(_) => true,
    }
}

fn recompact_build_log<D: DiskInterface>(log: &mut BuildLog, state: &State, disk: &D) -> (r: String)
    requires
        state.wf(),
    ensures
        final(log).recorded() == kept_entries::<D>(disk.model(), state@, old(log).recorded()),
        is_log_text(r@, final(log).recorded()),
        !final(log).stale(),
{
    let ghost before = log.recorded();
    let ghost m = disk.model();
    let dead = |path: &str| -> (r: bool)
        requires
            state.wf(),
        ensures
            r == is_gone::<D>(disk.model(), state@, path@),
        { is_path_dead(state, disk, path) };
    let text = log.recompact(dead);
    proof {
        let after = log.recorded();
        let want = kept_entries::<D>(m, state@, before);
        assert forall|k: Seq<char>| after.contains_key(k) <==> want.contains_key(k) by {
            if before.contains_key(k) {
                assert(crate::build_log::judged(dead, k, !after.contains_key(k)));
            }
        }
        assert(after =~= want);
    }
    text
}

impl<D: DiskInterface> Engine<D> {
    /// Whether the parts of the engine belong together.
    pub open spec fn wf(&self) -> bool {
        &&& self.state.wf()
        &&& at_rest(self.state@)
        &&& self.logs.build_log is Some
        &&& self.logs.deps_log is Some
        &&& self.logs@.fits(self.state@.nodes.len())
    }

    /// Whether the engine has been made for a manifest, and the logs have not
    /// been opened yet.
    pub open spec fn is_fresh(
        &self,
        p: Parsed,
        m: D::Model,
        path: Seq<char>,
        options: EngineOptions,
    ) -> bool {
        &&& self.wf()
        &&& self.state@ == p.state
        &&& texts(self.warnings@) == p.warnings
        &&& self.disk.model() == m
        &&& self.manifest_path@ == path
        &&& self.build_dir@ == p.state.scopes.value(0, "builddir"@)
        &&& self.options == options
        &&& self.has_empty_logs()
    }

    /// Whether no file of a log has been found yet.
    pub open spec fn no_log_found(&self) -> bool {
        !self.build_log_found && !self.deps_log_found
    }

    /// Whether nothing is in the logs.
    pub open spec fn has_empty_logs(&self) -> bool {
        self.logs@ == (LogsView {
            build: Some(Map::empty()),
            stale: false,
            deps: Some(crate::deps_log::empty_log()),
            lines: Seq::empty(),
            bytes: Seq::empty(),
        })
    }

    fn with_state(
        state: State,
        disk: D,
        manifest_path: String,
        options: EngineOptions,
        warnings: Vec<String>,
    ) -> (r: Engine<D>)
        requires
            state.wf(),
            at_rest(state@),
        ensures
            r.exit_code == ExitStatus(0),
            r.no_log_found(),
            r.is_fresh(
                Parsed { state: state@, warnings: texts(warnings@) },
                disk.model(),
                manifest_path@,
                options,
            ),
    {
        let build_dir: String = state.global_binding("builddir");
        let r = Engine {
            state,
            disk,
            logs: Logs::new(Some(BuildLog::new()), Some(DepsLog::new())),
            build_dir,
            manifest_path,
            options,
            warnings,
            exit_code: ExitStatus::ok(),
            build_log_found: false,
            deps_log_found: false,
        };
        assert(crate::deps_log::empty_log().fits(r.state@.nodes.len()));
        r
    }

    /// Load `manifest_path` and make the build directory. The logs are opened
    /// by [`Engine::open_logs`].
    pub fn load(disk: D, manifest_path: &str, options: EngineOptions) -> (r: Result<
        Engine<D>,
        Error,
    >)
        ensures
            match (r, manifest_read::<D>(disk.model(), options.parser, manifest_path@)) {
                (Err(e), Err((f, _))) => e@ == f,
                (r, Ok(p)) => ({
                    let made = build_dir_made::<D>(
                        disk.model(),
                        p.state.scopes.value(0, "builddir"@),
                        options.build.dry_run,
                    );
                    match (r, made.0) {
                        (Ok(engine), Ok(_)) => engine.exit_code == ExitStatus(0)
                            && engine.no_log_found() && engine.is_fresh(
                            p,
                            made.1,
                            manifest_path@,
                            options,
                        ),
                        (Err(e), Err(f)) => e@ == f,
                        _ => false,
                    }
                }),
                _ => false,
            },
    {
        let mut state = State::new();
        let mut parser = ManifestParser::new(options.parser);
        match parser.load(&mut state, &disk, manifest_path) {
            Err(e) => {
                return Err(e);
            },
            Ok(_) => {},
        }
        let warnings = parser.take_warnings();
        let mut engine = Engine::with_state(
            state,
            disk,
            manifest_path.to_owned(),
            options,
            warnings,
        );
        match engine.ensure_build_dir_exists() {
            Err(e) => Err(e),
            Ok(_) => Ok(engine),
        }
    }

    /// Load a manifest from memory, without opening any logs.
    ///
    /// Useful for embedders that generate manifests programmatically and drive
    /// the graph themselves.
    pub fn from_manifest_text(disk: D, filename: &str, text: &str, options: EngineOptions) -> (r:
        Result<Engine<D>, Error>)
        ensures
            match (r, text_read::<D>(
                disk.model(),
                options.parser,
                filename@,
                text.spec_bytes(),
            )) {
                (Ok(engine), Ok(p)) => engine.exit_code == ExitStatus(0) && engine.no_log_found()
                    && engine.is_fresh(p, disk.model(), filename@, options),
                (Err(e), Err((f, _))) => e@ == f,
                _ => false,
            },
    {
        let mut state = State::new();
        let mut parser = ManifestParser::new(options.parser);
        match parser.parse_text(&mut state, &disk, filename, text.as_bytes()) {
            Err(e) => {
                return Err(e);
            },
            Ok(_) => {},
        }
        let warnings = parser.take_warnings();
        Ok(Engine::with_state(state, disk, filename.to_owned(), options, warnings))
    }

    fn ensure_build_dir_exists(&mut self) -> (r: Result<(), Error>)
        ensures
            *final(self) == (Engine { disk: final(self).disk, ..*old(self) }),
            ({
                let made = build_dir_made::<D>(
                    old(self).disk.model(),
                    old(self).build_dir@,
                    old(self).options.build.dry_run,
                );
                &&& final(self).disk.model() == made.1
                &&& crate::disk::same_outcome(r, made.0)
            }),
    {
        if !self.build_dir.as_str().is_empty() && !self.options.build.dry_run {
            let mut marker: String = self.build_dir.clone();
            marker.append("/.");
            return make_dirs(&mut self.disk, marker.as_str());
        }
        Ok(())
    }

    fn log_path(&self, name: &str) -> (r: String)
        ensures
            r@ == in_build_dir(self.build_dir@, name@),
    {
        if self.build_dir.as_str().is_empty() {
            name.to_owned()
        } else {
            let mut path: String = self.build_dir.clone();
            path.append("/");
            path.append(name);
            path
        }
    }

    /// The path of the build log.
    pub fn build_log_path(&self) -> (r: String)
        ensures
            r@ == in_build_dir(self.build_dir@, ".ninja_log"@),
    {
        self.log_path(".ninja_log")
    }

    /// The path of the deps log.
    pub fn deps_log_path(&self) -> (r: String)
        ensures
            r@ == in_build_dir(self.build_dir@, ".ninja_deps"@),
    {
        self.log_path(".ninja_deps")
    }

    /// Warnings produced while loading.
    pub fn warnings(&self) -> (r: &[String])
        ensures
            r@ == self.warnings@,
    {
        self.warnings.as_slice()
    }

    /// Take the accumulated warnings.
    pub fn take_warnings(&mut self) -> (r: Vec<String>)
        ensures
            r@ == old(self).warnings@,
            final(self).warnings@.len() == 0,
            *final(self) == (Engine { warnings: final(self).warnings, ..*old(self) }),
    {
        let mut out: Vec<String> = Vec::new();
        std::mem::swap(&mut out, &mut self.warnings);
        out
    }

    /// The build graph.
    pub fn state(&self) -> (r: &State)
        ensures
            *r == self.state,
    {
        &self.state
    }

    /// Mutable access to the build graph.
    pub fn state_mut(&mut self) -> (r: &mut State)
        ensures
            *r == old(self).state,
            *final(self) == (Engine { state: *final(r), ..*old(self) }),
    {
        &mut self.state
    }

    /// The filesystem in use.
    pub fn disk(&self) -> (r: &D)
        ensures
            *r == self.disk,
    {
        &self.disk
    }

    /// The graph, the filesystem and the deps log at once, for tools that need
    /// to update the graph while reading the rest.
    pub fn split_mut(&mut self) -> (r: (&mut State, &D, &DepsLog))
        requires
            old(self).wf(),
        ensures
            *r.0 == old(self).state,
            *r.1 == old(self).disk,
            Some(*r.2) == old(self).logs.deps_log,
            *final(self) == (Engine { state: *final(r.0), ..*old(self) }),
    {
        (&mut self.state, &self.disk, self.logs.deps_log.as_ref().unwrap())
    }

    /// The build log.
    pub fn build_log(&self) -> (r: &BuildLog)
        requires
            self.wf(),
        ensures
            r.recorded() == self.logs@.build->0,
    {
        self.logs.build_log.as_ref().unwrap()
    }

    /// The deps log.
    pub fn deps_log(&self) -> (r: &DepsLog)
        requires
            self.wf(),
        ensures
            r@ == self.logs@.deps->0,
    {
        self.logs.deps_log.as_ref().unwrap()
    }

    /// True if [`Engine::recompact_logs`] can be asked for: the deps log names
    /// every file of which it has dependencies.
    pub fn can_recompact(&self) -> (r: bool)
        requires
            self.wf(),
        ensures
            r == (self.deps_log_found ==> outputs_known(self.logs@.deps->0)),
    {
        !self.deps_log_found || self.deps_log().knows_outputs()
    }

    /// The build options.
    pub fn config(&self) -> (r: &BuildConfig)
        ensures
            *r == self.options.build,
    {
        &self.options.build
    }

    /// Mutable access to the build configuration.
    pub fn config_mut(&mut self) -> (r: &mut BuildConfig)
        ensures
            *r == old(self).options.build,
            *final(self) == (Engine {
                options: EngineOptions { build: *final(r), ..old(self).options },
                ..*old(self)
            }),
    {
        &mut self.options.build
    }

    /// The exit code the process should use.
    pub fn exit_code(&self) -> (r: ExitStatus)
        ensures
            r == self.exit_code,
    {
        self.exit_code
    }
}

/// What is read from the file of a build log.
pub struct LogRead {
    pub entries: Entries,
    /// Whether the log should be rewritten.
    pub stale: bool,
    pub found: bool,
    pub warning: Option<Seq<char>>,
}

/// What is read from the file of a build log, if there is one.
pub open spec fn build_log_read(c: Option<Seq<u8>>) -> LogRead {
    match c {
        None => LogRead { entries: Map::empty(), stale: false, found: false, warning: None },
        Some(c) => match lines_read(c, 0, load_start(Map::empty())) {
            Err(m) => LogRead {
                entries: Map::empty(),
                stale: false,
                found: false,
                warning: Some(m),
            },
            Ok(s) => LogRead {
                entries: s.entries,
                stale: is_mostly_stale(s),
                found: true,
                warning: None,
            },
        },
    }
}

/// A list with one more text behind it, if there is one.
pub open spec fn with_optional(v: Seq<Seq<char>>, t: Option<Seq<char>>) -> Seq<Seq<char>> {
    match t {
        Some(t) => v.push(t),
        None => v,
    }
}

/// The deps log and the graph after the log has been rewritten where it should
/// be, with the error on the way, if any. A log with dependencies of a file that
/// it does not name stays as it is.
pub open spec fn deps_log_opened(log: DepsLogView, s: StateView) -> (
    DepsLogView,
    StateView,
    Option<Seq<u8>>,
    Option<Seq<char>>,
) {
    if log.stale && outputs_known(log) {
        let w = recompacted(log, s);
        match w.error {
            None => (w.log, w.state, Some(w.bytes), None),
            Some(e) => (log, w.state, None, Some(e)),
        }
    } else {
        (log, s, None, None)
    }
}

fn push_optional(v: &mut Vec<String>, t: Option<String>)
    ensures
        texts(final(v)@) == with_optional(
            texts(old(v)@),
            match t {
                Some(t) => Some(t@),
                None => None,
            },
        ),
{
    if let Some(t) = t {
        v.push(t);
        assert(texts(v@) =~= texts(old(v)@).push(t@));
    }
}

impl<D: DiskInterface> Engine<D> {
    /// Take over the logs from what their files hold (`None` where there is no
    /// file), and say what is to become of the files. A dry run leaves them as
    /// they are, unless they are of no use.
    #[verifier::rlimit(40)]
    pub fn open_logs(&mut self, build_log: Option<&[u8]>, deps_log: Option<&[u8]>) -> (r: Result<
        LogFiles,
        Error,
    >)
        requires
            old(self).wf(),
            old(self).has_empty_logs(),
        ensures
            final(self).wf(),
            ({
                let c = crate::deps_log::optional_bytes(deps_log);
                let b = build_log_read(crate::deps_log::optional_bytes(build_log));
                let empty = crate::deps_log::empty_log();
                let s0 = old(self).state@;
                let (read, s1) = deps_loaded(empty, s0, c);
                let dry = old(self).options.build.dry_run;
                let (log, s2, bytes, error) = if dry {
                    (read, s1, None, None)
                } else {
                    deps_log_opened(read, s1)
                };
                let rewrite = b.stale && !dry;
                &&& final(self).state@ == s2
                &&& final(self).logs@ == (LogsView {
                    build: Some(
                        if rewrite {
                            kept_entries::<D>(old(self).disk.model(), s1, b.entries)
                        } else {
                            b.entries
                        },
                    ),
                    stale: b.stale && dry,
                    deps: Some(log),
                    ..old(self).logs@
                })
                &&& texts(final(self).warnings@) == with_optional(
                    with_optional(texts(old(self).warnings@), b.warning),
                    load_warning(empty, s0, c),
                )
                &&& final(self).build_log_found == b.found
                &&& final(self).deps_log_found == (deps_log is Some)
                &&& *final(self) == (Engine {
                    state: final(self).state,
                    logs: final(self).logs,
                    warnings: final(self).warnings,
                    build_log_found: final(self).build_log_found,
                    deps_log_found: final(self).deps_log_found,
                    ..*old(self)
                })
                &&& match (r, error) {
                    (Ok(f), None) => {
                        &&& f.remove_build_log == (b.warning is Some)
                        &&& f.deps_repair == load_repair(empty, s0, c)
                        &&& match f.build_log {
                            Some(text) => rewrite && is_log_text(
                                text@,
                                final(self).logs@.build->0,
                            ),
                            None => !rewrite,
                        }
                        &&& match (f.deps_log, bytes) {
                            (Some(v), Some(w)) => v@ == w,
                            (None, None) => true,
                            _ => false,
                        }
                    },
                    (Err(e), Some(m)) => e@ == ErrorView::Build(m),
                    _ => false,
                }
            }),
    {
        let ghost s0 = self.state@;
        let dry_run: bool = self.options.build.dry_run;
        let mut log = BuildLog::new();
        let read = log.load(build_log);
        self.build_log_found = read.status == LoadStatus::Success;
        let remove_build_log: bool = read.warning.is_some();
        push_optional(&mut self.warnings, read.warning);

        let mut deps = DepsLog::new();
        proof {
            assert(deps@.fits(s0.nodes.len()));
        }
        let found = deps.load(deps_log, &mut self.state);
        self.deps_log_found = found.status == LoadStatus::Success;
        push_optional(&mut self.warnings, found.warning);
        assert(at_rest(self.state@));

        let mut text: Option<String> = None;
        if !dry_run && log.needs_recompaction() {
            text = Some(recompact_build_log(&mut log, &self.state, &self.disk));
        }
        let mut bytes: Option<Vec<u8>> = None;
        let mut error: Option<Error> = None;
        if !dry_run && deps.needs_recompaction() && deps.knows_outputs() {
            match deps.recompact(&mut self.state) {
                Ok(v) => {
                    bytes = Some(v);
                },
                Err(e) => {
                    error = Some(e);
                },
            }
        }
        assert(at_rest(self.state@));
        self.logs.build_log = Some(log);
        self.logs.deps_log = Some(deps);
        match error {
            Some(e) => Err(e),
            None => Ok(
                LogFiles {
                    remove_build_log,
                    build_log: text,
                    deps_repair: found.repair,
                    deps_log: bytes,
                },
            ),
        }
    }

    /// Recompact both logs (`-t recompact`), and say what their files are to
    /// hold.
    ///
    /// A log that does not exist is left alone rather than created.
    pub fn recompact_logs(&mut self) -> (r: Result<(Option<String>, Option<Vec<u8>>), Error>)
        requires
            old(self).wf(),
            old(self).deps_log_found ==> outputs_known(old(self).logs@.deps->0),
        ensures
            final(self).wf(),
            ({
                let w = recompacted(old(self).logs@.deps->0, old(self).state@);
                let done = old(self).deps_log_found && w.error is None;
                &&& final(self).state@ == (if old(self).deps_log_found {
                    w.state
                } else {
                    old(self).state@
                })
                &&& final(self).logs@ == (LogsView {
                    build: if old(self).build_log_found {
                        Some(
                            kept_entries::<D>(
                                old(self).disk.model(),
                                old(self).state@,
                                old(self).logs@.build->0,
                            ),
                        )
                    } else {
                        old(self).logs@.build
                    },
                    stale: !old(self).build_log_found && old(self).logs@.stale,
                    deps: if done {
                        Some(w.log)
                    } else {
                        old(self).logs@.deps
                    },
                    ..old(self).logs@
                })
                &&& *final(self) == (Engine {
                    state: final(self).state,
                    logs: final(self).logs,
                    ..*old(self)
                })
                &&& match r {
                    Ok((text, bytes)) => {
                        &&& !old(self).deps_log_found || w.error is None
                        &&& match text {
                            Some(t) => old(self).build_log_found && is_log_text(
                                t@,
                                final(self).logs@.build->0,
                            ),
                            None => !old(self).build_log_found,
                        }
                        &&& match bytes {
                            Some(v) => old(self).deps_log_found && v@ == w.bytes,
                            None => !old(self).deps_log_found,
                        }
                    },
                    Err(e) => old(self).deps_log_found && w.error is Some && e@
                        == ErrorView::Build(w.error->0),
                }
            }),
    {
        let mut text: Option<String> = None;
        if self.build_log_found {
            if let Some(log) = &mut self.logs.build_log {
                text = Some(recompact_build_log(log, &self.state, &self.disk));
            }
        }
        let mut bytes: Option<Vec<u8>> = None;
        if self.deps_log_found {
            if let Some(log) = &mut self.logs.deps_log {
                let written = log.recompact(&mut self.state);
                assert(at_rest(self.state@));
                match written {
                    Ok(v) => {
                        bytes = Some(v);
                    },
                    Err(e) => {
                        return Err(e);
                    },
                }
            }
        }
        Ok((text, bytes))
    }
}

/// When a command last ran, how long it took.
pub open spec fn last_duration(entries: Entries, s: StateView, outputs: Seq<NodeId>, k: int) -> Option<
    i64,
>
    decreases outputs.len() - k,
{
    if 0 <= k < outputs.len() {
        let path = s.nodes[outputs[k].0 as int].path;
        if entries.contains_key(path) {
            Some(entries[path].end_time.wrapping_sub(entries[path].start_time) as i64)
        } else {
            last_duration(entries, s, outputs, k + 1)
        }
    } else {
        None
    }
}

/// The graph in which it is noted of the edges from the `k`-th on how long they
/// took.
pub open spec fn durations_noted(entries: Entries, s: StateView, k: int) -> StateView
    decreases s.edges.len() - k,
{
    if 0 <= k < s.edges.len() {
        let t = match last_duration(entries, s, s.edges[k].outputs, 0) {
            None => s,
            Some(d) => s.with_edge(
                k,
                EdgeView { prev_elapsed_time_millis: d, ..s.edges[k] },
            ),
        };
        if t.edges.len() == s.edges.len() {
            durations_noted(entries, t, k + 1)
        } else {
            s
        }
    } else {
        s
    }
}

fn find_last_duration(log: &BuildLog, state: &State, edge: EdgeId) -> (r: Option<i64>)
    requires
        state.wf(),
        edge.0 < state@.edges.len(),
    ensures
        r == last_duration(log.recorded(), state@, state@.edges[edge.0 as int].outputs, 0),
{
    let outputs = state.edge(edge).outputs();
    proof {
        state.lemma_wf();
        assert(state@.edge_ok(state@.edges[edge.0 as int]));
    }
    let ghost want = last_duration(log.recorded(), state@, outputs@, 0);
    let mut k: usize = 0;
    while k < outputs.len()
        invariant
            k <= outputs@.len(),
            nodes_below(outputs@, state@.nodes.len()),
            outputs@ == state@.edges[edge.0 as int].outputs,
            want == last_duration(log.recorded(), state@, outputs@, 0),
            last_duration(log.recorded(), state@, outputs@, k as int) == want,
        decreases outputs@.len() - k,
    {
        if let Some(entry) = log.lookup_by_output(state.node(outputs[k]).path()) {
            return Some(entry.end_time.wrapping_sub(entry.start_time) as i64);
        }
        k += 1;
    }
    None
}

impl<D: DiskInterface> Engine<D> {
    /// Re-stat the outputs recorded in the build log (`-t restat`), and say what
    /// its file is to hold.
    pub fn restat_log(&mut self, outputs: &[String]) -> (r: Result<Option<String>, Error>)
        requires
            old(self).wf(),
        ensures
            final(self).wf(),
            *final(self) == (Engine { logs: final(self).logs, ..*old(self) }),
            !old(self).build_log_found ==> final(self).logs@ == old(self).logs@ && (r matches Ok(
                None,
            )),
            old(self).build_log_found ==> match r {
                Ok(text) => text is Some && is_log_text(
                    text->0@,
                    final(self).logs@.build->0,
                ) && final(self).logs@ == (LogsView {
                    build: Some(
                        restated::<D>(
                            old(self).logs@.build->0,
                            old(self).disk.model(),
                            texts(outputs@),
                        ),
                    ),
                    ..old(self).logs@
                }) && forall|k: Seq<char>| #[trigger]
                    old(self).logs@.build->0.contains_key(k) && selects(texts(outputs@), k)
                        ==> D::mtime_of(old(self).disk.model(), k) is Ok,
                Err(e) => exists|k: Seq<char>| #[trigger]
                    first_unseen::<D>(
                        old(self).logs@.build->0,
                        old(self).disk.model(),
                        texts(outputs@),
                        k,
                        e@,
                    ) && final(self).logs@ == (LogsView {
                        build: Some(
                            restated_before::<D>(
                                old(self).logs@.build->0,
                                old(self).disk.model(),
                                texts(outputs@),
                                k,
                            ),
                        ),
                        ..old(self).logs@
                    }),
            },
    {
        if !self.build_log_found {
            return Ok(None);
        }
        match &mut self.logs.build_log {
            None => Ok(None),
            Some(log) => match log.restat(&self.disk, outputs) {
                Err(e) => Err(e),
                Ok(text) => Ok(Some(text)),
            },
        }
    }

    /// Resolve target names (or the manifest's defaults, when empty).
    pub fn resolve_targets(&self, names: &[String]) -> (r: Result<Vec<NodeId>, Error>)
        requires
            self.wf(),
        ensures
            r matches Ok(v) ==> nodes_below(v@, self.state@.nodes.len()),
            names@.len() == 0 ==> match (r, self.state@.default_targets()) {
                (Ok(v), Ok(w)) => v@ == w,
                (Err(e), Err(m)) => e@ == ErrorView::Graph(m),
                _ => false,
            },
            names@.len() > 0 ==> match r {
                Ok(v) => are_targets(v@, self.state@, self.logs@.deps, texts(names@)),
                Err(e) => is_first_complaint(e, self.state@, self.logs@.deps, texts(names@)),
            },
    {
        let log: Option<&DepsLog> = match &self.logs.deps_log {
            Some(l) => Some(l),
            None => None,
        };
        collect_targets(&self.state, log, names)
    }

    /// The node of the manifest itself, if it is in the graph.
    pub fn manifest_target(&self) -> (r: Result<Option<NodeId>, Error>)
        requires
            self.wf(),
        ensures
            match r {
                Ok(n) => self.manifest_path@.len() > 0 && n == self.state@.find_node(
                    canonical(self.manifest_path@),
                ) && (n matches Some(n) ==> n.0 < self.state@.nodes.len()),
                Err(e) => self.manifest_path@.len() == 0 && e@ == ErrorView::Build("empty path"@),
            },
    {
        if self.manifest_path.as_str().is_empty() {
            return Err(Error::Build("empty path".to_owned()));
        }
        let mut path: String = self.manifest_path.clone();
        canonicalize_path(&mut path);
        Ok(self.state.lookup_node(path.as_str()))
    }

    /// A builder for this build, started now.
    pub fn builder(&self, now_millis: i64) -> (r: Builder)
        requires
            self.wf(),
        ensures
            r@.plan == crate::plan::empty_plan(),
            r@.config == self.options.build,
            r@.start_time == now_millis,
            r@.lock_file == crate::build::lock_path(self.state@),
            r@.exit_code == ExitStatus(0),
            r@.edges_started == 0,
            r@.edges_finished == 0,
            r@.pending == 0,
            r@.notes == (if self.options.build.explain {
                Some(Seq::<(NodeId, Seq<char>)>::empty())
            } else {
                None
            }),
    {
        Builder::new(&self.state, self.options.build, now_millis)
    }

    /// Plan a target. Problems found while scanning (missing inputs, cycles) are
    /// reported before any command runs.
    pub fn add_target(&mut self, builder: &mut Builder, target: NodeId) -> (r: Result<(), Error>)
        requires
            old(self).wf(),
            old(builder)@.plan.fits(old(self).state@),
            target.0 < old(self).state@.nodes.len(),
        ensures
            *final(self) == (Engine { state: final(self).state, ..*old(self) }),
            final(self).state.wf(),
            old(self).state@.nodes.len() <= final(self).state@.nodes.len(),
            r is Ok ==> final(self).wf() && final(builder)@.plan.fits(final(self).state@),
            match (r, target_planned::<D>(
                sources_of(old(self).disk.model(), old(self).logs@),
                old(builder)@.scanned(old(self).state@),
                target,
            )) {
                (Ok(_), Ok(w)) => final(self).state@ == w.state && final(builder)@ == (
                BuilderView { plan: w.plan, notes: w.notes, ..old(builder)@ }),
                (Err(e), Err(f)) => final(self).state@ == f.at.state && final(builder)@ == (
                BuilderView { plan: f.at.plan, notes: f.at.notes, ..old(builder)@ }) && e@ == (
                match f.error {
                    ErrorView::Build(m) => ErrorView::Graph(m),
                    other => other,
                }),
                _ => false,
            },
    {
        let ghost n = self.state@.nodes.len();
        let added = builder.add_target(&mut self.state, &self.disk, &self.logs, target);
        proof {
            crate::build::finish::lemma_logs_fit_more(self.logs@, n, self.state@.nodes.len());
        }
        match added {
            Err(e) => Err(e.into_graph()),
            Ok(_) => Ok(()),
        }
    }

    /// What a build has done.
    pub fn summary(&self, builder: &Builder) -> (r: BuildSummary)
        ensures
            r == (BuildSummary {
                up_to_date: false,
                edges_started: builder@.edges_started,
                edges_finished: builder@.edges_finished,
                manifest_rebuilt: false,
            }),
    {
        BuildSummary {
            up_to_date: false,
            edges_started: builder.edges_started(),
            edges_finished: builder.edges_finished(),
            manifest_rebuilt: false,
        }
    }

    /// Take note of how building the manifest, `node`, has ended: with an error,
    /// or not. Returns true if it has changed, in which case it is to be loaded
    /// again. It was only really rebuilt if it is still dirty: a `restat` rule
    /// may have decided nothing changed.
    pub fn manifest_built(&mut self, node: NodeId, error: Option<Error>, code: ExitStatus) -> (r:
        Result<bool, Error>)
        requires
            old(self).wf(),
            node.0 < old(self).state@.nodes.len(),
        ensures
            *final(self) == (Engine {
                state: final(self).state,
                exit_code: final(self).exit_code,
                ..*old(self)
            }),
            final(self).wf(),
            match error {
                Some(e) => {
                    &&& final(self).exit_code == code
                    &&& final(self).state@ == old(self).state@
                    &&& r matches Err(f) && f@ == ErrorView::Build(
                        "rebuilding '"@ + old(self).manifest_path@ + "': "@ + error_text(e@),
                    )
                },
                None => {
                    &&& final(self).exit_code == old(self).exit_code
                    &&& r matches Ok(dirty) && dirty == old(self).state@.nodes[node.0 as int].dirty
                    &&& final(self).state@ == (if r == Ok::<bool, Error>(true) {
                        old(self).state@
                    } else {
                        old(self).state@.reset()
                    })
                },
            },
    {
        match error {
            Some(e) => {
                self.exit_code = code;
                let mut text = quoted("rebuilding '", self.manifest_path.as_str(), "': ");
                text.append(e.message().as_str());
                Err(Error::Build(text))
            },
            None => {
                if !self.state.node(node).dirty {
                    self.state.reset();
                    return Ok(false);
                }
                Ok(true)
            },
        }
    }

    /// Decide how the `cycle`-th round of a build starts, counted from 0: true
    /// if the manifest is to be built first. A manifest that has regenerated
    /// itself in every round so far is given up on after the last one.
    pub fn start_cycle(&self, cycle: usize) -> (r: Result<bool, Error>)
        ensures
            match r {
                Ok(first) => cycle < MANIFEST_REBUILD_LIMIT && first
                    == self.options.rebuild_manifest,
                Err(e) => cycle >= MANIFEST_REBUILD_LIMIT && e@ == ErrorView::Build(
                    "manifest '"@ + self.manifest_path@
                        + "' still dirty after 100 tries, perhaps system time is not set"@,
                ),
            },
    {
        if cycle < MANIFEST_REBUILD_LIMIT {
            Ok(self.options.rebuild_manifest)
        } else {
            Err(self.still_dirty())
        }
    }

    /// Decide how a build goes on once it is known whether the manifest has
    /// been rebuilt. In a dry run regeneration would never converge, so that the
    /// build ends there.
    pub fn after_manifest(&self, rebuilt: bool) -> (r: ManifestStep)
        ensures
            r == (if !rebuilt {
                ManifestStep::Build
            } else if self.options.build.dry_run {
                ManifestStep::Stop(
                    BuildSummary {
                        up_to_date: false,
                        edges_started: 0,
                        edges_finished: 0,
                        manifest_rebuilt: true,
                    },
                )
            } else {
                ManifestStep::Reload
            }),
    {
        if !rebuilt {
            ManifestStep::Build
        } else if self.options.build.dry_run {
            ManifestStep::Stop(
                BuildSummary {
                    up_to_date: false,
                    edges_started: 0,
                    edges_finished: 0,
                    manifest_rebuilt: true,
                },
            )
        } else {
            ManifestStep::Reload
        }
    }

    /// The complaint about a manifest that regenerates itself without end.
    pub fn still_dirty(&self) -> (r: Error)
        ensures
            r@ == ErrorView::Build(
                "manifest '"@ + self.manifest_path@
                    + "' still dirty after 100 tries, perhaps system time is not set"@,
            ),
    {
        Error::Build(
            quoted(
                "manifest '",
                self.manifest_path.as_str(),
                "' still dirty after 100 tries, perhaps system time is not set",
            ),
        )
    }

    /// Re-read the manifest from scratch, keeping the options. The logs are
    /// opened again by [`Engine::open_logs`]. Where the manifest is wrong, what
    /// it declared by then takes the place of the graph.
    pub fn reload(&mut self) -> (r: Result<(), Error>)
        ensures
            final(self).exit_code == old(self).exit_code,
            final(self).build_log_found == old(self).build_log_found,
            final(self).deps_log_found == old(self).deps_log_found,
            match manifest_read::<D>(
                old(self).disk.model(),
                old(self).options.parser,
                old(self).manifest_path@,
            ) {
                Err((f, p)) => {
                    &&& r matches Err(e) && e@ == f
                    &&& final(self).wf()
                    &&& final(self).state@ == p.state
                    &&& final(self).has_empty_logs()
                    &&& final(self).warnings@.len() == 0
                    &&& *final(self) == (Engine {
                        state: final(self).state,
                        logs: final(self).logs,
                        warnings: final(self).warnings,
                        ..*old(self)
                    })
                },
                Ok(p) => ({
                    let made = build_dir_made::<D>(
                        old(self).disk.model(),
                        p.state.scopes.value(0, "builddir"@),
                        old(self).options.build.dry_run,
                    );
                    &&& crate::disk::same_outcome(r, made.0)
                    &&& final(self).is_fresh(
                        p,
                        made.1,
                        old(self).manifest_path@,
                        old(self).options,
                    )
                }),
            },
    {
        let mut state = State::new();
        let mut parser = ManifestParser::new(self.options.parser);
        let read = parser.load(&mut state, &self.disk, self.manifest_path.as_str());
        self.state = state;
        self.logs = Logs::new(Some(BuildLog::new()), Some(DepsLog::new()));
        self.warnings = Vec::new();
        proof {
            assert(crate::deps_log::empty_log().fits(self.state@.nodes.len()));
        }
        match read {
            Err(e) => {
                return Err(e);
            },
            Ok(_) => {},
        }
        self.warnings = parser.take_warnings();
        self.build_dir = self.state.global_binding("builddir");
        self.ensure_build_dir_exists()
    }

    /// Note how long each edge took last time, for ETA prediction.
    pub fn parse_previous_elapsed_times(&mut self)
        requires
            old(self).wf(),
        ensures
            final(self).wf(),
            *final(self) == (Engine { state: final(self).state, ..*old(self) }),
            final(self).state@ == durations_noted(old(self).logs@.build->0, old(self).state@, 0),
            final(self).state@.nodes == old(self).state@.nodes,
    {
        let ghost entries = self.logs@.build->0;
        let ghost engine0 = *self;
        let ghost want = durations_noted(entries, self.state@, 0);
        let n: usize = self.state.edge_count();
        let mut k: usize = 0;
        while k < n
            invariant
                k <= n,
                n == self.state@.edges.len(),
                self.wf(),
                entries == self.logs@.build->0,
                *self == (Engine { state: self.state, ..engine0 }),
                self.state@.nodes == engine0.state@.nodes,
                durations_noted(entries, self.state@, k as int) == want,
            decreases n - k,
        {
            let edge = EdgeId(k);
            let duration: Option<i64> = match &self.logs.build_log {
                Some(log) => find_last_duration(log, &self.state, edge),
                None => None,
            };
            if let Some(d) = duration {
                self.state.set_prev_elapsed_time(edge, d);
            }
            k += 1;
        }
    }

    /// `-t clean`: remove build outputs.
    pub fn clean_all(&mut self, generator: bool) -> (r: CleanReport)
        requires
            old(self).wf(),
        ensures
            final(self).wf(),
            *final(self) == (Engine {
                state: final(self).state,
                disk: final(self).disk,
                ..*old(self)
            }),
            final(self).state@ == all_loaded::<D>(old(self).disk.model(), old(self).state@),
            ({
                let c = all_cleaned::<D>(
                    old(self).disk.model(),
                    final(self).state@,
                    generator,
                    old(self).options.build.dry_run,
                );
                &&& r.tells(c)
                &&& final(self).disk.model() == c.disk
            }),
    {
        let ghost s0 = self.state@;
        let mut cleaner = Cleaner::new(self.options.build.dry_run);
        let report = cleaner.clean_all(&mut self.state, &mut self.disk, generator);
        proof {
            lemma_still_wf(s0, self.state@, self.logs@);
        }
        report
    }

    /// `-t clean TARGETS`: remove the outputs needed for these targets.
    pub fn clean_targets(&mut self, targets: &[String]) -> (r: CleanReport)
        requires
            old(self).wf(),
        ensures
            final(self).wf(),
            *final(self) == (Engine {
                state: final(self).state,
                disk: final(self).disk,
                ..*old(self)
            }),
            final(self).state@ == all_loaded::<D>(old(self).disk.model(), old(self).state@),
            ({
                let c = targets_cleaned::<D>(
                    old(self).disk.model(),
                    final(self).state@,
                    texts(targets@),
                    old(self).options.build.dry_run,
                );
                &&& r.tells(c)
                &&& final(self).disk.model() == c.disk
            }),
    {
        let ghost s0 = self.state@;
        let mut cleaner = Cleaner::new(self.options.build.dry_run);
        let report = cleaner.clean_targets(&mut self.state, &mut self.disk, targets);
        proof {
            lemma_still_wf(s0, self.state@, self.logs@);
        }
        report
    }

    /// `-t clean -r RULES`: remove the outputs of these rules.
    pub fn clean_rules(&mut self, rules: &[String]) -> (r: CleanReport)
        requires
            old(self).wf(),
        ensures
            final(self).wf(),
            *final(self) == (Engine {
                state: final(self).state,
                disk: final(self).disk,
                ..*old(self)
            }),
            final(self).state@ == all_loaded::<D>(old(self).disk.model(), old(self).state@),
            ({
                let c = rules_cleaned::<D>(
                    old(self).disk.model(),
                    final(self).state@,
                    texts(rules@),
                    old(self).options.build.dry_run,
                );
                &&& r.tells(c)
                &&& final(self).disk.model() == c.disk
            }),
    {
        let ghost s0 = self.state@;
        let mut cleaner = Cleaner::new(self.options.build.dry_run);
        let report = cleaner.clean_rules(&mut self.state, &mut self.disk, rules);
        proof {
            lemma_still_wf(s0, self.state@, self.logs@);
        }
        report
    }

    /// `-t cleandead`: remove outputs the manifest no longer produces.
    pub fn clean_dead(&mut self) -> (r: CleanReport)
        requires
            old(self).wf(),
        ensures
            final(self).wf(),
            *final(self) == (Engine {
                state: final(self).state,
                disk: final(self).disk,
                ..*old(self)
            }),
            final(self).state@ == all_loaded::<D>(old(self).disk.model(), old(self).state@),
            ({
                let c = dead_cleaned::<D>(
                    old(self).disk.model(),
                    final(self).state@,
                    old(self).logs@.build->0,
                    old(self).options.build.dry_run,
                );
                &&& r.tells(c)
                &&& final(self).disk.model() == c.disk
            }),
    {
        let ghost s0 = self.state@;
        let mut cleaner = Cleaner::new(self.options.build.dry_run);
        let log: &BuildLog = self.logs.build_log.as_ref().unwrap();
        let report = cleaner.clean_dead(&mut self.state, &mut self.disk, log);
        proof {
            lemma_still_wf(s0, self.state@, self.logs@);
        }
        report
    }
}

/// What keeps the marks of the graph keeps the engine together.
pub proof fn lemma_still_wf(s: StateView, t: StateView, logs: LogsView)
    requires
        marks_kept(s, t),
        at_rest(s),
        logs.fits(s.nodes.len()),
    ensures
        at_rest(t),
        logs.fits(t.nodes.len()),
{
    crate::build::finish::lemma_logs_fit_more(logs, s.nodes.len(), t.nodes.len());
    assert forall|e: int| 0 <= e < t.edges.len() implies (#[trigger] t.edges[e]).mark
        != crate::state::VisitMark::InStack by {
        assert(s.edges[e].mark == t.edges[e].mark);
    }
}

/// A build log keeps what it says of everything that the build makes and of
/// everything that is there, and forgets only what neither is made nor is there.
pub proof fn law_logs_keep_what_is_made<D: DiskInterface>(
    m: D::Model,
    s: StateView,
    entries: Entries,
    path: Seq<char>,
)
    requires
        s.wf(),
        s.nodes.len() <= usize::MAX,
    ensures
        ({
            let kept = kept_entries::<D>(m, s, entries);
            let made = exists|e: int, k: int|
                #![trigger s.edges[e].outputs[k]]
                0 <= e < s.edges.len() && 0 <= k < s.edges[e].outputs.len()
                    && s.nodes[s.edges[e].outputs[k].0 as int].path == path;
            &&& kept.contains_key(path) ==> entries.contains_key(path) && kept[path]
                == entries[path]
            &&& entries.contains_key(path) && (made || crate::disk::present::<D>(m, path))
                ==> kept.contains_key(path)
            &&& !made && D::mtime_of(m, path) == Ok::<i64, ErrorView>(0) ==> !kept.contains_key(path)
        }),
{
    let k = crate::state::node_index(s.nodes, path, 0);
    crate::state::lemma_node_index(s.nodes, path, 0);
    if exists|e: int, i: int|
        #![trigger s.edges[e].outputs[i]]
        0 <= e < s.edges.len() && 0 <= i < s.edges[e].outputs.len()
            && s.nodes[s.edges[e].outputs[i].0 as int].path == path {
        let (e, i) = choose|e: int, i: int|
            #![trigger s.edges[e].outputs[i]]
            0 <= e < s.edges.len() && 0 <= i < s.edges[e].outputs.len()
                && s.nodes[s.edges[e].outputs[i].0 as int].path == path;
        let n = s.edges[e].outputs[i].0 as int;
        assert(s.edge_ok(s.edges[e]));
        assert(s.outputs_linked(e));
        assert(s.nodes[s.edges[e].outputs[i].0 as int].in_edge is Some);
        assert(s.nodes[n].path == path);
        assert(k < s.nodes.len());
        assert(k == n);
    } else if k < s.nodes.len() {
        assert(s.node_ok(s.nodes[k]));
        if let Some(e) = s.nodes[k].in_edge {
            assert(s.producer_linked(k));
            let outputs = s.edges[e.0 as int].outputs;
            assert(outputs.contains(NodeId(k as usize)));
            let i = choose|i: int| 0 <= i < outputs.len() && outputs[i] == NodeId(k as usize);
            assert(s.edges[e.0 as int].outputs[i].0 == k);
        }
    }
}

/// Whether `j` is the first of the outputs of which a build log says something.
pub open spec fn is_first_recorded(entries: Entries, s: StateView, outputs: Seq<NodeId>, j: int) -> bool {
    &&& 0 <= j < outputs.len()
    &&& entries.contains_key(s.nodes[outputs[j].0 as int].path)
    &&& forall|i: int|
        0 <= i < j ==> !entries.contains_key(s.nodes[(#[trigger] outputs[i]).0 as int].path)
}

proof fn lemma_last_duration(entries: Entries, s: StateView, outputs: Seq<NodeId>, k: int, j: int)
    requires
        is_first_recorded(entries, s, outputs, j),
        0 <= k <= j,
    ensures
        last_duration(entries, s, outputs, k) == Some(
            entries[s.nodes[outputs[j].0 as int].path].end_time.wrapping_sub(
                entries[s.nodes[outputs[j].0 as int].path].start_time,
            ) as i64,
        ),
    decreases j - k,
{
    if k < j {
        assert(!entries.contains_key(s.nodes[outputs[k].0 as int].path));
        lemma_last_duration(entries, s, outputs, k + 1, j);
    }
}

proof fn lemma_no_duration(entries: Entries, s: StateView, outputs: Seq<NodeId>, k: int)
    requires
        0 <= k,
        forall|i: int|
            0 <= i < outputs.len() ==> !entries.contains_key(
                s.nodes[(#[trigger] outputs[i]).0 as int].path,
            ),
    ensures
        last_duration(entries, s, outputs, k) is None,
    decreases outputs.len() - k,
{
    if k < outputs.len() {
        assert(!entries.contains_key(s.nodes[outputs[k].0 as int].path));
        lemma_no_duration(entries, s, outputs, k + 1);
    }
}

proof fn lemma_duration_by_paths(entries: Entries, s: StateView, t: StateView, outputs: Seq<NodeId>, k: int)
    requires
        t.nodes == s.nodes,
        0 <= k,
    ensures
        last_duration(entries, t, outputs, k) == last_duration(entries, s, outputs, k),
    decreases outputs.len() - k,
{
    if k < outputs.len() {
        lemma_duration_by_paths(entries, s, t, outputs, k + 1);
    }
}

proof fn lemma_durations_noted(entries: Entries, s: StateView, k: int)
    requires
        0 <= k <= s.edges.len(),
    ensures
        ({
            let t = durations_noted(entries, s, k);
            &&& t == (StateView { edges: t.edges, ..s })
            &&& t.edges.len() == s.edges.len()
            &&& forall|e: int| 0 <= e < k ==> #[trigger] t.edges[e] == s.edges[e]
            &&& forall|e: int|
                k <= e < s.edges.len() ==> #[trigger] t.edges[e] == match last_duration(
                    entries,
                    s,
                    s.edges[e].outputs,
                    0,
                ) {
                    None => s.edges[e],
                    Some(d) => EdgeView { prev_elapsed_time_millis: d, ..s.edges[e] },
                }
        }),
    decreases s.edges.len() - k,
{
    if k < s.edges.len() {
        let u = match last_duration(entries, s, s.edges[k].outputs, 0) {
            None => s,
            Some(d) => s.with_edge(k, EdgeView { prev_elapsed_time_millis: d, ..s.edges[k] }),
        };
        assert(u.nodes == s.nodes);
        lemma_durations_noted(entries, u, k + 1);
        let t = durations_noted(entries, s, k);
        assert(t.edges[k] == u.edges[k]);
        assert forall|e: int| k + 1 <= e < s.edges.len() implies #[trigger] t.edges[e] == match last_duration(
            entries,
            s,
            s.edges[e].outputs,
            0,
        ) {
            None => s.edges[e],
            Some(d) => EdgeView { prev_elapsed_time_millis: d, ..s.edges[e] },
        } by {
            assert(u.edges[e] == s.edges[e]);
            lemma_duration_by_paths(entries, s, u, s.edges[e].outputs, 0);
        }
        assert forall|e: int| 0 <= e < k implies #[trigger] t.edges[e] == s.edges[e] by {
            assert(u.edges[e] == s.edges[e]);
        }
    }
}

/// What is expected of a command is how long it took last time, as the build log has
/// it of the first of its outputs that is in it; of a command that has not run
/// nothing changes, nor does anything else of the graph.
pub proof fn law_commands_are_expected_to_take_as_long(entries: Entries, s: StateView, e: int, j: int)
    requires
        0 <= e < s.edges.len(),
    ensures
        ({
            let t = durations_noted(entries, s, 0);
            let outputs = s.edges[e].outputs;
            let entry = entries[s.nodes[outputs[j].0 as int].path];
            &&& t == (StateView { edges: t.edges, ..s })
            &&& t.edges.len() == s.edges.len()
            &&& t.edges[e] == EdgeView {
                prev_elapsed_time_millis: t.edges[e].prev_elapsed_time_millis,
                ..s.edges[e]
            }
            &&& is_first_recorded(entries, s, outputs, j) && 0 <= entry.start_time
                <= entry.end_time ==> t.edges[e].prev_elapsed_time_millis == entry.end_time
                - entry.start_time
            &&& (forall|i: int|
                0 <= i < outputs.len() ==> !entries.contains_key(
                    s.nodes[(#[trigger] outputs[i]).0 as int].path,
                )) ==> t.edges[e] == s.edges[e]
        }),
{
    let outputs = s.edges[e].outputs;
    lemma_durations_noted(entries, s, 0);
    assert(durations_noted(entries, s, 0).edges[e].outputs == outputs);
    if is_first_recorded(entries, s, outputs, j) {
        lemma_last_duration(entries, s, outputs, 0, j);
    }
    if forall|i: int|
        0 <= i < outputs.len() ==> !entries.contains_key(
            s.nodes[(#[trigger] outputs[i]).0 as int].path,
        ) {
        lemma_no_duration(entries, s, outputs, 0);
    }
}

} // verus!
