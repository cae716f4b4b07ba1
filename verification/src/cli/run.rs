//! Running a subtool on a loaded build.

use vstd::prelude::*;
use vstd::string::*;

use crate::clean::CleanReport;
use crate::cli::request::{TargetsMode, ToolRequest};
use crate::deps_log::DepsLog;
use crate::disk::DiskInterface;
use crate::engine::Engine;
use crate::error::Error;
use crate::state::NodeId;
use crate::status::Verbosity;
use crate::text::push_decimal;
use crate::tools;

verus! {

use crate::build::LogsView;
use crate::clean::{all_cleaned, dead_cleaned, rules_cleaned, targets_cleaned, Cleaning};
use crate::cli::request::{ModeView, RequestView};
use crate::build_log::{first_unseen, is_log_text, restated, restated_before};
use crate::deps_log::{outputs_known, recompacted};
use crate::engine::kept_entries;
use crate::dyndep::all_loaded;
use crate::error::ErrorView;
use crate::state::{nodes_below, StateView};
use crate::text::{decimal, in_ascending_order, texts};
use crate::tools::compdb::{database, needed, reached, uses_one_of};
use crate::tools::list::{
    levels_told, lines_from, lines_of, rule_outputs, with_all_made, with_all_sources,
    with_rule_lines, with_tree,
};
use crate::tools::missing::{
    flag_count, search_start, summary_text, targets_checked, Search, Searched,
};
use crate::tools::walk::{
    all_visited, at_most, drawing, none_of, nothing_visited, printed_paths, target_commands_told,
    with_all_named, with_ends, Told,
};
use crate::tools::{are_targets, is_first_complaint, queried, with_deps_from};

/// What a subtool has to say.
pub struct ToolReport {
    /// The code to exit with.
    pub code: i32,
    /// What is to be printed.
    pub out: String,
    /// What is to be printed to the error stream.
    pub err: String,
    /// What the file of the build log is to hold, if it is to be rewritten.
    pub build_log: Option<String>,
    /// What the file of the deps log is to hold, if it is to be rewritten.
    pub deps_log: Option<Vec<u8>>,
}

impl ToolReport {
    /// Whether a report consists of a code and of what is printed.
    pub open spec fn says(&self, code: int, out: Seq<char>, err: Seq<char>) -> bool {
        &&& self.code == code
        &&& self.out@ == out
        &&& self.err@ == err
        &&& self.build_log is None
        &&& self.deps_log is None
    }
}

fn report(code: i32, out: String, err: String) -> (r: ToolReport)
    ensures
        r.says(code as int, out@, err@),
{
    ToolReport { code, out, err, build_log: None, deps_log: None }
}

fn printed(out: String) -> (r: ToolReport)
    ensures
        r.says(0, out@, Seq::empty()),
{
    let err = String::new();
    assert(err@ =~= Seq::empty());
    report(0, out, err)
}

/// Whether the names stand for the nodes; no names stand for the default
/// targets.
pub open spec fn stand_for(
    names: Seq<Seq<char>>,
    v: Seq<NodeId>,
    s: StateView,
    deps: Option<crate::deps_log::DepsLogView>,
) -> bool {
    if names.len() == 0 {
        s.default_targets() == Ok::<Seq<NodeId>, Seq<char>>(v)
    } else {
        are_targets(v, s, deps, names)
    }
}

/// Whether `e` is the complaint about names that do not stand for nodes.
pub open spec fn stand_for_nothing(
    names: Seq<Seq<char>>,
    e: Error,
    s: StateView,
    deps: Option<crate::deps_log::DepsLogView>,
) -> bool {
    if names.len() == 0 {
        s.default_targets() matches Err(m) && e@ == ErrorView::Graph(m)
    } else {
        is_first_complaint(e, s, deps, names)
    }
}

/// `acc` with a line for each removed path from the `k`-th on behind it.
pub open spec fn with_removed(acc: Seq<char>, removed: Seq<Seq<char>>, k: int) -> Seq<char>
    decreases removed.len() - k,
{
    if 0 <= k < removed.len() {
        with_removed(acc + "Remove "@ + removed[k] + "\n"@, removed, k + 1)
    } else {
        acc
    }
}

/// `acc` with a line for each error from the `k`-th on behind it.
pub open spec fn with_errors(acc: Seq<char>, errors: Seq<Seq<char>>, k: int) -> Seq<char>
    decreases errors.len() - k,
{
    if 0 <= k < errors.len() {
        with_errors(acc + "shuriken: error: "@ + errors[k] + "\n"@, errors, k + 1)
    } else {
        acc
    }
}

/// Whether a report is that on what was cleaned.
pub open spec fn is_clean_report<M>(r: ToolReport, c: Cleaning<M>, verbosity: Verbosity) -> bool {
    let code = if c.errors.len() == 0 {
        0int
    } else {
        1int
    };
    let heading = if verbosity == Verbosity::Verbose {
        with_removed("Cleaning...\n"@, c.removed, 0)
    } else {
        "Cleaning... "@
    };
    if verbosity == Verbosity::Quiet {
        r.says(code, Seq::empty(), Seq::empty())
    } else {
        r.says(
            code,
            heading + decimal(c.removed.len()) + " files.\n"@,
            with_errors(Seq::empty(), c.errors, 0),
        )
    }
}

fn clean_report<M>(found: &CleanReport, verbosity: Verbosity, Ghost(c): Ghost<Cleaning<M>>) -> (r:
    ToolReport)
    requires
        found.tells(c),
    ensures
        is_clean_report(r, c, verbosity),
{
    let code: i32 = if found.ok() {
        0
    } else {
        1
    };
    let mut out = String::new();
    let mut err = String::new();
    proof {
        assert(out@ =~= Seq::empty());
        assert(err@ =~= Seq::empty());
        assert(c.errors.len() == found.errors@.len());
    }
    if verbosity == Verbosity::Quiet {
        return report(code, out, err);
    }
    if verbosity == Verbosity::Verbose {
        out = "Cleaning...\n".to_owned();
        let ghost want = with_removed(out@, c.removed, 0);
        let mut k: usize = 0;
        while k < found.removed.len()
            invariant
                k <= found.removed@.len(),
                c.removed == texts(found.removed@),
                with_removed(out@, c.removed, k as int) == want,
            decreases found.removed@.len() - k,
        {
            assert(c.removed[k as int] == found.removed@[k as int]@);
            out.append("Remove ");
            out.append(found.removed[k].as_str());
            out.append("\n");
            k += 1;
        }
    } else {
        out = "Cleaning... ".to_owned();
    }
    push_decimal(&mut out, found.count as u128);
    out.append(" files.\n");
    let ghost want = with_errors(err@, c.errors, 0);
    let mut k: usize = 0;
    while k < found.errors.len()
        invariant
            k <= found.errors@.len(),
            c.errors == texts(found.errors@),
            with_errors(err@, c.errors, k as int) == want,
        decreases found.errors@.len() - k,
    {
        assert(c.errors[k as int] == found.errors@[k as int]@);
        err.append("shuriken: error: ");
        err.append(found.errors[k].as_str());
        err.append("\n");
        k += 1;
    }
    report(code, out, err)
}

/// What `-t clean` comes to, on a graph with its dyndep files loaded.
pub open spec fn cleaned_as_asked<D: DiskInterface>(
    m: D::Model,
    s: StateView,
    generator: bool,
    by_rule: bool,
    names: Seq<Seq<char>>,
    dry_run: bool,
) -> Cleaning<D::Model> {
    if names.len() == 0 {
        all_cleaned::<D>(m, s, generator, dry_run)
    } else if by_rule {
        rules_cleaned::<D>(m, s, names, dry_run)
    } else {
        targets_cleaned::<D>(m, s, names, dry_run)
    }
}

/// The text that a subtool that only looks prints for nodes.
pub open spec fn listing(request: RequestView, s: StateView, v: Seq<NodeId>, directory: Seq<char>) -> Seq<
    char,
> {
    match request {
        RequestView::Commands { single, .. } => target_commands_told(
            Told { text: Seq::empty(), seen: none_of(s.edges.len()) },
            s,
            v,
            single,
            0,
        ).text,
        RequestView::Inputs { options, .. } => {
            let nodes = all_visited(nothing_visited(), s, v, 0).inputs;
            let paths = printed_paths(s, nodes, options.shell_escape);
            let end = if options.print0 {
                '\0'
            } else {
                '\n'
            };
            with_ends(
                Seq::empty(),
                if options.dependency_order {
                    paths
                } else {
                    paths.sort_by(at_most())
                },
                end,
                0,
            )
        },
        RequestView::MultiInputs { delimiter, terminator, .. } => with_all_named(
            Seq::empty(),
            s,
            v,
            delimiter,
            terminator,
            0,
        ),
        RequestView::CompDbTargets { expand, .. } => database(
            s,
            needed(s, reached(s, none_of(s.edges.len()), v)),
            expand,
            directory,
        ),
        _ => Seq::empty(),
    }
}

/// The names in a request.
pub open spec fn names_asked(q: RequestView) -> Seq<Seq<char>> {
    match q {
        RequestView::Commands { names, .. } => names,
        RequestView::Inputs { names, .. } => names,
        RequestView::MultiInputs { names, .. } => names,
        RequestView::CompDbTargets { names, .. } => names,
        RequestView::Graph { names } => names,
        RequestView::Query { names } => names,
        RequestView::MissingDeps { names } => names,
        RequestView::Deps { names } => names,
        _ => Seq::empty(),
    }
}

/// What `-t targets` prints.
pub open spec fn targets_listed(s: StateView, mode: ModeView) -> Result<Seq<char>, ErrorView> {
    match mode {
        ModeView::All => Ok(with_all_made(Seq::empty(), s, 0)),
        ModeView::Rule(rule) => Ok(
            if rule.len() == 0 {
                with_all_sources(Seq::empty(), s, 0)
            } else {
                lines_of(in_ascending_order(rule_outputs(s, rule)))
            },
        ),
        ModeView::Depth(depth) => match s.root_targets() {
            Ok(roots) => Ok(with_tree(Seq::empty(), s, roots, depth, 0, 0, levels_told(s, depth))),
            Err(m) => Err(ErrorView::Build(m)),
        },
    }
}

/// Whether `r` is the answer of a subtool that only looks, for nodes.
pub open spec fn is_listing<D: DiskInterface>(
    r: Result<ToolReport, Error>,
    e: Engine<D>,
    q: RequestView,
    directory: Seq<char>,
) -> bool {
    match r {
        Ok(t) => exists|v: Seq<NodeId>| #[trigger]
            stand_for(names_asked(q), v, e.state@, e.logs@.deps) && t.says(
                0,
                listing(q, e.state@, v, directory),
                Seq::empty(),
            ),
        Err(x) => stand_for_nothing(names_asked(q), x, e.state@, e.logs@.deps),
    }
}

/// Whether `r` is the drawing that was asked for, where `f` is the engine with
/// the dyndep files loaded.
pub open spec fn is_drawing<D: DiskInterface>(
    r: Result<ToolReport, Error>,
    e: Engine<D>,
    f: Engine<D>,
    names: Seq<Seq<char>>,
) -> bool {
    match r {
        Ok(t) => {
            &&& exists|v: Seq<NodeId>| #[trigger]
                stand_for(names, v, e.state@, e.logs@.deps) && t.says(
                    0,
                    drawing(f.state@, v),
                    Seq::empty(),
                )
            &&& f.state@ == all_loaded::<D>(e.disk.model(), e.state@)
            &&& f == (Engine { state: f.state, ..e })
        },
        Err(x) => f == e && stand_for_nothing(names, x, e.state@, e.logs@.deps),
    }
}

/// Whether `r` is the answer to a query.
pub open spec fn is_query<D: DiskInterface>(
    r: Result<ToolReport, Error>,
    e: Engine<D>,
    f: Engine<D>,
    names: Seq<Seq<char>>,
) -> bool {
    match r {
        Ok(t) => exists|v: Seq<NodeId>|
            {
                let w = queried::<D>(Seq::empty(), e.disk.model(), e.state@, v, 0);
                &&& #[trigger] stand_for(names, v, e.state@, e.logs@.deps)
                &&& t.says(0, w.1, Seq::empty())
                &&& f.state@ == w.0
                &&& f == (Engine { state: f.state, ..e })
            },
        Err(x) => f == e && stand_for_nothing(names, x, e.state@, e.logs@.deps),
    }
}

/// Whether `r` tells the recorded dependencies that were asked for.
pub open spec fn is_deps<D: DiskInterface>(
    r: Result<ToolReport, Error>,
    e: Engine<D>,
    names: Seq<Seq<char>>,
) -> bool {
    let log = e.logs@.deps->0;
    match r {
        Ok(t) => if names.len() == 0 {
            t.says(
                0,
                with_deps_from::<D>(
                    Seq::empty(),
                    e.state@,
                    e.disk.model(),
                    log,
                    log.nodes,
                    true,
                    0,
                ),
                Seq::empty(),
            )
        } else {
            exists|v: Seq<NodeId>| #[trigger]
                are_targets(v, e.state@, e.logs@.deps, names) && t.says(
                    0,
                    with_deps_from::<D>(
                        Seq::empty(),
                        e.state@,
                        e.disk.model(),
                        log,
                        v,
                        false,
                        0,
                    ),
                    Seq::empty(),
                )
        },
        Err(x) => names.len() > 0 && is_first_complaint(x, e.state@, e.logs@.deps, names),
    }
}

/// What is printed about a search for missing dependencies.
pub open spec fn search_text(c: Search) -> Seq<char> {
    lines_from(
        Seq::empty(),
        c.lines,
        0,
    ) + summary_text(
        flag_count(c.seen) as nat,
        c.count as nat,
        flag_count(c.missing) as nat,
        flag_count(c.generated) as nat,
        c.rules.len(),
    )
}

/// Whether `r` is the answer on missing dependencies.
pub open spec fn is_missing_deps<D: DiskInterface>(
    r: Result<ToolReport, Error>,
    e: Engine<D>,
    f: Engine<D>,
    names: Seq<Seq<char>>,
) -> bool {
    let start = Searched {
        search: search_start(e.state@.nodes.len(), e.state@.edges.len()),
        state: e.state@,
    };
    let log = e.logs@.deps->0;
    ||| r matches Err(x) && f == e && stand_for_nothing(names, x, e.state@, e.logs@.deps)
    ||| f == (Engine { state: f.state, ..e }) && exists|v: Seq<NodeId>| #[trigger]
        stand_for(names, v, e.state@, e.logs@.deps) && match (
            r,
            targets_checked::<D>(start, e.disk.model(), log, v, 0),
        ) {
            (Ok(t), Ok(d)) => f.state@ == d.state && t.says(
                if d.search.count > 0 {
                    3
                } else {
                    0
                },
                search_text(d.search),
                Seq::empty(),
            ),
            (Err(x), Err(y)) => x@ == y.error && f.state@ == y.state,
            _ => false,
        }
}

/// Whether `r` is the answer to a request, where `f` is what the engine `e` is
/// left as.
pub open spec fn is_answer<D: DiskInterface>(
    r: Result<ToolReport, Error>,
    e: Engine<D>,
    f: Engine<D>,
    q: RequestView,
    directory: Seq<char>,
) -> bool {
    let config = e.options.build;
    let s = e.state@;
    match q {
        RequestView::Clean { generator, by_rule, names } => {
            let c = cleaned_as_asked::<D>(
                e.disk.model(),
                f.state@,
                generator,
                by_rule,
                names,
                config.dry_run,
            );
            &&& r matches Ok(t) && is_clean_report(t, c, config.verbosity)
            &&& f.disk.model() == c.disk
            &&& f.state@ == all_loaded::<D>(e.disk.model(), s)
            &&& f == (Engine { state: f.state, disk: f.disk, ..e })
        },
        RequestView::CleanDead => {
            let c = dead_cleaned::<D>(
                e.disk.model(),
                f.state@,
                e.logs@.build->0,
                config.dry_run,
            );
            &&& r matches Ok(t) && is_clean_report(t, c, config.verbosity)
            &&& f.disk.model() == c.disk
            &&& f.state@ == all_loaded::<D>(e.disk.model(), s)
            &&& f == (Engine { state: f.state, disk: f.disk, ..e })
        },
        RequestView::Commands { .. } => f == e && is_listing(r, e, q, directory),
        RequestView::Inputs { .. } => f == e && is_listing(r, e, q, directory),
        RequestView::MultiInputs { .. } => f == e && is_listing(r, e, q, directory),
        RequestView::CompDbTargets { .. } => f == e && is_listing(r, e, q, directory),
        RequestView::Deps { names } => f == e && is_deps(r, e, names),
        RequestView::MissingDeps { names } => is_missing_deps(r, e, f, names),
        RequestView::Graph { names } => is_drawing(r, e, f, names),
        RequestView::Query { names } => is_query(r, e, f, names),
        RequestView::Targets(mode) => f == e && match (r, targets_listed(s, mode)) {
            (Ok(t), Ok(text)) => t.says(0, text, Seq::empty()),
            (Err(x), Err(y)) => x@ == y,
            _ => false,
        },
        RequestView::CompDb { expand, names } => f == e && (r matches Ok(t) && t.says(
            0,
            database(s, uses_one_of(s, names), expand, directory),
            Seq::empty(),
        )),
        RequestView::Rules { described } => f == e && (r matches Ok(t) && t.says(
            0,
            with_rule_lines(
                Seq::empty(),
                s,
                in_ascending_order(s.scopes.scopes[0].rules.dom()),
                described,
                0,
            ),
            Seq::empty(),
        )),
        RequestView::Recompact => is_recompaction(r, e, f),
        RequestView::Restat { names } => is_restat(r, e, f, names),
        RequestView::Stop { code, out, err } => f == e && (r matches Ok(t) && t.says(
            code as int,
            out,
            err,
        )),
    }
}

/// Whether `r` holds the rewritten logs.
pub open spec fn is_recompaction<D: DiskInterface>(
    r: Result<ToolReport, Error>,
    e: Engine<D>,
    f: Engine<D>,
) -> bool {
    let w = recompacted(e.logs@.deps->0, e.state@);
    let kept = kept_entries::<D>(e.disk.model(), e.state@, e.logs@.build->0);
    &&& f == (Engine { state: f.state, logs: f.logs, ..e })
    &&& f.state@ == (if e.deps_log_found {
        w.state
    } else {
        e.state@
    })
    &&& f.logs@ == (LogsView {
        build: if e.build_log_found {
            Some(kept)
        } else {
            e.logs@.build
        },
        stale: !e.build_log_found && e.logs@.stale,
        deps: if e.deps_log_found && w.error is None {
            Some(w.log)
        } else {
            e.logs@.deps
        },
        ..e.logs@
    })
    &&& match r {
        Ok(t) => {
            &&& t.code == 0
            &&& t.out@ == Seq::<char>::empty()
            &&& t.err@ == Seq::<char>::empty()
            &&& match t.build_log {
                Some(text) => e.build_log_found && is_log_text(text@, kept),
                None => !e.build_log_found,
            }
            &&& match t.deps_log {
                Some(bytes) => e.deps_log_found && w.error is None && bytes@ == w.bytes,
                None => !e.deps_log_found,
            }
        },
        Err(x) => e.deps_log_found && w.error is Some && x@ == ErrorView::Build(w.error->0),
    }
}

/// Whether `r` holds the build log with the mtimes of its outputs as they are on
/// disk.
pub open spec fn is_restat<D: DiskInterface>(
    r: Result<ToolReport, Error>,
    e: Engine<D>,
    f: Engine<D>,
    names: Seq<Seq<char>>,
) -> bool {
    let entries = restated::<D>(e.logs@.build->0, e.disk.model(), names);
    &&& f == (Engine { logs: f.logs, ..e })
    &&& f.logs@ == (LogsView { build: f.logs@.build, ..e.logs@ })
    &&& match r {
        Ok(t) => {
            &&& t.code == 0
            &&& t.out@ == Seq::<char>::empty()
            &&& t.err@ == Seq::<char>::empty()
            &&& t.deps_log is None
            &&& match t.build_log {
                Some(text) => e.build_log_found && is_log_text(text@, entries) && f.logs@.build
                    == Some(entries),
                None => !e.build_log_found && f.logs@.build == e.logs@.build,
            }
        },
        Err(x) => e.build_log_found && exists|k: Seq<char>| #[trigger]
            first_unseen::<D>(e.logs@.build->0, e.disk.model(), names, k, x@) && f.logs@.build
                == Some(restated_before::<D>(e.logs@.build->0, e.disk.model(), names, k)),
    }
}

fn with_lines(lines: &Vec<String>) -> (r: String)
    ensures
        r@ == lines_from(Seq::empty(), texts(lines@), 0),
{
    let ghost t = texts(lines@);
    let mut out = String::new();
    assert(out@ =~= Seq::empty());
    let ghost want = lines_from(out@, t, 0);
    let mut k: usize = 0;
    while k < lines.len()
        invariant
            k <= lines@.len(),
            t == texts(lines@),
            lines_from(out@, t, k as int) == want,
        decreases lines@.len() - k,
    {
        assert(t[k as int] == lines@[k as int]@);
        out.append(lines[k].as_str());
        out.append("\n");
        k += 1;
    }
    out
}

impl<D: DiskInterface> Engine<D> {
    fn nodes_for(&self, names: &Vec<String>) -> (r: Result<Vec<NodeId>, Error>)
        requires
            self.wf(),
        ensures
            match r {
                Ok(v) => nodes_below(v@, self.state@.nodes.len()) && stand_for(
                    texts(names@),
                    v@,
                    self.state@,
                    self.logs@.deps,
                ),
                Err(e) => stand_for_nothing(texts(names@), e, self.state@, self.logs@.deps),
            },
    {
        self.resolve_targets(names.as_slice())
    }

    fn run_clean(&mut self, generator: bool, by_rule: bool, names: &Vec<String>) -> (r: ToolReport)
        requires
            old(self).wf(),
        ensures
            final(self).wf(),
            is_answer(
                Ok(r),
                *old(self),
                *final(self),
                (RequestView::Clean { generator, by_rule, names: texts(names@) }),
                Seq::empty(),
            ),
    {
        let verbosity = self.options.build.verbosity;
        let found = if names.len() == 0 {
            self.clean_all(generator)
        } else if by_rule {
            self.clean_rules(names.as_slice())
        } else {
            self.clean_targets(names.as_slice())
        };
        let ghost c = cleaned_as_asked::<D>(
            old(self).disk.model(),
            self.state@,
            generator,
            by_rule,
            texts(names@),
            old(self).options.build.dry_run,
        );
        clean_report::<D::Model>(&found, verbosity, Ghost(c))
    }

    fn run_commands(
        &self,
        single: bool,
        names: &Vec<String>,
        Ghost(directory): Ghost<Seq<char>>,
    ) -> (r: Result<ToolReport, Error>)
        requires
            self.wf(),
        ensures
            is_listing(
                r,
                *self,
                (RequestView::Commands { single, names: texts(names@) }),
                directory,
            ),
    {
        match self.nodes_for(names) {
            Err(e) => Err(e),
            Ok(v) => {
                let ghost q = RequestView::Commands { single, names: texts(names@) };
                assert(stand_for(names_asked(q), v@, self.state@, self.logs@.deps));
                Ok(printed(tools::commands(&self.state, v.as_slice(), single)))
            },
        }
    }

    fn run_inputs(
        &self,
        options: tools::InputsOptions,
        names: &Vec<String>,
        Ghost(directory): Ghost<Seq<char>>,
    ) -> (r: Result<ToolReport, Error>)
        requires
            self.wf(),
        ensures
            is_listing(
                r,
                *self,
                (RequestView::Inputs { options, names: texts(names@) }),
                directory,
            ),
    {
        match self.nodes_for(names) {
            Err(e) => Err(e),
            Ok(v) => {
                let ghost q = RequestView::Inputs { options, names: texts(names@) };
                assert(stand_for(names_asked(q), v@, self.state@, self.logs@.deps));
                Ok(printed(tools::inputs(&self.state, v.as_slice(), options)))
            },
        }
    }

    fn run_multi_inputs(
        &self,
        delimiter: &str,
        terminator: char,
        names: &Vec<String>,
        Ghost(directory): Ghost<Seq<char>>,
    ) -> (r: Result<ToolReport, Error>)
        requires
            self.wf(),
        ensures
            is_listing(
                r,
                *self,
                (RequestView::MultiInputs {
                    delimiter: delimiter@,
                    terminator,
                    names: texts(names@),
                }),
                directory,
            ),
    {
        match self.nodes_for(names) {
            Err(e) => Err(e),
            Ok(v) => {
                let ghost q = RequestView::MultiInputs {
                    delimiter: delimiter@,
                    terminator,
                    names: texts(names@),
                };
                assert(stand_for(names_asked(q), v@, self.state@, self.logs@.deps));
                let out = tools::multi_inputs(&self.state, v.as_slice(), delimiter, terminator);
                Ok(printed(out))
            },
        }
    }

    fn run_compdb_targets(&self, expand: bool, names: &Vec<String>, directory: &str) -> (r: Result<
        ToolReport,
        Error,
    >)
        requires
            self.wf(),
        ensures
            is_listing(
                r,
                *self,
                (RequestView::CompDbTargets { expand, names: texts(names@) }),
                directory@,
            ),
    {
        match self.nodes_for(names) {
            Err(e) => Err(e),
            Ok(v) => {
                let ghost q = RequestView::CompDbTargets { expand, names: texts(names@) };
                assert(stand_for(names_asked(q), v@, self.state@, self.logs@.deps));
                match tools::compdb_targets(&self.state, v.as_slice(), expand, directory) {
                    Err(e) => Err(e),
                    Ok(text) => Ok(printed(text)),
                }
            },
        }
    }

    fn run_deps(&self, names: &Vec<String>) -> (r: Result<ToolReport, Error>)
        requires
            self.wf(),
        ensures
            is_deps(r, *self, texts(names@)),
    {
        if names.len() == 0 {
            let none: Vec<NodeId> = Vec::new();
            return Ok(
                printed(tools::deps(&self.state, &self.disk, self.deps_log(), none.as_slice())),
            );
        }
        match self.nodes_for(names) {
            Err(e) => Err(e),
            Ok(v) => {
                proof {
                    // Names that stand for nodes are as many as the nodes.
                    assert(v@.len() == names@.len());
                }
                Ok(printed(tools::deps(&self.state, &self.disk, self.deps_log(), v.as_slice())))
            },
        }
    }

    fn run_missing_deps(&mut self, names: &Vec<String>) -> (r: Result<ToolReport, Error>)
        requires
            old(self).wf(),
        ensures
            final(self).wf(),
            is_missing_deps(r, *old(self), *final(self), texts(names@)),
    {
        let v = match self.nodes_for(names) {
            Err(e) => {
                return Err(e);
            },
            Ok(v) => v,
        };
        let ghost n = self.state@.nodes.len();
        let log: &DepsLog = self.logs.deps_log.as_ref().unwrap();
        let checked = tools::missing_deps(&mut self.state, &self.disk, log, v.as_slice());
        proof {
            crate::build::finish::lemma_logs_fit_more(self.logs@, n, self.state@.nodes.len());
        }
        match checked {
            Err(e) => Err(e),
            Ok(found) => {
                let mut out = with_lines(&found.lines);
                out.append(found.summary().as_str());
                let code: i32 = if found.had_missing_deps() {
                    3
                } else {
                    0
                };
                let err = String::new();
                assert(err@ =~= Seq::empty());
                Ok(report(code, out, err))
            },
        }
    }

    fn run_graph(&mut self, names: &Vec<String>) -> (r: Result<ToolReport, Error>)
        requires
            old(self).wf(),
        ensures
            final(self).wf(),
            is_drawing(r, *old(self), *final(self), texts(names@)),
    {
        match self.nodes_for(names) {
            Err(e) => Err(e),
            Ok(v) => {
                let ghost s0 = self.state@;
                let out = tools::graph(&mut self.state, &self.disk, v.as_slice());
                proof {
                    crate::engine::lemma_still_wf(s0, self.state@, self.logs@);
                }
                Ok(printed(out))
            },
        }
    }

    fn run_query(&mut self, names: &Vec<String>) -> (r: Result<ToolReport, Error>)
        requires
            old(self).wf(),
        ensures
            final(self).wf(),
            is_query(r, *old(self), *final(self), texts(names@)),
    {
        match self.nodes_for(names) {
            Err(e) => Err(e),
            Ok(v) => {
                let ghost s0 = self.state@;
                let out = tools::query(&mut self.state, &self.disk, v.as_slice());
                proof {
                    crate::engine::lemma_still_wf(s0, self.state@, self.logs@);
                }
                Ok(printed(out))
            },
        }
    }

    fn run_targets(&self, mode: TargetsMode) -> (r: Result<ToolReport, Error>)
        requires
            self.wf(),
        ensures
            match (r, targets_listed(self.state@, mode@)) {
                (Ok(t), Ok(text)) => t.says(0, text, Seq::empty()),
                (Err(x), Err(y)) => x@ == y,
                _ => false,
            },
    {
        match mode {
            TargetsMode::All => Ok(printed(tools::targets_all(&self.state))),
            TargetsMode::Rule(rule) => {
                if rule.as_str().is_empty() {
                    Ok(printed(tools::targets_source_list(&self.state)))
                } else {
                    Ok(printed(tools::targets_by_rule(&self.state, rule.as_str())))
                }
            },
            TargetsMode::Depth(depth) => match tools::targets_by_depth(&self.state, depth) {
                Err(e) => Err(e),
                Ok(text) => Ok(printed(text)),
            },
        }
    }

    fn run_recompact(&mut self) -> (r: Result<ToolReport, Error>)
        requires
            old(self).wf(),
            old(self).deps_log_found ==> outputs_known(old(self).logs@.deps->0),
        ensures
            final(self).wf(),
            is_recompaction(r, *old(self), *final(self)),
    {
        match self.recompact_logs() {
            Err(e) => Err(e),
            Ok((build_log, deps_log)) => {
                let out = String::new();
                let err = String::new();
                assert(out@ =~= Seq::empty());
                assert(err@ =~= Seq::empty());
                Ok(ToolReport { code: 0, out, err, build_log, deps_log })
            },
        }
    }

    fn run_restat(&mut self, names: &Vec<String>) -> (r: Result<ToolReport, Error>)
        requires
            old(self).wf(),
        ensures
            final(self).wf(),
            is_restat(r, *old(self), *final(self), texts(names@)),
    {
        match self.restat_log(names.as_slice()) {
            Err(e) => Err(e),
            Ok(build_log) => {
                let out = String::new();
                let err = String::new();
                assert(out@ =~= Seq::empty());
                assert(err@ =~= Seq::empty());
                Ok(ToolReport { code: 0, out, err, build_log, deps_log: None })
            },
        }
    }

    /// Run a subtool. `directory` is the current one, as a compilation database
    /// tells it.
    pub fn run_tool(&mut self, request: ToolRequest, directory: &str) -> (r: Result<
        ToolReport,
        Error,
    >)
        requires
            old(self).wf(),
            request@ is Recompact ==> (old(self).deps_log_found ==> outputs_known(
                old(self).logs@.deps->0,
            )),
        ensures
            final(self).wf(),
            is_answer(r, *old(self), *final(self), request@, directory@),
    {
        match request {
            ToolRequest::Clean { generator, by_rule, names } => Ok(
                self.run_clean(generator, by_rule, &names),
            ),
            ToolRequest::CleanDead => {
                let verbosity = self.options.build.verbosity;
                let found = self.clean_dead();
                let ghost c = dead_cleaned::<D>(
                    old(self).disk.model(),
                    self.state@,
                    old(self).logs@.build->0,
                    old(self).options.build.dry_run,
                );
                Ok(clean_report::<D::Model>(&found, verbosity, Ghost(c)))
            },
            ToolRequest::Commands { single, names } => self.run_commands(
                single,
                &names,
                Ghost(directory@),
            ),
            ToolRequest::Inputs { options, names } => self.run_inputs(
                options,
                &names,
                Ghost(directory@),
            ),
            ToolRequest::MultiInputs { delimiter, terminator, names } => self.run_multi_inputs(
                delimiter.as_str(),
                terminator,
                &names,
                Ghost(directory@),
            ),
            ToolRequest::Deps { names } => self.run_deps(&names),
            ToolRequest::MissingDeps { names } => self.run_missing_deps(&names),
            ToolRequest::Graph { names } => self.run_graph(&names),
            ToolRequest::Query { names } => self.run_query(&names),
            ToolRequest::Targets(mode) => self.run_targets(mode),
            ToolRequest::CompDb { expand, names } => Ok(
                printed(tools::compdb(&self.state, names.as_slice(), expand, directory)),
            ),
            ToolRequest::CompDbTargets { expand, names } => self.run_compdb_targets(
                expand,
                &names,
                directory,
            ),
            ToolRequest::Rules { described } => Ok(printed(tools::rules(&self.state, described))),
            ToolRequest::Recompact => self.run_recompact(),
            ToolRequest::Restat { names } => self.run_restat(&names),
            ToolRequest::Stop { code, out, err } => Ok(report(code, out, err)),
        }
    }
}

} // verus!
