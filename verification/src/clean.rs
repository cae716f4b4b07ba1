//! Removing build outputs (`-t clean`, `-t cleandead`).

use vstd::hash_map::StringHashMap;
use vstd::prelude::*;
use vstd::string::*;

use crate::build_log::BuildLog;
use crate::canon::canonicalize_path;
use crate::disk::DiskInterface;
use crate::dyndep::load_all_dyndeps;
use crate::error::Error;
use crate::parse::quoted;
use crate::state::{EdgeId, NodeId, State};
use crate::text::str_eq;

verus! {

broadcast use vstd::hash_map::group_hash_map_axioms;

use crate::build_log::Entries;
use crate::canon::canonical;
use crate::disk::{gone, is_filesystem, same_elsewhere, same_outcome, Outcome};
use crate::dyndep::{all_loaded, marks_kept};
use crate::error::error_text;
use crate::eval::{phony_rule, root_scope};
use crate::plan::{lemma_unseen, unseen};
use crate::state::{nodes_below, path_of, Escape, StateView};
use crate::text::{in_ascending_order, lemma_lists_once, lists, texts};

/// What a clean operation did.
#[derive(Debug)]
pub struct CleanReport {
    /// Paths that were removed (or would be, in dry-run mode), in order.
    pub removed: Vec<String>,
    /// Number of files removed.
    pub count: usize,
    /// Problems encountered; non-empty means the tool should report failure.
    pub errors: Vec<String>,
}

impl CleanReport {
    /// Whether the report is that of an operation.
    pub open spec fn tells<M>(&self, c: Cleaning<M>) -> bool {
        &&& texts(self.removed@) == c.removed
        &&& self.count == c.removed.len()
        &&& texts(self.errors@) == c.errors
    }

    /// True if every removal succeeded.
    pub fn ok(&self) -> (r: bool)
        ensures
            r == (self.errors@.len() == 0),
    {
        self.errors.len() == 0
    }
}

/// A clean operation under way.
#[verifier::ext_equal]
pub struct Cleaning<M> {
    pub disk: M,
    pub removed: Seq<Seq<char>>,
    pub errors: Seq<Seq<char>>,
    /// The paths that have been dealt with.
    pub tried: Set<Seq<char>>,
    /// Which nodes have been cleaned.
    pub cleaned: Seq<bool>,
}

/// A clean operation of a graph with `n` nodes that has not done anything yet.
pub open spec fn cleaning<M>(m: M, n: nat) -> Cleaning<M> {
    Cleaning {
        disk: m,
        removed: Seq::empty(),
        errors: Seq::empty(),
        tried: Set::empty(),
        cleaned: Seq::new(n, |i: int| false),
    }
}

/// What removing `path` comes to. On a dry run it stays.
pub open spec fn path_removed<D: DiskInterface>(
    c: Cleaning<D::Model>,
    path: Seq<char>,
    dry_run: bool,
) -> Cleaning<D::Model> {
    let (found, disk): (Outcome<bool>, D::Model) = if dry_run {
        (
            match D::mtime_of(c.disk, path) {
                Ok(t) => Ok(t > 0),
                Err(f) => Err(f),
            },
            c.disk,
        )
    } else {
        D::removed(c.disk, path)
    };
    if c.tried.contains(path) {
        c
    } else {
        Cleaning {
            disk,
            tried: c.tried.insert(path),
            removed: if found == Ok::<bool, crate::error::ErrorView>(true) {
                c.removed.push(path)
            } else {
                c.removed
            },
            errors: match found {
                Err(f) => c.errors.push(error_text(f)),
                Ok(_) => c.errors,
            },
            ..c
        }
    }
}

/// The same for a path that may be missing.
pub open spec fn some_path_removed<D: DiskInterface>(
    c: Cleaning<D::Model>,
    path: Seq<char>,
    dry_run: bool,
) -> Cleaning<D::Model> {
    if path.len() > 0 {
        path_removed::<D>(c, path, dry_run)
    } else {
        c
    }
}

/// What removing the depfile and the response file of an edge comes to.
pub open spec fn edge_files_removed<D: DiskInterface>(
    c: Cleaning<D::Model>,
    s: StateView,
    edge: EdgeId,
    dry_run: bool,
) -> Cleaning<D::Model> {
    let e = edge.0 as int;
    some_path_removed::<D>(
        some_path_removed::<D>(c, s.binding(e, "depfile"@, Escape::Plain), dry_run),
        s.binding(e, "rspfile"@, Escape::Plain),
        dry_run,
    )
}

/// What removing the outputs from the `k`-th on comes to.
pub open spec fn outputs_removed<D: DiskInterface>(
    c: Cleaning<D::Model>,
    s: StateView,
    outputs: Seq<NodeId>,
    k: int,
    dry_run: bool,
) -> Cleaning<D::Model>
    decreases outputs.len() - k,
{
    if 0 <= k < outputs.len() {
        outputs_removed::<D>(
            path_removed::<D>(c, path_of(s, outputs[k]), dry_run),
            s,
            outputs,
            k + 1,
            dry_run,
        )
    } else {
        c
    }
}

/// Whether cleaning everything includes an edge. Generators are spared unless
/// they are asked for.
pub open spec fn is_cleaned(s: StateView, edge: EdgeId, generator: bool) -> bool {
    &&& s.edges[edge.0 as int].rule != phony_rule()
    &&& generator || s.binding(edge.0 as int, "generator"@, Escape::Shell).len() == 0
}

/// What cleaning the edges from the `k`-th on comes to.
pub open spec fn edges_cleaned<D: DiskInterface>(
    c: Cleaning<D::Model>,
    s: StateView,
    generator: bool,
    k: int,
    dry_run: bool,
) -> Cleaning<D::Model>
    decreases s.edges.len() - k,
{
    if 0 <= k < s.edges.len() {
        let edge = EdgeId(k as usize);
        edges_cleaned::<D>(
            if is_cleaned(s, edge, generator) {
                edge_files_removed::<D>(
                    outputs_removed::<D>(c, s, s.edges[k].outputs, 0, dry_run),
                    s,
                    edge,
                    dry_run,
                )
            } else {
                c
            },
            s,
            generator,
            k + 1,
            dry_run,
        )
    } else {
        c
    }
}

/// What cleaning everything comes to.
pub open spec fn all_cleaned<D: DiskInterface>(
    m: D::Model,
    s: StateView,
    generator: bool,
    dry_run: bool,
) -> Cleaning<D::Model> {
    edges_cleaned::<D>(cleaning(m, s.nodes.len()), s, generator, 0, dry_run)
}

/// Whether nothing in the graph makes or needs `path`.
pub open spec fn is_dead(s: StateView, path: Seq<char>) -> bool {
    match s.find_node(path) {
        None => true,
        Some(n) => s.nodes[n.0 as int].in_edge is None && s.nodes[n.0 as int].out_edges.len() == 0,
    }
}

/// What removing those of the paths from the `k`-th on that are dead comes to.
pub open spec fn dead_removed<D: DiskInterface>(
    c: Cleaning<D::Model>,
    s: StateView,
    paths: Seq<Seq<char>>,
    k: int,
    dry_run: bool,
) -> Cleaning<D::Model>
    decreases paths.len() - k,
{
    if 0 <= k < paths.len() {
        dead_removed::<D>(
            if is_dead(s, paths[k]) {
                path_removed::<D>(c, paths[k], dry_run)
            } else {
                c
            },
            s,
            paths,
            k + 1,
            dry_run,
        )
    } else {
        c
    }
}

/// What removing the outputs in a build log that are dead comes to.
pub open spec fn dead_cleaned<D: DiskInterface>(
    m: D::Model,
    s: StateView,
    log: Entries,
    dry_run: bool,
) -> Cleaning<D::Model> {
    dead_removed::<D>(
        cleaning(m, s.nodes.len()),
        s,
        in_ascending_order(log.dom()),
        0,
        dry_run,
    )
}

/// What cleaning `target` and what is needed to build it comes to. At most
/// `depth` nodes can be nested.
pub open spec fn target_cleaned<D: DiskInterface>(
    c: Cleaning<D::Model>,
    s: StateView,
    target: NodeId,
    dry_run: bool,
    depth: nat,
) -> Cleaning<D::Model>
    decreases depth, 1nat, 0nat,
{
    let marked = Cleaning { cleaned: c.cleaned.update(target.0 as int, true), ..c };
    match s.nodes[target.0 as int].in_edge {
        None => marked,
        Some(edge) => {
            let e = s.edges[edge.0 as int];
            let x = if e.rule == phony_rule() {
                marked
            } else {
                edge_files_removed::<D>(
                    path_removed::<D>(marked, path_of(s, target), dry_run),
                    s,
                    edge,
                    dry_run,
                )
            };
            inputs_cleaned::<D>(x, s, e.inputs, 0, dry_run, depth)
        },
    }
}

/// The same for the nodes from the `k`-th on, except those that are cleaned.
pub open spec fn inputs_cleaned<D: DiskInterface>(
    c: Cleaning<D::Model>,
    s: StateView,
    nodes: Seq<NodeId>,
    k: int,
    dry_run: bool,
    depth: nat,
) -> Cleaning<D::Model>
    decreases depth, 0nat, nodes.len() - k,
{
    if 0 <= k < nodes.len() {
        if c.cleaned[nodes[k].0 as int] || depth == 0 {
            inputs_cleaned::<D>(c, s, nodes, k + 1, dry_run, depth)
        } else {
            inputs_cleaned::<D>(
                target_cleaned::<D>(c, s, nodes[k], dry_run, (depth - 1) as nat),
                s,
                nodes,
                k + 1,
                dry_run,
                depth,
            )
        }
    } else {
        c
    }
}

/// What cleaning the target called `name` comes to.
pub open spec fn name_cleaned<D: DiskInterface>(
    c: Cleaning<D::Model>,
    s: StateView,
    name: Seq<char>,
    dry_run: bool,
) -> Cleaning<D::Model> {
    let path = canonical(name);
    if name.len() == 0 {
        Cleaning { errors: c.errors.push("failed to canonicalize '': empty path"@), ..c }
    } else {
        match s.find_node(path) {
            Some(n) => target_cleaned::<D>(c, s, n, dry_run, s.nodes.len()),
            None => Cleaning {
                errors: c.errors.push("unknown target '"@ + path + "'"@),
                ..c
            },
        }
    }
}

/// The same for the names from the `k`-th on.
pub open spec fn names_cleaned<D: DiskInterface>(
    c: Cleaning<D::Model>,
    s: StateView,
    names: Seq<Seq<char>>,
    k: int,
    dry_run: bool,
) -> Cleaning<D::Model>
    decreases names.len() - k,
{
    if 0 <= k < names.len() {
        names_cleaned::<D>(
            name_cleaned::<D>(c, s, names[k], dry_run),
            s,
            names,
            k + 1,
            dry_run,
        )
    } else {
        c
    }
}

/// What cleaning targets comes to.
pub open spec fn targets_cleaned<D: DiskInterface>(
    m: D::Model,
    s: StateView,
    names: Seq<Seq<char>>,
    dry_run: bool,
) -> Cleaning<D::Model> {
    names_cleaned::<D>(cleaning(m, s.nodes.len()), s, names, 0, dry_run)
}

/// What removing the outputs of an edge from the `k`-th on comes to, each with
/// the other files of the edge.
pub open spec fn rule_outputs_removed<D: DiskInterface>(
    c: Cleaning<D::Model>,
    s: StateView,
    edge: EdgeId,
    k: int,
    dry_run: bool,
) -> Cleaning<D::Model>
    decreases s.edges[edge.0 as int].outputs.len() - k,
{
    let outputs = s.edges[edge.0 as int].outputs;
    if 0 <= k < outputs.len() {
        rule_outputs_removed::<D>(
            edge_files_removed::<D>(
                path_removed::<D>(c, path_of(s, outputs[k]), dry_run),
                s,
                edge,
                dry_run,
            ),
            s,
            edge,
            k + 1,
            dry_run,
        )
    } else {
        c
    }
}

/// What cleaning the edges from the `k`-th on that use the rule `name` comes
/// to.
pub open spec fn rule_cleaned<D: DiskInterface>(
    c: Cleaning<D::Model>,
    s: StateView,
    name: Seq<char>,
    k: int,
    dry_run: bool,
) -> Cleaning<D::Model>
    decreases s.edges.len() - k,
{
    if 0 <= k < s.edges.len() {
        rule_cleaned::<D>(
            if s.rule_of(k).name == name {
                rule_outputs_removed::<D>(c, s, EdgeId(k as usize), 0, dry_run)
            } else {
                c
            },
            s,
            name,
            k + 1,
            dry_run,
        )
    } else {
        c
    }
}

/// The same for the rules from the `k`-th on.
pub open spec fn rules_cleaned_from<D: DiskInterface>(
    c: Cleaning<D::Model>,
    s: StateView,
    names: Seq<Seq<char>>,
    k: int,
    dry_run: bool,
) -> Cleaning<D::Model>
    decreases names.len() - k,
{
    if 0 <= k < names.len() {
        rules_cleaned_from::<D>(
            if s.scopes.find_rule(0, names[k]) is None {
                Cleaning { errors: c.errors.push("unknown rule '"@ + names[k] + "'"@), ..c }
            } else {
                rule_cleaned::<D>(c, s, names[k], 0, dry_run)
            },
            s,
            names,
            k + 1,
            dry_run,
        )
    } else {
        c
    }
}

/// What cleaning rules comes to.
pub open spec fn rules_cleaned<D: DiskInterface>(
    m: D::Model,
    s: StateView,
    names: Seq<Seq<char>>,
    dry_run: bool,
) -> Cleaning<D::Model> {
    rules_cleaned_from::<D>(cleaning(m, s.nodes.len()), s, names, 0, dry_run)
}

/// Removes the files a build produced.
pub struct Cleaner {
    dry_run: bool,
    removed: Vec<String>,
    errors: Vec<String>,
    already_removed: StringHashMap<bool>,
    cleaned: Vec<bool>,
}

impl Cleaner {
    /// Whether nothing is really removed.
    pub closed spec fn is_dry_run(&self) -> bool {
        self.dry_run
    }

    spec fn progress<M>(&self, m: M) -> Cleaning<M> {
        Cleaning {
            disk: m,
            removed: texts(self.removed@),
            errors: texts(self.errors@),
            tried: self.already_removed@.dom(),
            cleaned: self.cleaned@,
        }
    }

    /// A cleaner.
    pub fn new(dry_run: bool) -> (r: Cleaner)
        ensures
            r.is_dry_run() == dry_run,
    {
        Cleaner {
            dry_run,
            removed: Vec::new(),
            errors: Vec::new(),
            already_removed: StringHashMap::new(),
            cleaned: Vec::new(),
        }
    }

    fn reset<M>(&mut self, n: usize, Ghost(m): Ghost<M>)
        ensures
            final(self).dry_run == old(self).dry_run,
            final(self).progress(m) == cleaning(m, n as nat),
    {
        self.removed = Vec::new();
        self.errors = Vec::new();
        self.already_removed = StringHashMap::new();
        let mut cleaned: Vec<bool> = Vec::new();
        while cleaned.len() < n
            invariant
                cleaned@.len() <= n,
                cleaned@ =~= Seq::new(cleaned@.len(), |i: int| false),
            decreases n - cleaned@.len(),
        {
            cleaned.push(false);
        }
        self.cleaned = cleaned;
    }
}

impl Cleaner {
    fn remove<D: DiskInterface>(&mut self, disk: &mut D, path: &str)
        ensures
            final(self).dry_run == old(self).dry_run,
            final(self).progress(final(disk).model()) == path_removed::<D>(
                old(self).progress(old(disk).model()),
                path@,
                old(self).dry_run,
            ),
    {
        let ghost c0 = self.progress(disk.model());
        let ghost want = path_removed::<D>(c0, path@, self.dry_run);
        if self.already_removed.contains_key(path) {
            return;
        }
        self.already_removed.insert(path.to_owned(), true);
        assert(self.already_removed@.dom() =~= c0.tried.insert(path@));
        let found: Result<bool, Error> = if self.dry_run {
            match disk.stat(path) {
                Ok(mtime) => Ok(mtime > 0),
                Err(e) => Err(e),
            }
        } else {
            disk.remove_file(path)
        };
        match found {
            Ok(true) => {
                self.removed.push(path.to_owned());
                assert(texts(self.removed@) =~= c0.removed.push(path@));
            },
            Ok(false) => {},
            Err(e) => {
                self.errors.push(e.message());
                assert(texts(self.errors@) =~= c0.errors.push(error_text(e@)));
            },
        }
    }

    fn remove_edge_files<D: DiskInterface>(&mut self, state: &State, disk: &mut D, edge: EdgeId)
        requires
            state.wf(),
            edge.0 < state@.edges.len(),
        ensures
            final(self).dry_run == old(self).dry_run,
            final(self).progress(final(disk).model()) == edge_files_removed::<D>(
                old(self).progress(old(disk).model()),
                state@,
                edge,
                old(self).dry_run,
            ),
    {
        let depfile = state.edge_depfile(edge);
        if !depfile.as_str().is_empty() {
            self.remove(disk, depfile.as_str());
        }
        let rspfile = state.edge_rspfile(edge);
        if !rspfile.as_str().is_empty() {
            self.remove(disk, rspfile.as_str());
        }
    }

    fn remove_outputs<D: DiskInterface>(&mut self, state: &State, disk: &mut D, edge: EdgeId)
        requires
            state.wf(),
            edge.0 < state@.edges.len(),
        ensures
            final(self).dry_run == old(self).dry_run,
            final(self).progress(final(disk).model()) == outputs_removed::<D>(
                old(self).progress(old(disk).model()),
                state@,
                state@.edges[edge.0 as int].outputs,
                0,
                old(self).dry_run,
            ),
    {
        let ghost dry = self.dry_run;
        let outputs = state.edge(edge).outputs();
        let ghost want = outputs_removed::<D>(
            self.progress(disk.model()),
            state@,
            outputs@,
            0,
            dry,
        );
        proof {
            state.lemma_wf();
            assert(state@.edge_ok(state@.edges[edge.0 as int]));
        }
        let mut k: usize = 0;
        while k < outputs.len()
            invariant
                k <= outputs@.len(),
                nodes_below(outputs@, state@.nodes.len()),
                state.wf(),
                self.dry_run == dry,
                outputs_removed::<D>(
                    self.progress(disk.model()),
                    state@,
                    outputs@,
                    k as int,
                    dry,
                ) == want,
            decreases outputs@.len() - k,
        {
            self.remove(disk, state.node(outputs[k]).path());
            k += 1;
        }
    }

    fn report(&mut self) -> (r: CleanReport)
        ensures
            r.removed@ == old(self).removed@,
            r.count == r.removed@.len(),
            r.errors@ == old(self).errors@,
            final(self).dry_run == old(self).dry_run,
    {
        let mut removed: Vec<String> = Vec::new();
        let mut errors: Vec<String> = Vec::new();
        std::mem::swap(&mut removed, &mut self.removed);
        std::mem::swap(&mut errors, &mut self.errors);
        let count: usize = removed.len();
        CleanReport { removed, count, errors }
    }

    /// Remove the outputs of every edge (`-t clean`).
    ///
    /// Outputs of `generator` rules are kept unless `generator` is true.
    pub fn clean_all<D: DiskInterface>(
        &mut self,
        state: &mut State,
        disk: &mut D,
        generator: bool,
    ) -> (r: CleanReport)
        requires
            old(state).wf(),
        ensures
            final(self).is_dry_run() == old(self).is_dry_run(),
            final(state).wf(),
            marks_kept(old(state)@, final(state)@),
            final(state)@ == all_loaded::<D>(old(disk).model(), old(state)@),
            ({
                let c = all_cleaned::<D>(
                    old(disk).model(),
                    final(state)@,
                    generator,
                    old(self).is_dry_run(),
                );
                &&& r.tells(c)
                &&& final(disk).model() == c.disk
            }),
    {
        // Load dyndep files before they are cleaned away, so the extra outputs they
        // declare are cleaned too.
        load_all_dyndeps(state, disk);
        self.reset(state.node_count(), Ghost(disk.model()));
        let ghost dry = self.dry_run;
        let ghost s = state@;
        let ghost want = all_cleaned::<D>(disk.model(), s, generator, dry);
        let n: usize = state.edge_count();
        let mut k: usize = 0;
        while k < n
            invariant
                k <= n,
                s == state@,
                n == s.edges.len(),
                state.wf(),
                self.dry_run == dry,
                edges_cleaned::<D>(
                    self.progress(disk.model()),
                    s,
                    generator,
                    k as int,
                    dry,
                ) == want,
            decreases n - k,
        {
            let edge = EdgeId(k);
            if !state.edge_is_phony(edge) && (generator || !state.edge_is_generator(edge)) {
                self.remove_outputs(state, disk, edge);
                self.remove_edge_files(state, disk, edge);
            }
            k += 1;
        }
        let ghost c = self.progress(disk.model());
        assert(c == want);
        self.report()
    }

    /// Remove outputs recorded in the build log that the manifest no longer
    /// produces (`-t cleandead`).
    pub fn clean_dead<D: DiskInterface>(
        &mut self,
        state: &mut State,
        disk: &mut D,
        log: &BuildLog,
    ) -> (r: CleanReport)
        requires
            old(state).wf(),
        ensures
            final(self).is_dry_run() == old(self).is_dry_run(),
            final(state).wf(),
            marks_kept(old(state)@, final(state)@),
            final(state)@ == all_loaded::<D>(old(disk).model(), old(state)@),
            ({
                let c = dead_cleaned::<D>(
                    old(disk).model(),
                    final(state)@,
                    log.recorded(),
                    old(self).is_dry_run(),
                );
                &&& r.tells(c)
                &&& final(disk).model() == c.disk
            }),
    {
        load_all_dyndeps(state, disk);
        self.reset(state.node_count(), Ghost(disk.model()));
        let ghost dry = self.dry_run;
        let ghost s = state@;
        let ghost want = dead_cleaned::<D>(disk.model(), s, log.recorded(), dry);
        let paths = log.entries();
        let ghost ps = texts(paths@);
        proof {
            let keys = log.recorded().dom();
            assert(lists(ps, keys));
            lemma_lists_once(ps, in_ascending_order(keys), keys);
        }
        let mut k: usize = 0;
        while k < paths.len()
            invariant
                k <= paths@.len(),
                ps == texts(paths@),
                s == state@,
                state.wf(),
                self.dry_run == dry,
                dead_removed::<D>(self.progress(disk.model()), s, ps, k as int, dry) == want,
            decreases paths@.len() - k,
        {
            let path = paths[k].as_str();
            proof {
                assert(ps[k as int] == path@);
                state.lemma_wf();
                crate::state::lemma_node_index(state@.nodes, path@, 0);
            }
            let dead: bool = match state.lookup_node(path) {
                None => true,
                Some(n) => state.node(n).in_edge().is_none() && state.node(n).out_edges().len()
                    == 0,
            };
            if dead {
                self.remove(disk, path);
            }
            k += 1;
        }
        let ghost c = self.progress(disk.model());
        assert(c == want);
        self.report()
    }
}

proof fn lemma_marked_unseen(v: Seq<bool>, k: int)
    requires
        0 <= k < v.len(),
    ensures
        unseen(v.update(k, true)) <= unseen(v),
        !v[k] ==> unseen(v.update(k, true)) + 1 == unseen(v),
{
    if v[k] {
        assert(v.update(k, true) =~= v);
    } else {
        lemma_unseen(v, k);
    }
}

proof fn lemma_unseen_bound(v: Seq<bool>)
    ensures
        unseen(v) <= v.len(),
    decreases v.len(),
{
    if v.len() > 0 {
        lemma_unseen_bound(v.drop_last());
    }
}

impl Cleaner {
    fn do_clean_target<D: DiskInterface>(
        &mut self,
        state: &State,
        disk: &mut D,
        target: NodeId,
        Ghost(depth): Ghost<nat>,
    )
        requires
            state.wf(),
            target.0 < state@.nodes.len(),
            old(self).cleaned@.len() == state@.nodes.len(),
            unseen(old(self).cleaned@.update(target.0 as int, true)) <= depth,
        ensures
            final(self).dry_run == old(self).dry_run,
            final(self).cleaned@.len() == old(self).cleaned@.len(),
            unseen(final(self).cleaned@) <= unseen(
                old(self).cleaned@.update(target.0 as int, true),
            ),
            final(self).progress(final(disk).model()) == target_cleaned::<D>(
                old(self).progress(old(disk).model()),
                state@,
                target,
                old(self).dry_run,
                depth,
            ),
        decreases depth, 1nat,
    {
        let ghost c0 = self.progress(disk.model());
        self.cleaned.set(target.0, true);
        assert(self.progress(disk.model()) == (Cleaning {
            cleaned: c0.cleaned.update(target.0 as int, true),
            ..c0
        }));
        proof {
            state.lemma_wf();
            assert(state@.node_ok(state@.nodes[target.0 as int]));
        }
        if let Some(edge) = state.node(target).in_edge() {
            proof {
                assert(state@.edge_ok(state@.edges[edge.0 as int]));
            }
            if !state.edge_is_phony(edge) {
                self.remove(disk, state.node(target).path());
                self.remove_edge_files(state, disk, edge);
            }
            self.do_clean_inputs(state, disk, edge, Ghost(depth));
        }
    }

    fn do_clean_inputs<D: DiskInterface>(
        &mut self,
        state: &State,
        disk: &mut D,
        edge: EdgeId,
        Ghost(depth): Ghost<nat>,
    )
        requires
            state.wf(),
            edge.0 < state@.edges.len(),
            old(self).cleaned@.len() == state@.nodes.len(),
            unseen(old(self).cleaned@) <= depth,
        ensures
            final(self).dry_run == old(self).dry_run,
            final(self).cleaned@.len() == old(self).cleaned@.len(),
            unseen(final(self).cleaned@) <= unseen(old(self).cleaned@),
            final(self).progress(final(disk).model()) == inputs_cleaned::<D>(
                old(self).progress(old(disk).model()),
                state@,
                state@.edges[edge.0 as int].inputs,
                0,
                old(self).dry_run,
                depth,
            ),
        decreases depth, 0nat,
    {
        let ghost dry = self.dry_run;
        let ghost u0 = unseen(self.cleaned@);
        let inputs = state.edge(edge).inputs();
        let ghost want = inputs_cleaned::<D>(
            self.progress(disk.model()),
            state@,
            inputs@,
            0,
            dry,
            depth,
        );
        proof {
            state.lemma_wf();
            assert(state@.edge_ok(state@.edges[edge.0 as int]));
        }
        let mut k: usize = 0;
        while k < inputs.len()
            invariant
                k <= inputs@.len(),
                state.wf(),
                nodes_below(inputs@, state@.nodes.len()),
                self.dry_run == dry,
                self.cleaned@.len() == state@.nodes.len(),
                unseen(self.cleaned@) <= u0 <= depth,
                inputs_cleaned::<D>(
                    self.progress(disk.model()),
                    state@,
                    inputs@,
                    k as int,
                    dry,
                    depth,
                ) == want,
            decreases inputs@.len() - k,
        {
            let input = inputs[k];
            if !self.cleaned[input.0] {
                proof {
                    lemma_marked_unseen(self.cleaned@, input.0 as int);
                }
                self.do_clean_target(state, disk, input, Ghost((depth - 1) as nat));
            }
            k += 1;
        }
    }

    /// Remove the outputs needed to build `targets`, transitively.
    pub fn clean_targets<D: DiskInterface>(
        &mut self,
        state: &mut State,
        disk: &mut D,
        targets: &[String],
    ) -> (r: CleanReport)
        requires
            old(state).wf(),
        ensures
            final(self).is_dry_run() == old(self).is_dry_run(),
            final(state).wf(),
            marks_kept(old(state)@, final(state)@),
            final(state)@ == all_loaded::<D>(old(disk).model(), old(state)@),
            ({
                let c = targets_cleaned::<D>(
                    old(disk).model(),
                    final(state)@,
                    texts(targets@),
                    old(self).is_dry_run(),
                );
                &&& r.tells(c)
                &&& final(disk).model() == c.disk
            }),
    {
        load_all_dyndeps(state, disk);
        self.reset(state.node_count(), Ghost(disk.model()));
        let ghost dry = self.dry_run;
        let ghost s = state@;
        let ghost names = texts(targets@);
        let ghost want = targets_cleaned::<D>(disk.model(), s, names, dry);
        let mut k: usize = 0;
        while k < targets.len()
            invariant
                k <= targets@.len(),
                names == texts(targets@),
                s == state@,
                state.wf(),
                self.dry_run == dry,
                self.cleaned@.len() == s.nodes.len(),
                names_cleaned::<D>(self.progress(disk.model()), s, names, k as int, dry) == want,
            decreases targets@.len() - k,
        {
            let ghost c0 = self.progress(disk.model());
            let target = targets[k].as_str();
            assert(names[k as int] == target@);
            if target.is_empty() {
                self.errors.push("failed to canonicalize '': empty path".to_owned());
                assert(texts(self.errors@) =~= c0.errors.push(
                    "failed to canonicalize '': empty path"@,
                ));
            } else {
                let mut name: String = target.to_owned();
                canonicalize_path(&mut name);
                proof {
                    state.lemma_wf();
                    crate::state::lemma_node_index(state@.nodes, name@, 0);
                }
                match state.lookup_node(name.as_str()) {
                    Some(node) => {
                        proof {
                            lemma_unseen_bound(self.cleaned@.update(node.0 as int, true));
                        }
                        self.do_clean_target(state, disk, node, Ghost(s.nodes.len()));
                    },
                    None => {
                        self.errors.push(quoted("unknown target '", name.as_str(), "'"));
                        assert(texts(self.errors@) =~= c0.errors.push(
                            "unknown target '"@ + name@ + "'"@,
                        ));
                    },
                }
            }
            k += 1;
        }
        let ghost c = self.progress(disk.model());
        assert(c == want);
        self.report()
    }

    fn remove_rule_outputs<D: DiskInterface>(&mut self, state: &State, disk: &mut D, edge: EdgeId)
        requires
            state.wf(),
            edge.0 < state@.edges.len(),
        ensures
            final(self).dry_run == old(self).dry_run,
            final(self).progress(final(disk).model()) == rule_outputs_removed::<D>(
                old(self).progress(old(disk).model()),
                state@,
                edge,
                0,
                old(self).dry_run,
            ),
    {
        let ghost dry = self.dry_run;
        let outputs = state.edge(edge).outputs();
        let ghost want = rule_outputs_removed::<D>(
            self.progress(disk.model()),
            state@,
            edge,
            0,
            dry,
        );
        proof {
            state.lemma_wf();
            assert(state@.edge_ok(state@.edges[edge.0 as int]));
        }
        let mut k: usize = 0;
        while k < outputs.len()
            invariant
                k <= outputs@.len(),
                outputs@ == state@.edges[edge.0 as int].outputs,
                edge.0 < state@.edges.len(),
                nodes_below(outputs@, state@.nodes.len()),
                state.wf(),
                self.dry_run == dry,
                rule_outputs_removed::<D>(
                    self.progress(disk.model()),
                    state@,
                    edge,
                    k as int,
                    dry,
                ) == want,
            decreases outputs@.len() - k,
        {
            self.remove(disk, state.node(outputs[k]).path());
            self.remove_edge_files(state, disk, edge);
            k += 1;
        }
    }

    fn do_clean_rule<D: DiskInterface>(&mut self, state: &State, disk: &mut D, rule_name: &str)
        requires
            state.wf(),
        ensures
            final(self).dry_run == old(self).dry_run,
            final(self).progress(final(disk).model()) == rule_cleaned::<D>(
                old(self).progress(old(disk).model()),
                state@,
                rule_name@,
                0,
                old(self).dry_run,
            ),
    {
        let ghost dry = self.dry_run;
        let ghost want = rule_cleaned::<D>(
            self.progress(disk.model()),
            state@,
            rule_name@,
            0,
            dry,
        );
        let n: usize = state.edge_count();
        let mut k: usize = 0;
        while k < n
            invariant
                k <= n,
                n == state@.edges.len(),
                state.wf(),
                self.dry_run == dry,
                rule_cleaned::<D>(
                    self.progress(disk.model()),
                    state@,
                    rule_name@,
                    k as int,
                    dry,
                ) == want,
            decreases n - k,
        {
            let edge = EdgeId(k);
            if str_eq(state.edge_rule_name(edge), rule_name) {
                self.remove_rule_outputs(state, disk, edge);
            }
            k += 1;
        }
    }

    /// Remove the outputs of every edge using one of `rules`.
    pub fn clean_rules<D: DiskInterface>(
        &mut self,
        state: &mut State,
        disk: &mut D,
        rules: &[String],
    ) -> (r: CleanReport)
        requires
            old(state).wf(),
        ensures
            final(self).is_dry_run() == old(self).is_dry_run(),
            final(state).wf(),
            marks_kept(old(state)@, final(state)@),
            final(state)@ == all_loaded::<D>(old(disk).model(), old(state)@),
            ({
                let c = rules_cleaned::<D>(
                    old(disk).model(),
                    final(state)@,
                    texts(rules@),
                    old(self).is_dry_run(),
                );
                &&& r.tells(c)
                &&& final(disk).model() == c.disk
            }),
    {
        load_all_dyndeps(state, disk);
        self.reset(state.node_count(), Ghost(disk.model()));
        let ghost dry = self.dry_run;
        let ghost s = state@;
        let ghost names = texts(rules@);
        let ghost want = rules_cleaned::<D>(disk.model(), s, names, dry);
        let mut k: usize = 0;
        while k < rules.len()
            invariant
                k <= rules@.len(),
                names == texts(rules@),
                s == state@,
                state.wf(),
                self.dry_run == dry,
                rules_cleaned_from::<D>(
                    self.progress(disk.model()),
                    s,
                    names,
                    k as int,
                    dry,
                ) == want,
            decreases rules@.len() - k,
        {
            let ghost c0 = self.progress(disk.model());
            let rule = rules[k].as_str();
            assert(names[k as int] == rule@);
            proof {
                state.lemma_wf();
            }
            if state.scopes().lookup_rule(root_scope(), rule).is_none() {
                self.errors.push(quoted("unknown rule '", rule, "'"));
                assert(texts(self.errors@) =~= c0.errors.push("unknown rule '"@ + rule@ + "'"@));
            } else {
                self.do_clean_rule(state, disk, rule);
            }
            k += 1;
        }
        let ghost c = self.progress(disk.model());
        assert(c == want);
        self.report()
    }
}

/// Remove `path`, reporting whether anything was deleted.
pub fn remove_file<D: DiskInterface>(disk: &mut D, path: &str) -> (r: Result<bool, Error>)
    ensures
        same_outcome(r, D::removed(old(disk).model(), path@).0),
        final(disk).model() == D::removed(old(disk).model(), path@).1,
{
    disk.remove_file(path)
}

/// Whether no path is removed twice, and every removed path has been dealt
/// with.
pub open spec fn is_tidy<M>(c: Cleaning<M>) -> bool {
    &&& c.removed.no_duplicates()
    &&& forall|i: int| 0 <= i < c.removed.len() ==> c.tried.contains(#[trigger] c.removed[i])
}

/// What holds of a clean operation and what it goes on to: nothing is removed
/// twice, and on a dry run the disk stays as it is.
pub open spec fn goes_on<M>(c: Cleaning<M>, d: Cleaning<M>, dry_run: bool) -> bool {
    &&& is_tidy(c) ==> is_tidy(d)
    &&& dry_run ==> d.disk == c.disk
}

proof fn lemma_path_removed<D: DiskInterface>(c: Cleaning<D::Model>, path: Seq<char>, dry_run: bool)
    ensures
        goes_on(c, path_removed::<D>(c, path, dry_run), dry_run),
        goes_on(c, some_path_removed::<D>(c, path, dry_run), dry_run),
{
    let d = path_removed::<D>(c, path, dry_run);
    if is_tidy(c) && !c.tried.contains(path) {
        assert forall|i: int| 0 <= i < d.removed.len() implies d.tried.contains(
            #[trigger] d.removed[i],
        ) by {
            if i < c.removed.len() {
                assert(d.removed[i] == c.removed[i]);
            }
        }
        assert forall|i: int, j: int|
            0 <= i < d.removed.len() && 0 <= j < d.removed.len() && i != j implies d.removed[i]
            != d.removed[j] by {
            if i < c.removed.len() {
                assert(c.tried.contains(c.removed[i]));
            }
            if j < c.removed.len() {
                assert(c.tried.contains(c.removed[j]));
            }
        }
    }
}

proof fn lemma_edge_files_removed<D: DiskInterface>(
    c: Cleaning<D::Model>,
    s: StateView,
    edge: EdgeId,
    dry_run: bool,
)
    ensures
        goes_on(c, edge_files_removed::<D>(c, s, edge, dry_run), dry_run),
{
    let e = edge.0 as int;
    let depfile = s.binding(e, "depfile"@, Escape::Plain);
    lemma_path_removed::<D>(c, depfile, dry_run);
    lemma_path_removed::<D>(
        some_path_removed::<D>(c, depfile, dry_run),
        s.binding(e, "rspfile"@, Escape::Plain),
        dry_run,
    );
}

proof fn lemma_outputs_removed<D: DiskInterface>(
    c: Cleaning<D::Model>,
    s: StateView,
    outputs: Seq<NodeId>,
    k: int,
    dry_run: bool,
)
    ensures
        goes_on(c, outputs_removed::<D>(c, s, outputs, k, dry_run), dry_run),
    decreases outputs.len() - k,
{
    if 0 <= k < outputs.len() {
        let path = path_of(s, outputs[k]);
        lemma_path_removed::<D>(c, path, dry_run);
        lemma_outputs_removed::<D>(
            path_removed::<D>(c, path, dry_run),
            s,
            outputs,
            k + 1,
            dry_run,
        );
    }
}

proof fn lemma_edges_cleaned<D: DiskInterface>(
    c: Cleaning<D::Model>,
    s: StateView,
    generator: bool,
    k: int,
    dry_run: bool,
)
    ensures
        goes_on(c, edges_cleaned::<D>(c, s, generator, k, dry_run), dry_run),
    decreases s.edges.len() - k,
{
    if 0 <= k < s.edges.len() {
        let edge = EdgeId(k as usize);
        if is_cleaned(s, edge, generator) {
            let d = outputs_removed::<D>(c, s, s.edges[k].outputs, 0, dry_run);
            lemma_outputs_removed::<D>(c, s, s.edges[k].outputs, 0, dry_run);
            lemma_edge_files_removed::<D>(d, s, edge, dry_run);
            lemma_edges_cleaned::<D>(
                edge_files_removed::<D>(d, s, edge, dry_run),
                s,
                generator,
                k + 1,
                dry_run,
            );
        } else {
            lemma_edges_cleaned::<D>(c, s, generator, k + 1, dry_run);
        }
    }
}

proof fn lemma_dead_removed<D: DiskInterface>(
    c: Cleaning<D::Model>,
    s: StateView,
    paths: Seq<Seq<char>>,
    k: int,
    dry_run: bool,
)
    ensures
        goes_on(c, dead_removed::<D>(c, s, paths, k, dry_run), dry_run),
    decreases paths.len() - k,
{
    if 0 <= k < paths.len() {
        lemma_path_removed::<D>(c, paths[k], dry_run);
        lemma_dead_removed::<D>(c, s, paths, k + 1, dry_run);
        lemma_dead_removed::<D>(
            path_removed::<D>(c, paths[k], dry_run),
            s,
            paths,
            k + 1,
            dry_run,
        );
    }
}

proof fn lemma_target_cleaned<D: DiskInterface>(
    c: Cleaning<D::Model>,
    s: StateView,
    target: NodeId,
    dry_run: bool,
    depth: nat,
)
    ensures
        goes_on(c, target_cleaned::<D>(c, s, target, dry_run, depth), dry_run),
    decreases depth, 1nat, 0nat,
{
    let marked = Cleaning { cleaned: c.cleaned.update(target.0 as int, true), ..c };
    match s.nodes[target.0 as int].in_edge {
        None => {},
        Some(edge) => {
            let e = s.edges[edge.0 as int];
            if e.rule == phony_rule() {
                lemma_inputs_cleaned::<D>(marked, s, e.inputs, 0, dry_run, depth);
            } else {
                let path = path_of(s, target);
                lemma_path_removed::<D>(marked, path, dry_run);
                let d = path_removed::<D>(marked, path, dry_run);
                lemma_edge_files_removed::<D>(d, s, edge, dry_run);
                let f = edge_files_removed::<D>(d, s, edge, dry_run);
                lemma_inputs_cleaned::<D>(f, s, e.inputs, 0, dry_run, depth);
            }
        },
    }
}

proof fn lemma_inputs_cleaned<D: DiskInterface>(
    c: Cleaning<D::Model>,
    s: StateView,
    nodes: Seq<NodeId>,
    k: int,
    dry_run: bool,
    depth: nat,
)
    ensures
        goes_on(c, inputs_cleaned::<D>(c, s, nodes, k, dry_run, depth), dry_run),
    decreases depth, 0nat, nodes.len() - k,
{
    if 0 <= k < nodes.len() {
        if c.cleaned[nodes[k].0 as int] || depth == 0 {
            lemma_inputs_cleaned::<D>(c, s, nodes, k + 1, dry_run, depth);
        } else {
            lemma_target_cleaned::<D>(c, s, nodes[k], dry_run, (depth - 1) as nat);
            let d = target_cleaned::<D>(c, s, nodes[k], dry_run, (depth - 1) as nat);
            lemma_inputs_cleaned::<D>(d, s, nodes, k + 1, dry_run, depth);
        }
    }
}

proof fn lemma_names_cleaned<D: DiskInterface>(
    c: Cleaning<D::Model>,
    s: StateView,
    names: Seq<Seq<char>>,
    k: int,
    dry_run: bool,
)
    ensures
        goes_on(c, names_cleaned::<D>(c, s, names, k, dry_run), dry_run),
    decreases names.len() - k,
{
    if 0 <= k < names.len() {
        match s.find_node(canonical(names[k])) {
            Some(n) => {
                lemma_target_cleaned::<D>(c, s, n, dry_run, s.nodes.len());
            },
            None => {},
        }
        let d = name_cleaned::<D>(c, s, names[k], dry_run);
        assert(goes_on(c, d, dry_run));
        lemma_names_cleaned::<D>(d, s, names, k + 1, dry_run);
    }
}

proof fn lemma_rule_outputs_removed<D: DiskInterface>(
    c: Cleaning<D::Model>,
    s: StateView,
    edge: EdgeId,
    k: int,
    dry_run: bool,
)
    ensures
        goes_on(c, rule_outputs_removed::<D>(c, s, edge, k, dry_run), dry_run),
    decreases s.edges[edge.0 as int].outputs.len() - k,
{
    let outputs = s.edges[edge.0 as int].outputs;
    if 0 <= k < outputs.len() {
        let path = path_of(s, outputs[k]);
        lemma_path_removed::<D>(c, path, dry_run);
        let d = path_removed::<D>(c, path, dry_run);
        lemma_edge_files_removed::<D>(d, s, edge, dry_run);
        let f = edge_files_removed::<D>(d, s, edge, dry_run);
        lemma_rule_outputs_removed::<D>(f, s, edge, k + 1, dry_run);
    }
}

proof fn lemma_rule_cleaned<D: DiskInterface>(
    c: Cleaning<D::Model>,
    s: StateView,
    name: Seq<char>,
    k: int,
    dry_run: bool,
)
    ensures
        goes_on(c, rule_cleaned::<D>(c, s, name, k, dry_run), dry_run),
    decreases s.edges.len() - k,
{
    if 0 <= k < s.edges.len() {
        let edge = EdgeId(k as usize);
        lemma_rule_outputs_removed::<D>(c, s, edge, 0, dry_run);
        lemma_rule_cleaned::<D>(c, s, name, k + 1, dry_run);
        lemma_rule_cleaned::<D>(
            rule_outputs_removed::<D>(c, s, edge, 0, dry_run),
            s,
            name,
            k + 1,
            dry_run,
        );
    }
}

proof fn lemma_rules_cleaned<D: DiskInterface>(
    c: Cleaning<D::Model>,
    s: StateView,
    names: Seq<Seq<char>>,
    k: int,
    dry_run: bool,
)
    ensures
        goes_on(c, rules_cleaned_from::<D>(c, s, names, k, dry_run), dry_run),
    decreases names.len() - k,
{
    if 0 <= k < names.len() {
        lemma_rule_cleaned::<D>(c, s, names[k], 0, dry_run);
        let d = if s.scopes.find_rule(0, names[k]) is None {
            Cleaning { errors: c.errors.push("unknown rule '"@ + names[k] + "'"@), ..c }
        } else {
            rule_cleaned::<D>(c, s, names[k], 0, dry_run)
        };
        assert(goes_on(c, d, dry_run));
        lemma_rules_cleaned::<D>(d, s, names, k + 1, dry_run);
    }
}

/// A dry run leaves the disk as it is, whatever is cleaned.
pub proof fn law_dry_run_keeps_files<D: DiskInterface>(
    m: D::Model,
    s: StateView,
    generator: bool,
    log: Entries,
    names: Seq<Seq<char>>,
)
    ensures
        all_cleaned::<D>(m, s, generator, true).disk == m,
        dead_cleaned::<D>(m, s, log, true).disk == m,
        targets_cleaned::<D>(m, s, names, true).disk == m,
        rules_cleaned::<D>(m, s, names, true).disk == m,
{
    let c = cleaning(m, s.nodes.len());
    lemma_edges_cleaned::<D>(c, s, generator, 0, true);
    lemma_dead_removed::<D>(c, s, in_ascending_order(log.dom()), 0, true);
    lemma_names_cleaned::<D>(c, s, names, 0, true);
    lemma_rules_cleaned::<D>(c, s, names, 0, true);
}

/// Whatever is cleaned, no file is reported as removed twice.
pub proof fn law_files_are_removed_once<D: DiskInterface>(
    m: D::Model,
    s: StateView,
    generator: bool,
    log: Entries,
    names: Seq<Seq<char>>,
    dry_run: bool,
)
    ensures
        all_cleaned::<D>(m, s, generator, dry_run).removed.no_duplicates(),
        dead_cleaned::<D>(m, s, log, dry_run).removed.no_duplicates(),
        targets_cleaned::<D>(m, s, names, dry_run).removed.no_duplicates(),
        rules_cleaned::<D>(m, s, names, dry_run).removed.no_duplicates(),
{
    let c = cleaning(m, s.nodes.len());
    assert(is_tidy(c));
    lemma_edges_cleaned::<D>(c, s, generator, 0, dry_run);
    lemma_dead_removed::<D>(c, s, in_ascending_order(log.dom()), 0, dry_run);
    lemma_names_cleaned::<D>(c, s, names, 0, dry_run);
    lemma_rules_cleaned::<D>(c, s, names, 0, dry_run);
}

/// Whether one gets from `v[0]` to `v.last()` by going from something that is
/// made to something that it is made from.
pub open spec fn is_supply_line(s: StateView, v: Seq<NodeId>) -> bool {
    &&& v.len() > 0
    &&& forall|i: int|
        0 <= i < v.len() - 1 ==> match s.nodes[(#[trigger] v[i]).0 as int].in_edge {
            Some(e) => s.edges[e.0 as int].inputs.contains(v[i + 1]),
            None => false,
        }
}

/// Whether `path` is a file that the command of `edge` makes besides its
/// outputs, or is given.
pub open spec fn is_file_of(s: StateView, edge: EdgeId, path: Seq<char>) -> bool {
    &&& path.len() > 0
    &&& path == s.binding(edge.0 as int, "depfile"@, Escape::Plain) || path == s.binding(
        edge.0 as int,
        "rspfile"@,
        Escape::Plain,
    )
}

/// Whether `path` is node `n`, which a command makes, or a file of that command.
pub open spec fn is_product(s: StateView, n: NodeId, path: Seq<char>) -> bool {
    match s.nodes[n.0 as int].in_edge {
        None => false,
        Some(e) => s.edges[e.0 as int].rule != phony_rule() && (path == s.nodes[n.0 as int].path
            || is_file_of(s, e, path)),
    }
}

/// Whether what has been tried is gone, if nothing went wrong, and told of if it
/// was there on the disk `m`, and everything else is as it was there.
spec fn is_honest<D: DiskInterface>(
    ok: spec_fn(D::Model) -> bool,
    m: D::Model,
    c: Cleaning<D::Model>,
) -> bool {
    &&& ok(c.disk)
    &&& c.errors.len() == 0 ==> forall|q: Seq<char>| #[trigger]
        c.tried.contains(q) ==> gone::<D>(c.disk, q)
    &&& c.errors.len() == 0 ==> forall|q: Seq<char>| #[trigger]
        c.removed.contains(q) <==> c.tried.contains(q) && !gone::<D>(m, q)
    &&& forall|q: Seq<char>|
        !(#[trigger] c.tried.contains(q)) ==> D::content_of(c.disk, q) == D::content_of(m, q)
}

/// Whether nothing that has been tried, or gone wrong, is forgotten.
spec fn is_later<M>(c: Cleaning<M>, d: Cleaning<M>) -> bool {
    &&& c.errors.len() <= d.errors.len()
    &&& forall|q: Seq<char>| #[trigger] c.tried.contains(q) ==> d.tried.contains(q)
}

proof fn lemma_path_gone<D: DiskInterface>(
    ok: spec_fn(D::Model) -> bool,
    m: D::Model,
    c: Cleaning<D::Model>,
    path: Seq<char>,
)
    requires
        is_filesystem::<D>(ok),
        is_honest::<D>(ok, m, c),
    ensures
        ({
            let d = path_removed::<D>(c, path, false);
            &&& is_honest::<D>(ok, m, d)
            &&& is_later(c, d)
            &&& d.tried == c.tried.insert(path)
            &&& d.cleaned == c.cleaned
        }),
{
    let d = path_removed::<D>(c, path, false);
    let n = D::removed(c.disk, path).1;
    if c.tried.contains(path) {
        assert(c.tried.insert(path) =~= c.tried);
    } else {
        assert(same_elsewhere::<D>(c.disk, n, path));
        assert forall|q: Seq<char>| d.errors.len() == 0 && #[trigger] d.tried.contains(
            q,
        ) implies gone::<D>(d.disk, q) by {
            if q != path {
                assert(c.tried.contains(q));
                assert(D::content_of(n, q) == D::content_of(c.disk, q));
            }
        }
        assert forall|q: Seq<char>| d.errors.len() == 0 implies (#[trigger] d.removed.contains(q)
            <==> d.tried.contains(q) && !gone::<D>(m, q)) by {
            assert(D::content_of(c.disk, path) == D::content_of(m, path));
            let told = D::removed(c.disk, path).0 == Ok::<bool, crate::error::ErrorView>(true);
            if told {
                if c.removed.contains(q) {
                    let i = choose|i: int| 0 <= i < c.removed.len() && c.removed[i] == q;
                    assert(d.removed[i] == q);
                }
                assert(d.removed[c.removed.len() as int] == path);
                if d.removed.contains(q) && q != path {
                    let i = choose|i: int| 0 <= i < d.removed.len() && d.removed[i] == q;
                    assert(c.removed[i] == q);
                }
            }
            assert(c.removed.contains(q) <==> c.tried.contains(q) && !gone::<D>(m, q));
        }
        assert forall|q: Seq<char>| !(#[trigger] d.tried.contains(q)) implies D::content_of(
            d.disk,
            q,
        ) == D::content_of(m, q) by {
            assert(!c.tried.contains(q));
            assert(D::content_of(n, q) == D::content_of(c.disk, q));
        }
    }
}

proof fn lemma_edge_files_gone<D: DiskInterface>(
    ok: spec_fn(D::Model) -> bool,
    m: D::Model,
    c: Cleaning<D::Model>,
    s: StateView,
    edge: EdgeId,
)
    requires
        is_filesystem::<D>(ok),
        is_honest::<D>(ok, m, c),
    ensures
        ({
            let d = edge_files_removed::<D>(c, s, edge, false);
            &&& is_honest::<D>(ok, m, d)
            &&& is_later(c, d)
            &&& d.cleaned == c.cleaned
            &&& forall|q: Seq<char>| #[trigger]
                d.tried.contains(q) <==> c.tried.contains(q) || is_file_of(s, edge, q)
        }),
{
    let depfile = s.binding(edge.0 as int, "depfile"@, Escape::Plain);
    let rspfile = s.binding(edge.0 as int, "rspfile"@, Escape::Plain);
    if depfile.len() > 0 {
        lemma_path_gone::<D>(ok, m, c, depfile);
    }
    let d = some_path_removed::<D>(c, depfile, false);
    if rspfile.len() > 0 {
        lemma_path_gone::<D>(ok, m, d, rspfile);
    }
}

/// Whether the products of node `n` have been tried, and what it is made from
/// has been cleaned.
spec fn is_dealt_with<M>(s: StateView, c: Cleaning<M>, n: int) -> bool {
    match s.nodes[n].in_edge {
        None => true,
        Some(e) => {
            &&& s.edges[e.0 as int].rule != phony_rule() ==> c.tried.contains(s.nodes[n].path)
                && forall|q: Seq<char>| #[trigger] is_file_of(s, e, q) ==> c.tried.contains(q)
            &&& forall|k: int|
                0 <= k < s.edges[e.0 as int].inputs.len() ==> c.cleaned[(
                #[trigger] s.edges[e.0 as int].inputs[k]).0 as int]
        },
    }
}

/// Whether everything that was cleaned between `c` and `d` has been dealt with.
spec fn is_thorough<M>(s: StateView, c: Cleaning<M>, d: Cleaning<M>) -> bool {
    &&& is_later(c, d)
    &&& d.cleaned.len() == c.cleaned.len()
    &&& unseen(d.cleaned) <= unseen(c.cleaned)
    &&& forall|i: int| 0 <= i < c.cleaned.len() && #[trigger] c.cleaned[i] ==> d.cleaned[i]
    &&& forall|i: int|
        0 <= i < c.cleaned.len() && #[trigger] d.cleaned[i] && !c.cleaned[i] ==> is_dealt_with(
            s,
            d,
            i,
        )
}

/// Whether everything that was tried between `c` and `d` is a product of
/// something on a supply line from `target`.
spec fn is_modest<M>(s: StateView, target: NodeId, c: Cleaning<M>, d: Cleaning<M>) -> bool {
    forall|q: Seq<char>| #[trigger]
        d.tried.contains(q) && !c.tried.contains(q) ==> exists|v: Seq<NodeId>| #[trigger]
            is_supply_line(s, v) && v[0] == target && is_product(s, v.last(), q)
}

proof fn lemma_dealt_with_later<M>(s: StateView, c: Cleaning<M>, d: Cleaning<M>, n: int)
    requires
        s.wf(),
        0 <= n < s.nodes.len(),
        c.cleaned.len() == s.nodes.len(),
        is_dealt_with(s, c, n),
        is_later(c, d),
        forall|i: int| 0 <= i < c.cleaned.len() && #[trigger] c.cleaned[i] ==> d.cleaned[i],
    ensures
        is_dealt_with(s, d, n),
{
    assert(s.node_ok(s.nodes[n]));
    if let Some(e) = s.nodes[n].in_edge {
        assert(s.edge_ok(s.edges[e.0 as int]));
    }
}

proof fn lemma_thorough_twice<M>(s: StateView, c: Cleaning<M>, d: Cleaning<M>, f: Cleaning<M>)
    requires
        s.wf(),
        c.cleaned.len() == s.nodes.len(),
        is_thorough(s, c, d),
        is_thorough(s, d, f),
    ensures
        is_thorough(s, c, f),
{
    assert forall|i: int|
        0 <= i < c.cleaned.len() && #[trigger] f.cleaned[i] && !c.cleaned[i] implies is_dealt_with(
        s,
        f,
        i,
    ) by {
        if d.cleaned[i] {
            lemma_dealt_with_later(s, d, f, i);
        }
    }
    assert forall|i: int| 0 <= i < c.cleaned.len() && #[trigger] c.cleaned[i] implies f.cleaned[i] by {
        assert(d.cleaned[i]);
    }
}

/// A supply line goes on behind what uses its start.
pub proof fn lemma_line_extended(s: StateView, target: NodeId, edge: EdgeId, v: Seq<NodeId>)
    requires
        is_supply_line(s, v),
        s.nodes[target.0 as int].in_edge == Some(edge),
        s.edges[edge.0 as int].inputs.contains(v[0]),
    ensures
        is_supply_line(s, seq![target] + v),
        (seq![target] + v)[0] == target,
        (seq![target] + v).last() == v.last(),
{
    let w = seq![target] + v;
    assert forall|i: int| 0 <= i < w.len() - 1 implies match s.nodes[(
    #[trigger] w[i]).0 as int].in_edge {
        Some(e) => s.edges[e.0 as int].inputs.contains(w[i + 1]),
        None => false,
    } by {
        if i > 0 {
            assert(w[i] == v[i - 1]);
            assert(w[i + 1] == v[i - 1 + 1]);
        } else {
            assert(w[1] == v[0]);
        }
    }
}

proof fn lemma_target_thorough<D: DiskInterface>(
    ok: spec_fn(D::Model) -> bool,
    m: D::Model,
    c: Cleaning<D::Model>,
    s: StateView,
    target: NodeId,
    depth: nat,
)
    requires
        is_filesystem::<D>(ok),
        is_honest::<D>(ok, m, c),
        s.wf(),
        target.0 < s.nodes.len(),
        c.cleaned.len() == s.nodes.len(),
        unseen(c.cleaned.update(target.0 as int, true)) <= depth,
    ensures
        ({
            let d = target_cleaned::<D>(c, s, target, false, depth);
            &&& is_honest::<D>(ok, m, d)
            &&& is_thorough(s, c, d)
            &&& d.cleaned[target.0 as int]
            &&& is_dealt_with(s, d, target.0 as int)
            &&& unseen(d.cleaned) <= unseen(c.cleaned.update(target.0 as int, true))
            &&& is_modest(s, target, c, d)
        }),
    decreases depth, 1nat, 0nat,
{
    let t = target.0 as int;
    let marked = Cleaning { cleaned: c.cleaned.update(t, true), ..c };
    let d = target_cleaned::<D>(c, s, target, false, depth);
    lemma_marked_unseen(c.cleaned, t);
    assert(is_honest::<D>(ok, m, marked)) by {
        assert(marked.tried == c.tried && marked.disk == c.disk && marked.errors == c.errors);
    }
    assert(s.node_ok(s.nodes[t]));
    if let Some(edge) = s.nodes[t].in_edge {
        let e = s.edges[edge.0 as int];
        assert(s.edge_ok(e));
        let path = s.nodes[t].path;
        let phony = e.rule == phony_rule();
        let x = if phony {
            marked
        } else {
            edge_files_removed::<D>(
                path_removed::<D>(marked, path_of(s, target), false),
                s,
                edge,
                false,
            )
        };
        if !phony {
            lemma_path_gone::<D>(ok, m, marked, path);
            let y = path_removed::<D>(marked, path_of(s, target), false);
            lemma_edge_files_gone::<D>(ok, m, y, s, edge);
            assert(y.tried.contains(path));
        }
        assert(x.cleaned == marked.cleaned);
        assert(is_later(c, x));
        lemma_inputs_thorough::<D>(ok, m, x, s, target, edge, 0, depth);
        if !phony {
            assert(x.tried.contains(path));
            assert forall|q: Seq<char>| #[trigger] is_file_of(s, edge, q) implies d.tried.contains(
                q,
            ) by {
                assert(x.tried.contains(q));
            }
        }
        assert(is_dealt_with(s, d, t));
        assert forall|i: int|
            0 <= i < c.cleaned.len() && #[trigger] d.cleaned[i] && !c.cleaned[i] implies is_dealt_with(
            s,
            d,
            i,
        ) by {
            if i != t {
                assert(!x.cleaned[i]);
            }
        }
        assert forall|i: int| 0 <= i < c.cleaned.len() && #[trigger] c.cleaned[i] implies d.cleaned[i] by {
            assert(x.cleaned[i]);
        }
        assert(x.cleaned[t]);
        let alone = seq![target];
        assert(is_supply_line(s, alone));
        assert forall|q: Seq<char>| #[trigger]
            d.tried.contains(q) && !c.tried.contains(q) implies exists|v: Seq<NodeId>| #[trigger]
            is_supply_line(s, v) && v[0] == target && is_product(s, v.last(), q) by {
            if x.tried.contains(q) {
                assert(is_product(s, alone.last(), q));
                assert(alone[0] == target);
            }
        }
    }
}

proof fn lemma_inputs_thorough<D: DiskInterface>(
    ok: spec_fn(D::Model) -> bool,
    m: D::Model,
    c: Cleaning<D::Model>,
    s: StateView,
    target: NodeId,
    edge: EdgeId,
    k: int,
    depth: nat,
)
    requires
        is_filesystem::<D>(ok),
        is_honest::<D>(ok, m, c),
        s.wf(),
        edge.0 < s.edges.len(),
        s.nodes[target.0 as int].in_edge == Some(edge),
        0 <= k,
        c.cleaned.len() == s.nodes.len(),
        unseen(c.cleaned) <= depth,
    ensures
        ({
            let inputs = s.edges[edge.0 as int].inputs;
            let d = inputs_cleaned::<D>(c, s, inputs, k, false, depth);
            &&& is_honest::<D>(ok, m, d)
            &&& is_thorough(s, c, d)
            &&& forall|j: int|
                k <= j < inputs.len() ==> d.cleaned[(#[trigger] inputs[j]).0 as int]
            &&& is_modest(s, target, c, d)
        }),
    decreases depth, 0nat, s.edges[edge.0 as int].inputs.len() - k,
{
    let inputs = s.edges[edge.0 as int].inputs;
    assert(s.edge_ok(s.edges[edge.0 as int]));
    if k < inputs.len() {
        let n = inputs[k].0 as int;
        if c.cleaned[n] {
            lemma_inputs_thorough::<D>(ok, m, c, s, target, edge, k + 1, depth);
        } else {
            lemma_unseen(c.cleaned, n);
            let x = target_cleaned::<D>(c, s, inputs[k], false, (depth - 1) as nat);
            lemma_target_thorough::<D>(ok, m, c, s, inputs[k], (depth - 1) as nat);
            lemma_inputs_thorough::<D>(ok, m, x, s, target, edge, k + 1, depth);
            let d = inputs_cleaned::<D>(c, s, inputs, k, false, depth);
            lemma_thorough_twice(s, c, x, d);
            assert forall|q: Seq<char>| #[trigger]
                d.tried.contains(q) && !c.tried.contains(q) implies exists|v: Seq<NodeId>| #[trigger]
                is_supply_line(s, v) && v[0] == target && is_product(s, v.last(), q) by {
                if x.tried.contains(q) {
                    let v = choose|v: Seq<NodeId>| #[trigger]
                        is_supply_line(s, v) && v[0] == inputs[k] && is_product(s, v.last(), q);
                    assert(inputs.contains(v[0]));
                    lemma_line_extended(s, target, edge, v);
                    let w = seq![target] + v;
                    assert(is_supply_line(s, w) && w[0] == target && is_product(s, w.last(), q));
                }
            }
        }
    }
}

/// Whether one of the names stands for the start of a supply line.
pub open spec fn starts_named(s: StateView, names: Seq<Seq<char>>, v: Seq<NodeId>) -> bool {
    exists|k: int|
        0 <= k < names.len() && (#[trigger] names[k]).len() > 0 && s.find_node(canonical(names[k]))
            == Some(v[0])
}

proof fn lemma_names_thorough<D: DiskInterface>(
    ok: spec_fn(D::Model) -> bool,
    m: D::Model,
    c: Cleaning<D::Model>,
    s: StateView,
    names: Seq<Seq<char>>,
    k: int,
)
    requires
        is_filesystem::<D>(ok),
        is_honest::<D>(ok, m, c),
        s.wf(),
        0 <= k,
        c.cleaned.len() == s.nodes.len(),
        forall|i: int|
            0 <= i < c.cleaned.len() && #[trigger] c.cleaned[i] ==> is_dealt_with(s, c, i),
    ensures
        ({
            let d = names_cleaned::<D>(c, s, names, k, false);
            &&& is_honest::<D>(ok, m, d)
            &&& is_later(c, d)
            &&& d.cleaned.len() == c.cleaned.len()
            &&& forall|i: int|
                0 <= i < c.cleaned.len() && #[trigger] c.cleaned[i] ==> d.cleaned[i]
            &&& forall|i: int|
                0 <= i < d.cleaned.len() && #[trigger] d.cleaned[i] ==> is_dealt_with(s, d, i)
            &&& d.errors.len() == 0 ==> forall|j: int|
                k <= j < names.len() ==> (#[trigger] names[j]).len() > 0 && (s.find_node(
                    canonical(names[j]),
                ) matches Some(n) && d.cleaned[n.0 as int])
            &&& forall|q: Seq<char>| #[trigger]
                d.tried.contains(q) && !c.tried.contains(q) ==> exists|v: Seq<NodeId>| #[trigger]
                    is_supply_line(s, v) && starts_named(s, names, v) && is_product(s, v.last(), q)
        }),
    decreases names.len() - k,
{
    if k < names.len() {
        let name = names[k];
        let x = name_cleaned::<D>(c, s, name, false);
        let found = s.find_node(canonical(name));
        if name.len() > 0 && found is Some {
            let n = found->0;
            crate::state::lemma_node_index(s.nodes, canonical(name), 0);
            lemma_unseen_bound(c.cleaned.update(n.0 as int, true));
            lemma_target_thorough::<D>(ok, m, c, s, n, s.nodes.len());
            assert forall|i: int| 0 <= i < x.cleaned.len() && #[trigger] x.cleaned[i] implies is_dealt_with(
                s,
                x,
                i,
            ) by {
                if c.cleaned[i] {
                    lemma_dealt_with_later(s, c, x, i);
                }
            }
        } else {
            assert(x.cleaned == c.cleaned && x.tried == c.tried);
            assert forall|i: int| 0 <= i < x.cleaned.len() && #[trigger] x.cleaned[i] implies is_dealt_with(
                s,
                x,
                i,
            ) by {
                lemma_dealt_with_later(s, c, x, i);
            }
        }
        lemma_names_thorough::<D>(ok, m, x, s, names, k + 1);
        let d = names_cleaned::<D>(c, s, names, k, false);
        assert forall|q: Seq<char>| #[trigger]
            d.tried.contains(q) && !c.tried.contains(q) implies exists|v: Seq<NodeId>| #[trigger]
            is_supply_line(s, v) && starts_named(s, names, v) && is_product(s, v.last(), q) by {
            if x.tried.contains(q) {
                let n = found->0;
                let v = choose|v: Seq<NodeId>| #[trigger]
                    is_supply_line(s, v) && v[0] == n && is_product(s, v.last(), q);
                assert(starts_named(s, names, v)) by {
                    assert(names[k].len() > 0);
                }
            }
        }
    }
}

proof fn lemma_line_cleaned<M>(s: StateView, c: Cleaning<M>, v: Seq<NodeId>, j: int)
    requires
        s.wf(),
        is_supply_line(s, v),
        0 <= j < v.len(),
        v[0].0 < s.nodes.len(),
        c.cleaned.len() == s.nodes.len(),
        c.cleaned[v[0].0 as int],
        forall|i: int|
            0 <= i < c.cleaned.len() && #[trigger] c.cleaned[i] ==> is_dealt_with(s, c, i),
    ensures
        v[j].0 < s.nodes.len(),
        c.cleaned[v[j].0 as int],
    decreases j,
{
    if j > 0 {
        lemma_line_cleaned(s, c, v, j - 1);
        let n = v[j - 1].0 as int;
        assert(c.cleaned[n]);
        assert(s.node_ok(s.nodes[n]));
        assert(s.nodes[v[j - 1].0 as int].in_edge is Some);
        let e = s.nodes[n].in_edge->0;
        assert(s.edge_ok(s.edges[e.0 as int]));
        let inputs = s.edges[e.0 as int].inputs;
        assert(inputs.contains(v[j - 1 + 1]));
        let k = choose|k: int| 0 <= k < inputs.len() && inputs[k] == v[j];
        assert(c.cleaned[inputs[k].0 as int]);
    }
}

/// Whether, where nothing went wrong, just those files are told of that were
/// there and are gone.
pub open spec fn tells_what_went<D: DiskInterface>(m: D::Model, c: Cleaning<D::Model>) -> bool {
    c.errors.len() == 0 ==> forall|q: Seq<char>| #[trigger]
        c.removed.contains(q) <==> !gone::<D>(m, q) && gone::<D>(c.disk, q)
}

proof fn lemma_honest_tells<D: DiskInterface>(
    ok: spec_fn(D::Model) -> bool,
    m: D::Model,
    c: Cleaning<D::Model>,
)
    requires
        is_honest::<D>(ok, m, c),
    ensures
        tells_what_went::<D>(m, c),
{
    assert forall|q: Seq<char>| c.errors.len() == 0 implies (#[trigger] c.removed.contains(q)
        <==> !gone::<D>(m, q) && gone::<D>(c.disk, q)) by {
        assert(c.tried.contains(q) || !c.tried.contains(q));
    }
}

/// Cleaning targets removes what they are made from as well: where nothing went
/// wrong, whatever a command makes on the way to a target is gone, with the
/// other files of that command, also where the way leads through names that
/// stand for other files. Every other file is left as it was.
pub proof fn law_cleaned_targets_are_gone<D: DiskInterface>(
    ok: spec_fn(D::Model) -> bool,
    m: D::Model,
    s: StateView,
    names: Seq<Seq<char>>,
)
    requires
        is_filesystem::<D>(ok),
        ok(m),
        s.wf(),
    ensures
        ({
            let c = targets_cleaned::<D>(m, s, names, false);
            &&& c.errors.len() == 0 ==> forall|v: Seq<NodeId>, q: Seq<char>|
                #![trigger is_supply_line(s, v), is_product(s, v.last(), q)]
                is_supply_line(s, v) && starts_named(s, names, v) && is_product(s, v.last(), q)
                    ==> gone::<D>(c.disk, q)
            &&& forall|q: Seq<char>|
                #![trigger D::content_of(c.disk, q)]
                (forall|v: Seq<NodeId>| #[trigger]
                    is_supply_line(s, v) && starts_named(s, names, v) ==> !is_product(
                        s,
                        v.last(),
                        q,
                    )) ==> D::content_of(c.disk, q) == D::content_of(m, q)
            &&& tells_what_went::<D>(m, c)
        }),
{
    let c0 = cleaning(m, s.nodes.len());
    let c = targets_cleaned::<D>(m, s, names, false);
    assert(is_honest::<D>(ok, m, c0));
    lemma_names_thorough::<D>(ok, m, c0, s, names, 0);
    lemma_honest_tells::<D>(ok, m, c);
    if c.errors.len() == 0 {
        assert forall|v: Seq<NodeId>, q: Seq<char>|
            #![trigger is_supply_line(s, v), is_product(s, v.last(), q)]
            is_supply_line(s, v) && starts_named(s, names, v) && is_product(
                s,
                v.last(),
                q,
            ) implies gone::<D>(c.disk, q) by {
            let k = choose|k: int|
                0 <= k < names.len() && (#[trigger] names[k]).len() > 0 && s.find_node(
                    canonical(names[k]),
                ) == Some(v[0]);
            assert(names[k].len() > 0);
            crate::state::lemma_node_index(s.nodes, canonical(names[k]), 0);
            lemma_line_cleaned(s, c, v, v.len() - 1);
            let n = v.last().0 as int;
            assert(is_dealt_with(s, c, n));
            assert(c.tried.contains(q));
        }
    }
    assert forall|q: Seq<char>|
        #![trigger D::content_of(c.disk, q)]
        (forall|v: Seq<NodeId>| #[trigger]
            is_supply_line(s, v) && starts_named(s, names, v) ==> !is_product(
                s,
                v.last(),
                q,
            )) implies D::content_of(c.disk, q) == D::content_of(m, q) by {
        if c.tried.contains(q) {
            let v = choose|v: Seq<NodeId>| #[trigger]
                is_supply_line(s, v) && starts_named(s, names, v) && is_product(s, v.last(), q);
            assert(!is_product(s, v.last(), q));
        }
    }
}

proof fn lemma_outputs_gone<D: DiskInterface>(
    ok: spec_fn(D::Model) -> bool,
    m: D::Model,
    c: Cleaning<D::Model>,
    s: StateView,
    outputs: Seq<NodeId>,
    k: int,
)
    requires
        is_filesystem::<D>(ok),
        is_honest::<D>(ok, m, c),
        0 <= k,
    ensures
        ({
            let d = outputs_removed::<D>(c, s, outputs, k, false);
            &&& is_honest::<D>(ok, m, d)
            &&& is_later(c, d)
            &&& forall|j: int|
                k <= j < outputs.len() ==> d.tried.contains(
                    s.nodes[(#[trigger] outputs[j]).0 as int].path,
                )
            &&& forall|q: Seq<char>| #[trigger]
                d.tried.contains(q) && !c.tried.contains(q) ==> exists|j: int|
                    k <= j < outputs.len() && q == s.nodes[(#[trigger] outputs[j]).0 as int].path
        }),
    decreases outputs.len() - k,
{
    if k < outputs.len() {
        let path = path_of(s, outputs[k]);
        lemma_path_gone::<D>(ok, m, c, path);
        let x = path_removed::<D>(c, path, false);
        assert(x.tried.contains(path));
        lemma_outputs_gone::<D>(ok, m, x, s, outputs, k + 1);
        let d = outputs_removed::<D>(c, s, outputs, k, false);
        assert forall|q: Seq<char>| #[trigger]
            d.tried.contains(q) && !c.tried.contains(q) implies exists|j: int|
            k <= j < outputs.len() && q == s.nodes[(#[trigger] outputs[j]).0 as int].path by {
            if x.tried.contains(q) {
                assert(q == s.nodes[outputs[k].0 as int].path);
            }
        }
    }
}

/// Whether `path` is an output of `edge` or another file of its command.
pub open spec fn is_made_by(s: StateView, edge: int, path: Seq<char>) -> bool {
    ||| exists|j: int|
        0 <= j < s.edges[edge].outputs.len() && path == s.nodes[(
        #[trigger] s.edges[edge].outputs[j]).0 as int].path
    ||| is_file_of(s, EdgeId(edge as usize), path)
}

/// Whether cleaning everything is to remove what `edge` makes: it runs a command,
/// and that is no generator, unless these are asked for.
pub open spec fn is_to_go(s: StateView, edge: int, generator: bool) -> bool {
    &&& s.edges[edge].rule != phony_rule()
    &&& s.binding(edge, "generator"@, Escape::Shell).len() > 0 ==> generator
}

proof fn lemma_edges_gone<D: DiskInterface>(
    ok: spec_fn(D::Model) -> bool,
    m: D::Model,
    c: Cleaning<D::Model>,
    s: StateView,
    generator: bool,
    k: int,
)
    requires
        is_filesystem::<D>(ok),
        is_honest::<D>(ok, m, c),
        0 <= k,
        s.edges.len() <= usize::MAX,
    ensures
        ({
            let d = edges_cleaned::<D>(c, s, generator, k, false);
            &&& is_honest::<D>(ok, m, d)
            &&& is_later(c, d)
            &&& forall|e: int, q: Seq<char>| #[trigger]
                is_made_by(s, e, q) && k <= e < s.edges.len() && is_to_go(s, e, generator)
                    ==> d.tried.contains(q)
            &&& forall|q: Seq<char>| #[trigger]
                d.tried.contains(q) && !c.tried.contains(q) ==> exists|e: int|
                    k <= e < s.edges.len() && is_to_go(s, e, generator) && #[trigger] is_made_by(
                        s,
                        e,
                        q,
                    )
        }),
    decreases s.edges.len() - k,
{
    if k < s.edges.len() {
        let edge = EdgeId(k as usize);
        let d = edges_cleaned::<D>(c, s, generator, k, false);
        if is_cleaned(s, edge, generator) {
            lemma_outputs_gone::<D>(ok, m, c, s, s.edges[k].outputs, 0);
            let x = outputs_removed::<D>(c, s, s.edges[k].outputs, 0, false);
            lemma_edge_files_gone::<D>(ok, m, x, s, edge);
            let y = edge_files_removed::<D>(x, s, edge, false);
            lemma_edges_gone::<D>(ok, m, y, s, generator, k + 1);
            assert forall|q: Seq<char>| #[trigger] is_made_by(s, k, q) implies y.tried.contains(q) by {
                if !is_file_of(s, edge, q) {
                    let outs = s.edges[k].outputs;
                    let j = choose|j: int|
                        0 <= j < s.edges[k].outputs.len() && q == s.nodes[(
                        #[trigger] s.edges[k].outputs[j]).0 as int].path;
                    assert(x.tried.contains(s.nodes[outs[j].0 as int].path));
                }
            }
            assert forall|q: Seq<char>| #[trigger]
                d.tried.contains(q) && !c.tried.contains(q) implies exists|e: int|
                k <= e < s.edges.len() && is_to_go(s, e, generator) && #[trigger] is_made_by(
                    s,
                    e,
                    q,
                ) by {
                if y.tried.contains(q) {
                    if x.tried.contains(q) {
                        let outs = s.edges[k].outputs;
                        let j = choose|j: int|
                            0 <= j < outs.len() && q == s.nodes[(
                            #[trigger] outs[j]).0 as int].path;
                        assert(q == s.nodes[s.edges[k].outputs[j].0 as int].path);
                    }
                    assert(is_made_by(s, k, q));
                }
            }
        } else {
            lemma_edges_gone::<D>(ok, m, c, s, generator, k + 1);
        }
    }
}

/// Cleaning everything removes what commands make, but for generators, unless
/// these are asked for: where nothing went wrong, all of it is gone. Every other
/// file, a source file among them, is left as it was.
pub proof fn law_everything_made_is_gone<D: DiskInterface>(
    ok: spec_fn(D::Model) -> bool,
    m: D::Model,
    s: StateView,
    generator: bool,
)
    requires
        is_filesystem::<D>(ok),
        ok(m),
        s.edges.len() <= usize::MAX,
    ensures
        ({
            let c = all_cleaned::<D>(m, s, generator, false);
            &&& c.errors.len() == 0 ==> forall|e: int, q: Seq<char>| #[trigger]
                is_made_by(s, e, q) && 0 <= e < s.edges.len() && is_to_go(s, e, generator)
                    ==> gone::<D>(c.disk, q)
            &&& forall|q: Seq<char>|
                #![trigger D::content_of(c.disk, q)]
                (forall|e: int|
                    0 <= e < s.edges.len() && is_to_go(s, e, generator) ==> !(
                    #[trigger] is_made_by(s, e, q))) ==> D::content_of(c.disk, q) == D::content_of(
                    m,
                    q,
                )
            &&& tells_what_went::<D>(m, c)
        }),
{
    let c0 = cleaning(m, s.nodes.len());
    let c = all_cleaned::<D>(m, s, generator, false);
    assert(is_honest::<D>(ok, m, c0));
    lemma_edges_gone::<D>(ok, m, c0, s, generator, 0);
    lemma_honest_tells::<D>(ok, m, c);
    assert forall|q: Seq<char>|
        #![trigger D::content_of(c.disk, q)]
        (forall|e: int|
            0 <= e < s.edges.len() && is_to_go(s, e, generator) ==> !(#[trigger] is_made_by(
                s,
                e,
                q,
            ))) implies D::content_of(c.disk, q) == D::content_of(m, q) by {
        if c.tried.contains(q) {
            let e = choose|e: int|
                0 <= e < s.edges.len() && is_to_go(s, e, generator) && #[trigger] is_made_by(
                    s,
                    e,
                    q,
                );
            assert(!is_made_by(s, e, q));
        }
    }
}

proof fn lemma_rule_outputs_gone<D: DiskInterface>(
    ok: spec_fn(D::Model) -> bool,
    m: D::Model,
    c: Cleaning<D::Model>,
    s: StateView,
    e: int,
    k: int,
)
    requires
        is_filesystem::<D>(ok),
        is_honest::<D>(ok, m, c),
        0 <= k,
        0 <= e <= usize::MAX,
    ensures
        ({
            let outputs = s.edges[e].outputs;
            let d = rule_outputs_removed::<D>(c, s, EdgeId(e as usize), k, false);
            &&& is_honest::<D>(ok, m, d)
            &&& is_later(c, d)
            &&& forall|j: int|
                k <= j < outputs.len() ==> d.tried.contains(
                    s.nodes[(#[trigger] outputs[j]).0 as int].path,
                )
            &&& k < outputs.len() ==> forall|q: Seq<char>| #[trigger]
                is_file_of(s, EdgeId(e as usize), q) ==> d.tried.contains(q)
            &&& forall|q: Seq<char>| #[trigger]
                d.tried.contains(q) && !c.tried.contains(q) ==> is_made_by(s, e, q)
        }),
    decreases s.edges[e].outputs.len() - k,
{
    let outputs = s.edges[e].outputs;
    let edge = EdgeId(e as usize);
    if k < outputs.len() {
        let path = path_of(s, outputs[k]);
        lemma_path_gone::<D>(ok, m, c, path);
        let x = path_removed::<D>(c, path, false);
        assert(x.tried.contains(path));
        lemma_edge_files_gone::<D>(ok, m, x, s, edge);
        let y = edge_files_removed::<D>(x, s, edge, false);
        assert(y.tried.contains(path));
        lemma_rule_outputs_gone::<D>(ok, m, y, s, e, k + 1);
        let d = rule_outputs_removed::<D>(c, s, edge, k, false);
        assert forall|q: Seq<char>| #[trigger] is_file_of(s, edge, q) implies d.tried.contains(q) by {
            assert(y.tried.contains(q));
        }
        assert forall|q: Seq<char>| #[trigger]
            d.tried.contains(q) && !c.tried.contains(q) implies is_made_by(s, e, q) by {
            if y.tried.contains(q) && x.tried.contains(q) {
                assert(q == s.nodes[s.edges[e].outputs[k].0 as int].path);
            }
        }
    }
}

/// Whether `edge` runs a rule of the name and makes something.
pub open spec fn uses_rule(s: StateView, edge: int, name: Seq<char>) -> bool {
    s.rule_of(edge).name == name && s.edges[edge].outputs.len() > 0
}

proof fn lemma_rule_gone<D: DiskInterface>(
    ok: spec_fn(D::Model) -> bool,
    m: D::Model,
    c: Cleaning<D::Model>,
    s: StateView,
    name: Seq<char>,
    k: int,
)
    requires
        is_filesystem::<D>(ok),
        is_honest::<D>(ok, m, c),
        0 <= k,
        s.edges.len() <= usize::MAX,
    ensures
        ({
            let d = rule_cleaned::<D>(c, s, name, k, false);
            &&& is_honest::<D>(ok, m, d)
            &&& is_later(c, d)
            &&& forall|e: int, q: Seq<char>| #[trigger]
                is_made_by(s, e, q) && k <= e < s.edges.len() && uses_rule(s, e, name)
                    ==> d.tried.contains(q)
            &&& forall|q: Seq<char>| #[trigger]
                d.tried.contains(q) && !c.tried.contains(q) ==> exists|e: int|
                    0 <= e < s.edges.len() && uses_rule(s, e, name) && #[trigger] is_made_by(
                        s,
                        e,
                        q,
                    )
        }),
    decreases s.edges.len() - k,
{
    if k < s.edges.len() {
        let edge = EdgeId(k as usize);
        let d = rule_cleaned::<D>(c, s, name, k, false);
        if s.rule_of(k).name == name {
            lemma_rule_outputs_gone::<D>(ok, m, c, s, k, 0);
            let y = rule_outputs_removed::<D>(c, s, edge, 0, false);
            lemma_rule_gone::<D>(ok, m, y, s, name, k + 1);
            assert forall|q: Seq<char>| #[trigger]
                is_made_by(s, k, q) && uses_rule(s, k, name) implies y.tried.contains(q) by {
                if !is_file_of(s, edge, q) {
                    let outs = s.edges[k].outputs;
                    let j = choose|j: int|
                        0 <= j < s.edges[k].outputs.len() && q == s.nodes[(
                        #[trigger] s.edges[k].outputs[j]).0 as int].path;
                    assert(y.tried.contains(s.nodes[outs[j].0 as int].path));
                }
            }
            assert forall|q: Seq<char>| #[trigger]
                d.tried.contains(q) && !c.tried.contains(q) implies exists|e: int|
                0 <= e < s.edges.len() && uses_rule(s, e, name) && #[trigger] is_made_by(s, e, q) by {
                if y.tried.contains(q) {
                    if s.edges[k].outputs.len() == 0 {
                        assert(y == c);
                    }
                    assert(is_made_by(s, k, q));
                }
            }
        } else {
            lemma_rule_gone::<D>(ok, m, c, s, name, k + 1);
        }
    }
}

proof fn lemma_rules_gone<D: DiskInterface>(
    ok: spec_fn(D::Model) -> bool,
    m: D::Model,
    c: Cleaning<D::Model>,
    s: StateView,
    names: Seq<Seq<char>>,
    k: int,
)
    requires
        is_filesystem::<D>(ok),
        is_honest::<D>(ok, m, c),
        0 <= k,
        s.edges.len() <= usize::MAX,
    ensures
        ({
            let d = rules_cleaned_from::<D>(c, s, names, k, false);
            &&& is_honest::<D>(ok, m, d)
            &&& is_later(c, d)
            &&& d.errors.len() == 0 ==> forall|j: int, e: int, q: Seq<char>|
                #![trigger names[j], is_made_by(s, e, q)]
                k <= j < names.len() && is_made_by(s, e, q) && 0 <= e < s.edges.len() && uses_rule(
                    s,
                    e,
                    names[j],
                ) ==> d.tried.contains(q)
            &&& forall|q: Seq<char>| #[trigger]
                d.tried.contains(q) && !c.tried.contains(q) ==> exists|j: int, e: int|
                    0 <= j < names.len() && 0 <= e < s.edges.len() && uses_rule(
                        s,
                        e,
                        #[trigger] names[j],
                    ) && #[trigger] is_made_by(s, e, q)
        }),
    decreases names.len() - k,
{
    if k < names.len() {
        let name = names[k];
        let unknown = s.scopes.find_rule(0, name) is None;
        let x = if unknown {
            Cleaning { errors: c.errors.push("unknown rule '"@ + name + "'"@), ..c }
        } else {
            rule_cleaned::<D>(c, s, name, 0, false)
        };
        if !unknown {
            lemma_rule_gone::<D>(ok, m, c, s, name, 0);
        }
        lemma_rules_gone::<D>(ok, m, x, s, names, k + 1);
        let d = rules_cleaned_from::<D>(c, s, names, k, false);
        assert forall|q: Seq<char>| #[trigger]
            d.tried.contains(q) && !c.tried.contains(q) implies exists|j: int, e: int|
            0 <= j < names.len() && 0 <= e < s.edges.len() && uses_rule(s, e, #[trigger] names[j])
                && #[trigger] is_made_by(s, e, q) by {
            if x.tried.contains(q) {
                let e = choose|e: int|
                    0 <= e < s.edges.len() && uses_rule(s, e, name) && #[trigger] is_made_by(
                        s,
                        e,
                        q,
                    );
                assert(uses_rule(s, e, names[k]) && is_made_by(s, e, q));
            }
        }
        assert forall|j: int, e: int, q: Seq<char>|
            #![trigger names[j], is_made_by(s, e, q)]
            d.errors.len() == 0 && k <= j < names.len() && is_made_by(s, e, q) && 0 <= e
                < s.edges.len() && uses_rule(s, e, names[j]) implies d.tried.contains(q) by {
            if j == k {
                assert(x.errors.len() == 0);
                assert(!unknown);
                assert(x.tried.contains(q));
            }
        }
        assert(is_honest::<D>(ok, m, d));
        assert(is_later(c, d));
    }
}

/// Cleaning rules removes what the edges make that use them: where nothing went
/// wrong, all of it is gone. Every other file is left as it was.
pub proof fn law_products_of_rules_are_gone<D: DiskInterface>(
    ok: spec_fn(D::Model) -> bool,
    m: D::Model,
    s: StateView,
    names: Seq<Seq<char>>,
)
    requires
        is_filesystem::<D>(ok),
        ok(m),
        s.edges.len() <= usize::MAX,
    ensures
        ({
            let c = rules_cleaned::<D>(m, s, names, false);
            &&& c.errors.len() == 0 ==> forall|j: int, e: int, q: Seq<char>|
                #![trigger names[j], is_made_by(s, e, q)]
                0 <= j < names.len() && is_made_by(s, e, q) && 0 <= e < s.edges.len() && uses_rule(
                    s,
                    e,
                    names[j],
                ) ==> gone::<D>(c.disk, q)
            &&& forall|q: Seq<char>|
                #![trigger D::content_of(c.disk, q)]
                (forall|j: int, e: int|
                    0 <= j < names.len() && 0 <= e < s.edges.len() && uses_rule(
                        s,
                        e,
                        #[trigger] names[j],
                    ) ==> !(#[trigger] is_made_by(s, e, q))) ==> D::content_of(c.disk, q)
                    == D::content_of(m, q)
            &&& tells_what_went::<D>(m, c)
        }),
{
    let c0 = cleaning(m, s.nodes.len());
    let c = rules_cleaned::<D>(m, s, names, false);
    assert(is_honest::<D>(ok, m, c0));
    lemma_rules_gone::<D>(ok, m, c0, s, names, 0);
    lemma_honest_tells::<D>(ok, m, c);
    assert forall|q: Seq<char>|
        #![trigger D::content_of(c.disk, q)]
        (forall|j: int, e: int|
            0 <= j < names.len() && 0 <= e < s.edges.len() && uses_rule(s, e, #[trigger] names[j])
                ==> !(#[trigger] is_made_by(s, e, q))) implies D::content_of(c.disk, q)
        == D::content_of(m, q) by {
        if c.tried.contains(q) {
            let (j, e) = choose|j: int, e: int|
                0 <= j < names.len() && 0 <= e < s.edges.len() && uses_rule(
                    s,
                    e,
                    #[trigger] names[j],
                ) && #[trigger] is_made_by(s, e, q);
            assert(!is_made_by(s, e, q));
        }
    }
}

/// Whether the graph has a node of the path that something makes or needs.
pub open spec fn is_in_use(s: StateView, path: Seq<char>) -> bool {
    exists|n: int|
        0 <= n < s.nodes.len() && (#[trigger] s.nodes[n]).path == path && (s.nodes[n].in_edge is Some
            || s.nodes[n].out_edges.len() > 0)
}

proof fn lemma_dead(s: StateView, path: Seq<char>)
    requires
        s.wf(),
        s.nodes.len() <= usize::MAX,
    ensures
        is_dead(s, path) == !is_in_use(s, path),
{
    crate::state::lemma_node_index(s.nodes, path, 0);
    if let Some(n) = s.find_node(path) {
        assert(s.nodes[n.0 as int].path == path);
        if is_in_use(s, path) {
            let k = choose|k: int|
                0 <= k < s.nodes.len() && (#[trigger] s.nodes[k]).path == path && (
                s.nodes[k].in_edge is Some || s.nodes[k].out_edges.len() > 0);
            assert(s.nodes[k].path == s.nodes[n.0 as int].path);
            assert(k == n.0);
        }
    }
}

proof fn lemma_dead_gone<D: DiskInterface>(
    ok: spec_fn(D::Model) -> bool,
    m: D::Model,
    c: Cleaning<D::Model>,
    s: StateView,
    paths: Seq<Seq<char>>,
    k: int,
)
    requires
        is_filesystem::<D>(ok),
        is_honest::<D>(ok, m, c),
        s.wf(),
        s.nodes.len() <= usize::MAX,
        0 <= k,
    ensures
        ({
            let d = dead_removed::<D>(c, s, paths, k, false);
            &&& is_honest::<D>(ok, m, d)
            &&& is_later(c, d)
            &&& forall|j: int|
                k <= j < paths.len() && !is_in_use(s, #[trigger] paths[j]) ==> d.tried.contains(
                    paths[j],
                )
            &&& forall|q: Seq<char>| #[trigger]
                d.tried.contains(q) && !c.tried.contains(q) ==> paths.contains(q) && !is_in_use(
                    s,
                    q,
                )
        }),
    decreases paths.len() - k,
{
    if k < paths.len() {
        lemma_dead(s, paths[k]);
        if is_dead(s, paths[k]) {
            lemma_path_gone::<D>(ok, m, c, paths[k]);
            let x = path_removed::<D>(c, paths[k], false);
            assert(x.tried.contains(paths[k]));
            lemma_dead_gone::<D>(ok, m, x, s, paths, k + 1);
        } else {
            lemma_dead_gone::<D>(ok, m, c, s, paths, k + 1);
        }
    }
}

/// Cleaning what is dead removes what was recorded but is not in the graph any
/// more: where nothing went wrong, all of it is gone. What is made or needed,
/// and what was never recorded, is left as it was.
pub proof fn law_dead_outputs_are_gone<D: DiskInterface>(
    ok: spec_fn(D::Model) -> bool,
    m: D::Model,
    s: StateView,
    log: Entries,
)
    requires
        is_filesystem::<D>(ok),
        ok(m),
        s.wf(),
        s.nodes.len() <= usize::MAX,
        log.dom().finite(),
    ensures
        ({
            let c = dead_cleaned::<D>(m, s, log, false);
            &&& c.errors.len() == 0 ==> forall|q: Seq<char>| #[trigger]
                log.contains_key(q) && !is_in_use(s, q) ==> gone::<D>(c.disk, q)
            &&& forall|q: Seq<char>|
                #![trigger D::content_of(c.disk, q)]
                is_in_use(s, q) || !log.contains_key(q) ==> D::content_of(c.disk, q)
                    == D::content_of(m, q)
            &&& tells_what_went::<D>(m, c)
        }),
{
    let c0 = cleaning(m, s.nodes.len());
    let c = dead_cleaned::<D>(m, s, log, false);
    let paths = in_ascending_order(log.dom());
    assert(is_honest::<D>(ok, m, c0));
    lemma_dead_gone::<D>(ok, m, c0, s, paths, 0);
    lemma_honest_tells::<D>(ok, m, c);
    crate::text::lemma_in_ascending_order(log.dom());
    assert forall|q: Seq<char>| #[trigger]
        log.contains_key(q) && !is_in_use(s, q) && c.errors.len() == 0 implies gone::<D>(
        c.disk,
        q,
    ) by {
        assert(log.dom().contains(q));
        assert(paths.contains(q));
        let j = choose|j: int| 0 <= j < paths.len() && paths[j] == q;
        assert(c.tried.contains(paths[j]));
    }
    assert forall|q: Seq<char>|
        #![trigger D::content_of(c.disk, q)]
        is_in_use(s, q) || !log.contains_key(q) implies D::content_of(c.disk, q) == D::content_of(
        m,
        q,
    ) by {
        if c.tried.contains(q) {
            assert(paths.contains(q));
            assert(log.dom().contains(q));
        }
    }
}

} // verus!
