//! Finding undeclared dependencies on generated files (`-t missingdeps`).

use vstd::prelude::*;
use vstd::string::*;

use crate::depfile::parse_depfile;
use crate::deps_log::DepsLog;
use crate::disk::DiskInterface;
use crate::error::Error;
use crate::graph::{copied_nodes, intern_deps};
use crate::state::{EdgeId, NodeId, State};
use crate::text::{insert_ascending, push_decimal, str_eq};
use crate::tools::walk::none_seen;

verus! {

use crate::depfile::depfile_of;
use crate::deps_log::DepsLogView;
use crate::dyndep::only_grown;
use crate::graph::deps_interned;
use crate::plan::{lemma_unseen, unseen};
use crate::state::{halted, nodes_below, path_of, Escape, Halt, StateView};
use crate::text::{decimal, lemma_lists_len, lists, texts};
use crate::tools::walk::none_of;

/// The result of `-t missingdeps`.
#[derive(Debug)]
pub struct MissingDepsReport {
    /// One line per missing dependency found.
    pub lines: Vec<String>,
    /// How many nodes were examined.
    pub nodes_processed: usize,
    /// How many distinct (target, generator rule) pairs are missing a path.
    pub missing_dep_path_count: usize,
    /// Targets that are missing a dependency path.
    pub nodes_missing_deps: usize,
    /// Distinct generated inputs involved.
    pub generated_nodes: usize,
    /// Distinct rules that generate them.
    pub generator_rules: usize,
}

/// The summary of a search, in ninja's wording.
pub open spec fn summary_text(nodes: nat, paths: nat, missing: nat, generated: nat, rules: nat) -> Seq<
    char,
> {
    let heading = "Processed "@ + decimal(nodes) + " nodes.\n"@;
    if paths > 0 {
        heading + "Error: There are "@ + decimal(paths) + " missing dependency paths.\n"@
            + decimal(missing) + " targets had depfile dependencies on "@ + decimal(generated)
            + " distinct generated inputs (from "@ + decimal(rules)
            + " rules)  without a non-depfile dep path to the generator.\n"@
            + "There might be build flakiness if any of the targets listed above are built alone, or not late enough, in a clean output directory.\n"@
    } else {
        heading + "No missing dependencies on generated files found.\n"@
    }
}

impl MissingDepsReport {
    /// True if any missing dependency was found.
    #[verifier::allow_in_spec]
    pub fn had_missing_deps(&self) -> bool
        returns
            self.missing_dep_path_count > 0,
    {
        self.missing_dep_path_count > 0
    }

    /// A human-readable summary, in ninja's wording.
    pub fn summary(&self) -> (r: String)
        ensures
            r@ == summary_text(
                self.nodes_processed as nat,
                self.missing_dep_path_count as nat,
                self.nodes_missing_deps as nat,
                self.generated_nodes as nat,
                self.generator_rules as nat,
            ),
    {
        let mut out: String = "Processed ".to_owned();
        push_decimal(&mut out, self.nodes_processed as u128);
        out.append(" nodes.\n");
        if self.had_missing_deps() {
            out.append("Error: There are ");
            push_decimal(&mut out, self.missing_dep_path_count as u128);
            out.append(" missing dependency paths.\n");
            push_decimal(&mut out, self.nodes_missing_deps as u128);
            out.append(" targets had depfile dependencies on ");
            push_decimal(&mut out, self.generated_nodes as u128);
            out.append(" distinct generated inputs (from ");
            push_decimal(&mut out, self.generator_rules as u128);
            out.append(" rules)  without a non-depfile dep path to the generator.\n");
            out.append(
                "There might be build flakiness if any of the targets listed above are built alone, or not late enough, in a clean output directory.\n",
            );
        } else {
            out.append("No missing dependencies on generated files found.\n");
        }
        out
    }
}

/// What is known of the edges to which an edge leads.
pub type Row = Seq<Option<bool>>;

/// A search by what it has found.
#[verifier::ext_equal]
pub struct Search {
    pub lines: Seq<Seq<char>>,
    pub count: usize,
    /// Which nodes have been examined.
    pub seen: Seq<bool>,
    /// Which nodes are generated inputs that are not declared.
    pub generated: Seq<bool>,
    /// The rules that generate them.
    pub rules: Set<Seq<char>>,
    /// Which nodes do not declare an input.
    pub missing: Seq<bool>,
    /// For each edge, what is known of the edges to which it leads.
    pub paths: Seq<Row>,
}

/// A search that has not examined anything.
pub open spec fn search_start(nodes: nat, edges: nat) -> Search {
    Search {
        lines: Seq::empty(),
        count: 0,
        seen: none_of(nodes),
        generated: none_of(nodes),
        rules: Set::empty(),
        missing: none_of(nodes),
        paths: Seq::new(edges, |i: int| Seq::empty()),
    }
}

/// A list of flags with that at `i`, if there is one, set.
pub open spec fn flagged(v: Seq<bool>, i: int) -> Seq<bool> {
    if 0 <= i < v.len() {
        v.update(i, true)
    } else {
        v
    }
}

/// The number of flags that are set.
pub open spec fn flag_count(v: Seq<bool>) -> int {
    v.len() - unseen(v)
}

/// Whether `from` leads to `to`, going by the inputs of edges, and what is
/// known then. An edge that is asked for again on the way counts as one to
/// which `from` does not lead. At most `depth` edges can be nested.
pub open spec fn path_between(s: StateView, row: Row, from: EdgeId, to: EdgeId, depth: nat) -> (
    Row,
    bool,
)
    decreases depth, 1nat, 0nat,
{
    let t = to.0 as int;
    if row[t] is Some {
        (row, row[t]->0)
    } else {
        let (known, found) = inputs_lead(
            s,
            row.update(t, Some(false)),
            from,
            s.edges[t].inputs,
            0,
            depth,
        );
        (known.update(t, Some(found)), found)
    }
}

/// Whether one of the inputs from the `k`-th on is made by `from`, or by an edge
/// to which it leads.
pub open spec fn inputs_lead(
    s: StateView,
    row: Row,
    from: EdgeId,
    inputs: Seq<NodeId>,
    k: int,
    depth: nat,
) -> (Row, bool)
    decreases depth, 0nat, inputs.len() - k,
{
    if 0 <= k < inputs.len() {
        match s.nodes[inputs[k].0 as int].in_edge {
            None => inputs_lead(s, row, from, inputs, k + 1, depth),
            Some(e) => {
                let (known, found) = if e == from {
                    (row, true)
                } else if row[e.0 as int] is Some || depth == 0 {
                    (row, row[e.0 as int] == Some(true))
                } else {
                    path_between(s, row, from, e, (depth - 1) as nat)
                };
                if found {
                    (known, true)
                } else {
                    inputs_lead(s, known, from, inputs, k + 1, depth)
                }
            },
        }
    } else {
        (row, false)
    }
}

/// Which entries of a row are known.
pub open spec fn knowns(row: Row) -> Seq<bool> {
    Seq::new(row.len(), |i: int| row[i] is Some)
}

proof fn lemma_knowns(row: Row, i: int, x: bool)
    requires
        0 <= i < row.len(),
    ensures
        row[i] is None ==> unseen(knowns(row.update(i, Some(x)))) + 1 == unseen(knowns(row)),
        row[i] is Some ==> unseen(knowns(row.update(i, Some(x)))) == unseen(knowns(row)),
{
    if row[i] is None {
        lemma_unseen(knowns(row), i);
        assert(knowns(row.update(i, Some(x))) =~= knowns(row).update(i, true));
    } else {
        assert(knowns(row.update(i, Some(x))) =~= knowns(row));
    }
}

proof fn lemma_knowns_bound(v: Seq<bool>)
    ensures
        unseen(v) <= v.len(),
    decreases v.len(),
{
    if v.len() > 0 {
        lemma_knowns_bound(v.drop_last());
    }
}

fn path_exists_between(
    state: &State,
    row: &mut Vec<Option<bool>>,
    from: EdgeId,
    to: EdgeId,
    Ghost(depth): Ghost<nat>,
) -> (r: bool)
    requires
        state.wf(),
        to.0 < state@.edges.len(),
        old(row)@.len() == state@.edges.len(),
        unseen(knowns(old(row)@)) <= depth + 1,
    ensures
        final(row)@.len() == old(row)@.len(),
        unseen(knowns(final(row)@)) <= unseen(knowns(old(row)@)),
        (final(row)@, r) == path_between(state@, old(row)@, from, to, depth),
    decreases depth, 1nat,
{
    if let Some(known) = row[to.0] {
        return known;
    }
    proof {
        lemma_knowns(row@, to.0 as int, false);
    }
    // A provisional `false` breaks cycles.
    row.set(to.0, Some(false));
    let found: bool = input_exists_between(state, row, from, to, Ghost(depth));
    proof {
        lemma_knowns(row@, to.0 as int, found);
    }
    row.set(to.0, Some(found));
    found
}

fn input_exists_between(
    state: &State,
    row: &mut Vec<Option<bool>>,
    from: EdgeId,
    to: EdgeId,
    Ghost(depth): Ghost<nat>,
) -> (r: bool)
    requires
        state.wf(),
        to.0 < state@.edges.len(),
        old(row)@.len() == state@.edges.len(),
        unseen(knowns(old(row)@)) <= depth,
    ensures
        final(row)@.len() == old(row)@.len(),
        unseen(knowns(final(row)@)) <= unseen(knowns(old(row)@)),
        (final(row)@, r) == inputs_lead(
            state@,
            old(row)@,
            from,
            state@.edges[to.0 as int].inputs,
            0,
            depth,
        ),
    decreases depth, 0nat,
{
    let inputs = state.edge(to).inputs();
    let ghost u0 = unseen(knowns(row@));
    let ghost want = inputs_lead(state@, row@, from, inputs@, 0, depth);
    proof {
        state.lemma_wf();
        assert(state@.edge_ok(state@.edges[to.0 as int]));
    }
    let mut k: usize = 0;
    while k < inputs.len()
        invariant
            k <= inputs@.len(),
            state.wf(),
            inputs@ == state@.edges[to.0 as int].inputs,
            nodes_below(inputs@, state@.nodes.len()),
            row@.len() == state@.edges.len(),
            old(row)@.len() == row@.len(),
            u0 == unseen(knowns(old(row)@)),
            unseen(knowns(row@)) <= u0 <= depth,
            want == inputs_lead(state@, old(row)@, from, inputs@, 0, depth),
            inputs_lead(state@, row@, from, inputs@, k as int, depth) == want,
        decreases inputs@.len() - k,
    {
        proof {
            state.lemma_wf();
            assert(state@.node_ok(state@.nodes[inputs@[k as int].0 as int]));
        }
        if let Some(e) = state.node(inputs[k]).in_edge() {
            let found: bool = if e == from {
                true
            } else {
                match row[e.0] {
                    Some(known) => known,
                    None => {
                        proof {
                            lemma_knowns(row@, e.0 as int, false);
                        }
                        path_exists_between(state, row, from, e, Ghost((depth - 1) as nat))
                    },
                }
            };
            if found {
                return true;
            }
        }
        k += 1;
    }
    false
}

/// What is known of the edges to which the edge at `from` leads.
pub open spec fn row_of(paths: Seq<Row>, from: int) -> Row {
    if paths[from].len() == paths.len() {
        paths[from]
    } else {
        Seq::new(paths.len(), |i: int| None)
    }
}

/// Whether one of the nodes is made by the edge at `e`.
pub open spec fn makes_one(s: StateView, nodes: Seq<NodeId>, e: int) -> bool {
    exists|i: int|
        0 <= i < nodes.len() && s.nodes[(#[trigger] nodes[i]).0 as int].in_edge == Some(
            EdgeId(e as usize),
        )
}

/// The edges from the `k`-th on that make one of the nodes but do not lead to
/// `edge`, behind `acc`, and what is known of paths then.
pub open spec fn strangers(
    s: StateView,
    paths: Seq<Row>,
    edge: EdgeId,
    nodes: Seq<NodeId>,
    acc: Seq<EdgeId>,
    k: int,
) -> (Seq<Row>, Seq<EdgeId>)
    decreases s.edges.len() - k,
{
    if 0 <= k < s.edges.len() {
        let from = EdgeId(k as usize);
        if makes_one(s, nodes, k) {
            let (row, found) = path_between(s, row_of(paths, k), from, edge, s.edges.len());
            strangers(
                s,
                paths.update(k, row),
                edge,
                nodes,
                if found {
                    acc
                } else {
                    acc.push(from)
                },
                k + 1,
            )
        } else {
            strangers(s, paths, edge, nodes, acc, k + 1)
        }
    } else {
        (paths, acc)
    }
}

/// What is noted of one node.
#[verifier::ext_equal]
pub struct Note {
    pub search: Search,
    /// The rules that generate its undeclared inputs.
    pub rules: Set<Seq<char>>,
}

/// The note after the nodes from the `k`-th on that `from` makes have been
/// found to be undeclared inputs of `node`.
pub open spec fn inputs_noted(
    t: Note,
    s: StateView,
    node: NodeId,
    from: EdgeId,
    nodes: Seq<NodeId>,
    k: int,
) -> Note
    decreases nodes.len() - k,
{
    if 0 <= k < nodes.len() {
        let d = nodes[k];
        let rule = s.rule_of(from.0 as int).name;
        let noted = if s.nodes[d.0 as int].in_edge == Some(from) {
            Note {
                search: Search {
                    generated: flagged(t.search.generated, d.0 as int),
                    rules: t.search.rules.insert(rule),
                    lines: t.search.lines.push(
                        "Missing dep: "@ + path_of(s, node) + " uses "@ + path_of(s, d)
                            + " (generated by "@ + rule + ")"@,
                    ),
                    ..t.search
                },
                rules: t.rules.insert(rule),
            }
        } else {
            t
        };
        inputs_noted(noted, s, node, from, nodes, k + 1)
    } else {
        t
    }
}

/// The same for the edges from the `k`-th on.
pub open spec fn strangers_noted(
    t: Note,
    s: StateView,
    node: NodeId,
    edges: Seq<EdgeId>,
    nodes: Seq<NodeId>,
    k: int,
) -> Note
    decreases edges.len() - k,
{
    if 0 <= k < edges.len() {
        strangers_noted(
            inputs_noted(t, s, node, edges[k], nodes, 0),
            s,
            node,
            edges,
            nodes,
            k + 1,
        )
    } else {
        t
    }
}

/// Whether one of the nodes is the manifest. A dependency on it means "rebuild
/// when reconfigured", which is not a real missing dependency.
pub open spec fn holds_manifest(s: StateView, nodes: Seq<NodeId>) -> bool {
    exists|i: int| 0 <= i < nodes.len() && path_of(s, #[trigger] nodes[i]) == "build.ninja"@
}

/// The search after it has been found that `node`, made by `edge`, depends on
/// `nodes`.
pub open spec fn deps_checked(
    c: Search,
    s: StateView,
    node: NodeId,
    edge: EdgeId,
    nodes: Seq<NodeId>,
) -> Search {
    let (paths, edges) = strangers(s, c.paths, edge, nodes, Seq::empty(), 0);
    let known = Search { paths, ..c };
    if holds_manifest(s, nodes) {
        c
    } else if edges.len() == 0 {
        known
    } else {
        let t = strangers_noted(Note { search: known, rules: Set::empty() }, s, node, edges, nodes, 0);
        Search {
            count: t.search.count.wrapping_add(t.rules.len() as usize),
            missing: flagged(t.search.missing, node.0 as int),
            ..t.search
        }
    }
}

/// A search together with the graph.
#[verifier::ext_equal]
pub struct Searched {
    pub search: Search,
    pub state: StateView,
}

/// The dependencies of a node that are not in the manifest, and the graph with
/// them.
pub open spec fn found_deps<D: DiskInterface>(
    m: D::Model,
    log: DepsLogView,
    s: StateView,
    node: NodeId,
    edge: EdgeId,
) -> Result<(StateView, Seq<NodeId>), Halt> {
    let e = edge.0 as int;
    let depfile = s.binding(e, "depfile"@, Escape::Plain);
    let content = D::content_of(m, depfile);
    if s.binding(e, "deps"@, Escape::Shell).len() > 0 {
        match log.deps_of(s, node) {
            Some(d) => Ok((s, d.nodes)),
            None => Ok((s, Seq::empty())),
        }
    } else if depfile.len() == 0 {
        Ok((s, Seq::empty()))
    } else if content is Err {
        halted(content->Err_0, s)
    } else if !(content->Ok_0 matches Some(b) && b.len() > 0) {
        Ok((s, Seq::empty()))
    } else {
        match depfile_of(content->Ok_0->0) {
            Err(_) => Ok((s, Seq::empty())),
            Ok((_, ins)) => Ok(deps_interned(s, ins, 0, Seq::empty())),
        }
    }
}

/// The search after `node` and what it is built from have been examined. At
/// most `depth` nodes can be nested.
pub open spec fn node_checked<D: DiskInterface>(
    c: Searched,
    m: D::Model,
    log: DepsLogView,
    node: NodeId,
    depth: nat,
) -> Result<Searched, Halt>
    decreases depth, 1nat, 0nat,
{
    let n = node.0 as int;
    match c.state.nodes[n].in_edge {
        None => Ok(c),
        Some(edge) => if n >= c.search.seen.len() || c.search.seen[n] {
            Ok(c)
        } else {
            let marked = Searched {
                search: Search { seen: c.search.seen.update(n, true), ..c.search },
                ..c
            };
            match inputs_checked::<D>(
                marked,
                m,
                log,
                c.state.edges[edge.0 as int].inputs,
                0,
                depth,
            ) {
                Err(f) => Err(f),
                Ok(d) => match found_deps::<D>(m, log, d.state, node, edge) {
                    Err(f) => Err(f),
                    Ok((state, nodes)) => if nodes.len() == 0 {
                        Ok(Searched { state, ..d })
                    } else {
                        Ok(
                            Searched {
                                search: deps_checked(d.search, state, node, edge, nodes),
                                state,
                            },
                        )
                    },
                },
            }
        },
    }
}

/// The same for the nodes from the `k`-th on.
pub open spec fn inputs_checked<D: DiskInterface>(
    c: Searched,
    m: D::Model,
    log: DepsLogView,
    nodes: Seq<NodeId>,
    k: int,
    depth: nat,
) -> Result<Searched, Halt>
    decreases depth, 0nat, nodes.len() - k,
{
    if 0 <= k < nodes.len() {
        let n = nodes[k].0 as int;
        if n >= c.search.seen.len() || c.search.seen[n] || depth == 0 {
            inputs_checked::<D>(c, m, log, nodes, k + 1, depth)
        } else {
            match node_checked::<D>(c, m, log, nodes[k], (depth - 1) as nat) {
                Err(f) => Err(f),
                Ok(d) => inputs_checked::<D>(d, m, log, nodes, k + 1, depth),
            }
        }
    } else {
        Ok(c)
    }
}

/// The same for the targets from the `k`-th on.
pub open spec fn targets_checked<D: DiskInterface>(
    c: Searched,
    m: D::Model,
    log: DepsLogView,
    targets: Seq<NodeId>,
    k: int,
) -> Result<Searched, Halt>
    decreases targets.len() - k,
{
    if 0 <= k < targets.len() {
        match node_checked::<D>(c, m, log, targets[k], c.search.seen.len()) {
            Err(f) => Err(f),
            Ok(d) => targets_checked::<D>(d, m, log, targets, k + 1),
        }
    } else {
        Ok(c)
    }
}

struct MissingDepsScanner {
    lines: Vec<String>,
    count: usize,
    seen: Vec<bool>,
    generated: Vec<bool>,
    rules: Vec<String>,
    missing: Vec<bool>,
    paths: Vec<Vec<Option<bool>>>,
}

spec fn rows_of(v: Seq<Vec<Option<bool>>>) -> Seq<Row> {
    Seq::new(v.len(), |i: int| v[i]@)
}

impl MissingDepsScanner {
    spec fn stands_for(&self, c: Search) -> bool {
        &&& texts(self.lines@) == c.lines
        &&& self.count == c.count
        &&& self.seen@ == c.seen
        &&& self.generated@ == c.generated
        &&& lists(texts(self.rules@), c.rules)
        &&& self.missing@ == c.missing
        &&& rows_of(self.paths@) == c.paths
    }
}

fn set_flag(v: &mut Vec<bool>, i: usize)
    ensures
        final(v)@ == flagged(old(v)@, i as int),
{
    if i < v.len() {
        v.set(i, true);
    }
}

fn unknown_row(n: usize) -> (r: Vec<Option<bool>>)
    ensures
        r@.len() == n,
        forall|i: int| 0 <= i < n ==> (#[trigger] r@[i]) is None,
{
    let mut r: Vec<Option<bool>> = Vec::new();
    while r.len() < n
        invariant
            r@.len() <= n,
            forall|i: int| 0 <= i < r@.len() ==> (#[trigger] r@[i]) is None,
        decreases n - r@.len(),
    {
        r.push(None);
    }
    r
}

fn is_made_by(state: &State, nodes: &[NodeId], edge: EdgeId) -> (r: bool)
    requires
        nodes_below(nodes@, state@.nodes.len()),
    ensures
        r == makes_one(state@, nodes@, edge.0 as int),
{
    let mut k: usize = 0;
    while k < nodes.len()
        invariant
            k <= nodes@.len(),
            nodes_below(nodes@, state@.nodes.len()),
            forall|i: int|
                0 <= i < k ==> state@.nodes[(#[trigger] nodes@[i]).0 as int].in_edge != Some(edge),
        decreases nodes@.len() - k,
    {
        if let Some(e) = state.node(nodes[k]).in_edge() {
            if e == edge {
                return true;
            }
        }
        k += 1;
    }
    false
}

fn has_manifest(state: &State, nodes: &[NodeId]) -> (r: bool)
    requires
        nodes_below(nodes@, state@.nodes.len()),
    ensures
        r == holds_manifest(state@, nodes@),
{
    let mut k: usize = 0;
    while k < nodes.len()
        invariant
            k <= nodes@.len(),
            nodes_below(nodes@, state@.nodes.len()),
            forall|i: int|
                0 <= i < k ==> path_of(state@, #[trigger] nodes@[i]) != "build.ninja"@,
        decreases nodes@.len() - k,
    {
        if str_eq(state.node(nodes[k]).path(), "build.ninja") {
            assert(path_of(state@, nodes@[k as int]) == "build.ninja"@);
            return true;
        }
        k += 1;
    }
    false
}

fn find_strangers(
    state: &State,
    paths: &mut Vec<Vec<Option<bool>>>,
    edge: EdgeId,
    nodes: &[NodeId],
) -> (r: Vec<EdgeId>)
    requires
        state.wf(),
        edge.0 < state@.edges.len(),
        old(paths)@.len() == state@.edges.len(),
        nodes_below(nodes@, state@.nodes.len()),
    ensures
        final(paths)@.len() == old(paths)@.len(),
        (rows_of(final(paths)@), r@) == strangers(
            state@,
            rows_of(old(paths)@),
            edge,
            nodes@,
            Seq::empty(),
            0,
        ),
        forall|i: int| 0 <= i < r@.len() ==> (#[trigger] r@[i]).0 < state@.edges.len(),
{
    let ghost want = strangers(state@, rows_of(paths@), edge, nodes@, Seq::empty(), 0);
    let mut found: Vec<EdgeId> = Vec::new();
    assert(found@ =~= Seq::empty());
    let n: usize = state.edge_count();
    let mut k: usize = 0;
    while k < n
        invariant
            k <= n,
            n == state@.edges.len(),
            state.wf(),
            edge.0 < n,
            paths@.len() == n,
            nodes_below(nodes@, state@.nodes.len()),
            forall|i: int| 0 <= i < found@.len() ==> (#[trigger] found@[i]).0 < n,
            strangers(state@, rows_of(paths@), edge, nodes@, found@, k as int) == want,
        decreases n - k,
    {
        let from = EdgeId(k);
        if is_made_by(state, nodes, from) {
            let ghost rows = rows_of(paths@);
            let mut row: Vec<Option<bool>> = Vec::new();
            std::mem::swap(&mut row, &mut paths[k]);
            assert(row@ == rows[k as int]);
            if row.len() != n {
                row = unknown_row(n);
            }
            assert(row@ =~= row_of(rows, k as int));
            proof {
                lemma_knowns_bound(knowns(row@));
            }
            let leads: bool = path_exists_between(
                state,
                &mut row,
                from,
                edge,
                Ghost(state@.edges.len()),
            );
            let ghost after = row@;
            paths.set(k, row);
            assert(rows_of(paths@) =~= rows.update(k as int, after));
            if !leads {
                found.push(from);
            }
        }
        k += 1;
    }
    found
}

fn missing_line(state: &State, node: NodeId, dep: NodeId, rule: &str) -> (r: String)
    requires
        node.0 < state@.nodes.len(),
        dep.0 < state@.nodes.len(),
    ensures
        r@ == "Missing dep: "@ + path_of(state@, node) + " uses "@ + path_of(state@, dep)
            + " (generated by "@ + rule@ + ")"@,
{
    let mut line: String = "Missing dep: ".to_owned();
    line.append(state.node(node).path());
    line.append(" uses ");
    line.append(state.node(dep).path());
    line.append(" (generated by ");
    line.append(rule);
    line.append(")");
    line
}

impl MissingDepsScanner {
    fn note_inputs(
        &mut self,
        state: &State,
        node: NodeId,
        from: EdgeId,
        nodes: &[NodeId],
        names: &mut Vec<String>,
        Ghost(t): Ghost<Note>,
    )
        requires
            state.wf(),
            node.0 < state@.nodes.len(),
            from.0 < state@.edges.len(),
            nodes_below(nodes@, state@.nodes.len()),
            old(self).stands_for(t.search),
            lists(texts(old(names)@), t.rules),
        ensures
            ({
                let u = inputs_noted(t, state@, node, from, nodes@, 0);
                &&& final(self).stands_for(u.search)
                &&& lists(texts(final(names)@), u.rules)
                &&& u.search.paths == t.search.paths
                &&& u.search.seen == t.search.seen
            }),
    {
        let rule = state.edge_rule_name(from);
        let ghost want = inputs_noted(t, state@, node, from, nodes@, 0);
        let ghost mut now = t;
        let mut k: usize = 0;
        while k < nodes.len()
            invariant
                k <= nodes@.len(),
                node.0 < state@.nodes.len(),
                nodes_below(nodes@, state@.nodes.len()),
                rule@ == state@.rule_of(from.0 as int).name,
                self.stands_for(now.search),
                lists(texts(names@), now.rules),
                now.search.paths == t.search.paths,
                now.search.seen == t.search.seen,
                inputs_noted(now, state@, node, from, nodes@, k as int) == want,
            decreases nodes@.len() - k,
        {
            let dep = nodes[k];
            let made: bool = match state.node(dep).in_edge() {
                Some(e) => e == from,
                None => false,
            };
            if made {
                let line = missing_line(state, node, dep, rule);
                let ghost lines = texts(self.lines@);
                let ghost text = line@;
                set_flag(&mut self.generated, dep.0);
                insert_ascending(&mut self.rules, rule.to_owned());
                insert_ascending(names, rule.to_owned());
                self.lines.push(line);
                proof {
                    assert(texts(self.lines@) =~= lines.push(text));
                    now = Note {
                        search: Search {
                            generated: flagged(now.search.generated, dep.0 as int),
                            rules: now.search.rules.insert(rule@),
                            lines: now.search.lines.push(text),
                            ..now.search
                        },
                        rules: now.rules.insert(rule@),
                    };
                }
            }
            k += 1;
        }
    }

    fn process_node_deps(
        &mut self,
        state: &State,
        node: NodeId,
        edge: EdgeId,
        dep_nodes: &[NodeId],
        Ghost(c): Ghost<Search>,
    )
        requires
            state.wf(),
            node.0 < state@.nodes.len(),
            edge.0 < state@.edges.len(),
            nodes_below(dep_nodes@, state@.nodes.len()),
            old(self).stands_for(c),
            c.paths.len() == state@.edges.len(),
        ensures
            final(self).stands_for(deps_checked(c, state@, node, edge, dep_nodes@)),
            deps_checked(c, state@, node, edge, dep_nodes@).paths.len() == c.paths.len(),
            deps_checked(c, state@, node, edge, dep_nodes@).seen == c.seen,
    {
        if has_manifest(state, dep_nodes) {
            return;
        }
        let found = find_strangers(state, &mut self.paths, edge, dep_nodes);
        let ghost known = Search { paths: rows_of(self.paths@), ..c };
        if found.len() == 0 {
            return;
        }
        let mut names: Vec<String> = Vec::new();
        assert(texts(names@) =~= Seq::empty());
        let ghost start = Note { search: known, rules: Set::empty() };
        let ghost want = strangers_noted(start, state@, node, found@, dep_nodes@, 0);
        let ghost mut now = start;
        let mut k: usize = 0;
        while k < found.len()
            invariant
                k <= found@.len(),
                state.wf(),
                node.0 < state@.nodes.len(),
                nodes_below(dep_nodes@, state@.nodes.len()),
                forall|i: int| 0 <= i < found@.len() ==> (#[trigger] found@[i]).0 < state@.edges.len(),
                self.stands_for(now.search),
                lists(texts(names@), now.rules),
                now.search.paths == known.paths,
                now.search.seen == known.seen,
                strangers_noted(now, state@, node, found@, dep_nodes@, k as int) == want,
            decreases found@.len() - k,
        {
            self.note_inputs(state, node, found[k], dep_nodes, &mut names, Ghost(now));
            proof {
                now = inputs_noted(now, state@, node, found@[k as int], dep_nodes@, 0);
            }
            k += 1;
        }
        proof {
            lemma_lists_len(texts(names@), now.rules);
        }
        let more: usize = names.len();
        self.count = self.count.wrapping_add(more);
        set_flag(&mut self.missing, node.0);
    }
}

fn find_deps<D: DiskInterface>(
    state: &mut State,
    disk: &D,
    deps_log: &DepsLog,
    node: NodeId,
    edge: EdgeId,
) -> (r: Result<Vec<NodeId>, Error>)
    requires
        old(state).wf(),
        node.0 < old(state)@.nodes.len(),
        edge.0 < old(state)@.edges.len(),
        deps_log@.fits(old(state)@.nodes.len()),
    ensures
        final(state).wf(),
        only_grown(old(state)@, final(state)@),
        match (r, found_deps::<D>(disk.model(), deps_log@, old(state)@, node, edge)) {
            (Ok(v), Ok(w)) => (final(state)@, v@) == w && nodes_below(
                v@,
                final(state)@.nodes.len(),
            ),
            (Err(e), Err(f)) => e@ == f.error && final(state)@ == f.state,
            _ => false,
        },
{
    let nothing: Vec<NodeId> = Vec::new();
    assert(nothing@ =~= Seq::empty());
    if state.edge_binding_bool(edge, "deps") {
        return match deps_log.get_deps(state, node) {
            Some(d) => {
                proof {
                    let id = state@.nodes[node.0 as int].deps_log_id as int;
                    assert(crate::deps_log::deps_fit(deps_log@.deps[id], state@.nodes.len()));
                }
                Ok(copied_nodes(&d.nodes))
            },
            None => Ok(nothing),
        };
    }
    let depfile = state.edge_depfile(edge);
    if depfile.as_str().is_empty() {
        return Ok(nothing);
    }
    let content = match disk.read_file(depfile.as_str()) {
        Err(e) => {
            return Err(e);
        },
        Ok(None) => {
            return Ok(nothing);
        },
        Ok(Some(content)) => content,
    };
    if content.len() == 0 {
        return Ok(nothing);
    }
    match parse_depfile(content.as_slice()) {
        Err(_) => Ok(nothing),
        Ok(parsed) => Ok(intern_deps(state, &parsed.ins)),
    }
}

proof fn lemma_log_fits_grown(log: DepsLogView, n: nat, m: nat)
    requires
        log.fits(n),
        n <= m,
    ensures
        log.fits(m),
{
    assert forall|i: int| 0 <= i < log.deps.len() implies crate::deps_log::deps_fit(
        #[trigger] log.deps[i],
        m,
    ) by {
        assert(crate::deps_log::deps_fit(log.deps[i], n));
    }
}

impl MissingDepsScanner {
    fn process_node<D: DiskInterface>(
        &mut self,
        state: &mut State,
        disk: &D,
        deps_log: &DepsLog,
        node: NodeId,
        Ghost(c): Ghost<Searched>,
        Ghost(depth): Ghost<nat>,
    ) -> (r: Result<(), Error>)
        requires
            old(state).wf(),
            old(self).stands_for(c.search),
            old(state)@ == c.state,
            node.0 < c.state.nodes.len(),
            c.search.seen.len() <= c.state.nodes.len(),
            c.search.paths.len() == c.state.edges.len(),
            deps_log@.fits(c.state.nodes.len()),
            unseen(c.search.seen) <= depth + 1,
        ensures
            final(state).wf(),
            only_grown(c.state, final(state)@),
            match (r, node_checked::<D>(c, disk.model(), deps_log@, node, depth)) {
                (Ok(_), Ok(d)) => {
                    &&& final(self).stands_for(d.search)
                    &&& final(state)@ == d.state
                    &&& d.search.seen.len() == c.search.seen.len()
                    &&& d.search.paths.len() == c.search.paths.len()
                    &&& unseen(d.search.seen) <= unseen(c.search.seen)
                },
                (Err(e), Err(f)) => e@ == f.error && final(state)@ == f.state,
                _ => false,
            },
        decreases depth, 1nat,
    {
        proof {
            state.lemma_wf();
            assert(state@.node_ok(state@.nodes[node.0 as int]));
        }
        let edge = match state.node(node).in_edge() {
            None => {
                return Ok(());
            },
            Some(e) => e,
        };
        if node.0 >= self.seen.len() || self.seen[node.0] {
            return Ok(());
        }
        proof {
            lemma_unseen(c.search.seen, node.0 as int);
        }
        self.seen.set(node.0, true);
        let ghost marked = Searched {
            search: Search { seen: c.search.seen.update(node.0 as int, true), ..c.search },
            ..c
        };
        match self.process_inputs(state, disk, deps_log, edge, Ghost(marked), Ghost(depth)) {
            Err(e) => {
                return Err(e);
            },
            Ok(_) => {},
        }
        let ghost d = inputs_checked::<D>(
            marked,
            disk.model(),
            deps_log@,
            c.state.edges[edge.0 as int].inputs,
            0,
            depth,
        )->Ok_0;
        proof {
            lemma_log_fits_grown(deps_log@, c.state.nodes.len(), state@.nodes.len());
        }
        let nodes = match find_deps(state, disk, deps_log, node, edge) {
            Err(e) => {
                return Err(e);
            },
            Ok(nodes) => nodes,
        };
        if nodes.len() == 0 {
            return Ok(());
        }
        self.process_node_deps(state, node, edge, nodes.as_slice(), Ghost(d.search));
        Ok(())
    }

    fn process_inputs<D: DiskInterface>(
        &mut self,
        state: &mut State,
        disk: &D,
        deps_log: &DepsLog,
        edge: EdgeId,
        Ghost(c): Ghost<Searched>,
        Ghost(depth): Ghost<nat>,
    ) -> (r: Result<(), Error>)
        requires
            old(state).wf(),
            old(self).stands_for(c.search),
            old(state)@ == c.state,
            edge.0 < c.state.edges.len(),
            c.search.seen.len() <= c.state.nodes.len(),
            c.search.paths.len() == c.state.edges.len(),
            deps_log@.fits(c.state.nodes.len()),
            unseen(c.search.seen) <= depth,
        ensures
            final(state).wf(),
            only_grown(c.state, final(state)@),
            match (r, inputs_checked::<D>(
                c,
                disk.model(),
                deps_log@,
                c.state.edges[edge.0 as int].inputs,
                0,
                depth,
            )) {
                (Ok(_), Ok(d)) => {
                    &&& final(self).stands_for(d.search)
                    &&& final(state)@ == d.state
                    &&& d.search.seen.len() == c.search.seen.len()
                    &&& d.search.paths.len() == c.search.paths.len()
                    &&& unseen(d.search.seen) <= unseen(c.search.seen)
                },
                (Err(e), Err(f)) => e@ == f.error && final(state)@ == f.state,
                _ => false,
            },
        decreases depth, 0nat,
    {
        let inputs: Vec<NodeId> = vstd::slice::slice_to_vec(state.edge(edge).inputs());
        proof {
            state.lemma_wf();
            assert(state@.edge_ok(state@.edges[edge.0 as int]));
        }
        let ghost m = disk.model();
        let ghost log = deps_log@;
        let ghost want = inputs_checked::<D>(c, m, log, inputs@, 0, depth);
        let ghost mut now = c;
        let mut k: usize = 0;
        while k < inputs.len()
            invariant
                k <= inputs@.len(),
                m == disk.model(),
                log == deps_log@,
                inputs@ == c.state.edges[edge.0 as int].inputs,
                nodes_below(inputs@, c.state.nodes.len()),
                state.wf(),
                state@ == now.state,
                only_grown(c.state, now.state),
                self.stands_for(now.search),
                now.search.seen.len() == c.search.seen.len(),
                now.search.paths.len() == c.search.paths.len(),
                c.search.seen.len() <= c.state.nodes.len(),
                c.search.paths.len() == c.state.edges.len(),
                log.fits(c.state.nodes.len()),
                unseen(now.search.seen) <= unseen(c.search.seen) <= depth,
                want == inputs_checked::<D>(c, m, log, inputs@, 0, depth),
                inputs_checked::<D>(now, m, log, inputs@, k as int, depth) == want,
            decreases inputs@.len() - k,
        {
            let input = inputs[k];
            if input.0 < self.seen.len() && !self.seen[input.0] {
                proof {
                    lemma_unseen(now.search.seen, input.0 as int);
                    lemma_log_fits_grown(log, c.state.nodes.len(), now.state.nodes.len());
                }
                match self.process_node(
                    state,
                    disk,
                    deps_log,
                    input,
                    Ghost(now),
                    Ghost((depth - 1) as nat),
                ) {
                    Err(e) => {
                        return Err(e);
                    },
                    Ok(_) => {},
                }
                proof {
                    now = node_checked::<D>(now, m, log, input, (depth - 1) as nat)->Ok_0;
                }
            }
            k += 1;
        }
        Ok(())
    }
}

fn count_flags(v: &Vec<bool>) -> (r: usize)
    ensures
        r == flag_count(v@),
{
    let mut n: usize = 0;
    let mut k: usize = 0;
    while k < v.len()
        invariant
            k <= v@.len(),
            n <= k,
            n == flag_count(v@.take(k as int)),
        decreases v@.len() - k,
    {
        proof {
            assert(v@.take(k + 1).drop_last() =~= v@.take(k as int));
        }
        if v[k] {
            n += 1;
        }
        k += 1;
    }
    assert(v@.take(k as int) =~= v@);
    n
}

/// `-t missingdeps`: find depfile dependencies on generated files that the
/// manifest does not declare, which make the build order-dependent.
pub fn missing_deps<D: DiskInterface>(
    state: &mut State,
    disk: &D,
    deps_log: &DepsLog,
    targets: &[NodeId],
) -> (r: Result<MissingDepsReport, Error>)
    requires
        old(state).wf(),
        deps_log@.fits(old(state)@.nodes.len()),
        nodes_below(targets@, old(state)@.nodes.len()),
    ensures
        final(state).wf(),
        only_grown(old(state)@, final(state)@),
        match (r, targets_checked::<D>(
            (Searched {
                search: search_start(old(state)@.nodes.len(), old(state)@.edges.len()),
                state: old(state)@,
            }),
            disk.model(),
            deps_log@,
            targets@,
            0,
        )) {
            (Ok(report), Ok(d)) => {
                &&& final(state)@ == d.state
                &&& texts(report.lines@) == d.search.lines
                &&& report.missing_dep_path_count == d.search.count
                &&& report.nodes_processed == flag_count(d.search.seen)
                &&& report.generated_nodes == flag_count(d.search.generated)
                &&& report.generator_rules == d.search.rules.len()
                &&& report.nodes_missing_deps == flag_count(d.search.missing)
            },
            (Err(e), Err(f)) => e@ == f.error && final(state)@ == f.state,
            _ => false,
        },
{
    let nodes: usize = state.node_count();
    let edges: usize = state.edge_count();
    let mut paths: Vec<Vec<Option<bool>>> = Vec::new();
    while paths.len() < edges
        invariant
            paths@.len() <= edges,
            forall|i: int| 0 <= i < paths@.len() ==> (#[trigger] paths@[i])@.len() == 0,
        decreases edges - paths@.len(),
    {
        paths.push(Vec::new());
    }
    let mut scanner = MissingDepsScanner {
        lines: Vec::new(),
        count: 0,
        seen: none_seen(nodes),
        generated: none_seen(nodes),
        rules: Vec::new(),
        missing: none_seen(nodes),
        paths,
    };
    let ghost m = disk.model();
    let ghost log = deps_log@;
    let ghost s0 = state@;
    let ghost start = Searched {
        search: search_start(s0.nodes.len(), s0.edges.len()),
        state: s0,
    };
    proof {
        assert(texts(scanner.lines@) =~= Seq::empty());
        assert(texts(scanner.rules@) =~= Seq::empty());
        assert forall|i: int| 0 <= i < edges implies #[trigger] rows_of(scanner.paths@)[i]
            =~= Seq::<Option<bool>>::empty() by {}
        assert(rows_of(scanner.paths@) =~= start.search.paths);
        assert(scanner.stands_for(start.search));
    }
    let ghost want = targets_checked::<D>(start, m, log, targets@, 0);
    let ghost mut now = start;
    let mut k: usize = 0;
    while k < targets.len()
        invariant
            k <= targets@.len(),
            m == disk.model(),
            log == deps_log@,
            s0 == old(state)@,
            state.wf(),
            state@ == now.state,
            only_grown(s0, now.state),
            scanner.stands_for(now.search),
            now.search.seen.len() == s0.nodes.len(),
            now.search.paths.len() == s0.edges.len(),
            log.fits(s0.nodes.len()),
            nodes_below(targets@, s0.nodes.len()),
            start == (Searched {
                search: search_start(s0.nodes.len(), s0.edges.len()),
                state: s0,
            }),
            want == targets_checked::<D>(start, m, log, targets@, 0),
            targets_checked::<D>(now, m, log, targets@, k as int) == want,
        decreases targets@.len() - k,
    {
        proof {
            lemma_knowns_bound(now.search.seen);
            lemma_log_fits_grown(log, s0.nodes.len(), now.state.nodes.len());
        }
        match scanner.process_node(
            state,
            disk,
            deps_log,
            targets[k],
            Ghost(now),
            Ghost(now.search.seen.len()),
        ) {
            Err(e) => {
                return Err(e);
            },
            Ok(_) => {},
        }
        proof {
            now = node_checked::<D>(
                now,
                m,
                log,
                targets@[k as int],
                now.search.seen.len(),
            )->Ok_0;
        }
        k += 1;
    }
    proof {
        lemma_lists_len(texts(scanner.rules@), now.search.rules);
    }
    let nodes_processed: usize = count_flags(&scanner.seen);
    let generated_nodes: usize = count_flags(&scanner.generated);
    let nodes_missing_deps: usize = count_flags(&scanner.missing);
    Ok(
        MissingDepsReport {
            nodes_processed,
            missing_dep_path_count: scanner.count,
            nodes_missing_deps,
            generated_nodes,
            generator_rules: scanner.rules.len(),
            lines: scanner.lines,
        },
    )
}

/// Whether `user` takes something that `maker` makes.
pub open spec fn takes_from(s: StateView, user: EdgeId, maker: EdgeId) -> bool {
    exists|i: int|
        0 <= i < s.edges[user.0 as int].inputs.len() && s.nodes[(
        #[trigger] s.edges[user.0 as int].inputs[i]).0 as int].in_edge == Some(maker)
}

/// Whether each edge of a list takes something that the next one makes.
pub open spec fn is_chain_of_edges(s: StateView, v: Seq<EdgeId>) -> bool {
    forall|i: int| 0 <= i < v.len() - 1 ==> takes_from(s, #[trigger] v[i], v[i + 1])
}

/// Whether `to` takes what `from` makes, at once or by way of others.
pub open spec fn leads_to(s: StateView, from: EdgeId, to: EdgeId) -> bool {
    exists|v: Seq<EdgeId>| #[trigger]
        is_chain_of_edges(s, v) && v.len() > 1 && v[0] == to && v.last() == from
}

/// Whether one of the inputs of `to` from the `k`-th on comes from `from`.
spec fn input_leads(s: StateView, from: EdgeId, to: EdgeId, k: int) -> bool {
    exists|i: int|
        k <= i < s.edges[to.0 as int].inputs.len() && is_led(
            s,
            from,
            #[trigger] s.edges[to.0 as int].inputs[i],
        )
}

spec fn is_led(s: StateView, from: EdgeId, n: NodeId) -> bool {
    match s.nodes[n.0 as int].in_edge {
        None => false,
        Some(e) => e == from || leads_to(s, from, e),
    }
}

proof fn lemma_leads_by_inputs(s: StateView, from: EdgeId, to: EdgeId)
    ensures
        leads_to(s, from, to) <==> input_leads(s, from, to, 0),
{
    let inputs = s.edges[to.0 as int].inputs;
    if leads_to(s, from, to) {
        let v = choose|v: Seq<EdgeId>| #[trigger]
            is_chain_of_edges(s, v) && v.len() > 1 && v[0] == to && v.last() == from;
        assert(takes_from(s, v[0], v[0int + 1]));
        let i = choose|i: int|
            0 <= i < s.edges[v[0].0 as int].inputs.len() && s.nodes[(
            #[trigger] s.edges[v[0].0 as int].inputs[i]).0 as int].in_edge == Some(v[1]);
        if v.len() > 2 {
            let w = v.skip(1);
            assert forall|j: int| 0 <= j < w.len() - 1 implies takes_from(
                s,
                #[trigger] w[j],
                w[j + 1],
            ) by {
                assert(w[j] == v[j + 1]);
                assert(takes_from(s, v[j + 1], v[j + 1 + 1]));
            }
            assert(is_chain_of_edges(s, w));
            assert(w.last() == from);
        }
        assert(is_led(s, from, inputs[i]));
    }
    if input_leads(s, from, to, 0) {
        let i = choose|i: int| 0 <= i < inputs.len() && is_led(s, from, #[trigger] inputs[i]);
        let e = s.nodes[inputs[i].0 as int].in_edge->0;
        assert(takes_from(s, to, e));
        let v = if e == from {
            seq![from]
        } else {
            choose|v: Seq<EdgeId>| #[trigger]
                is_chain_of_edges(s, v) && v.len() > 1 && v[0] == e && v.last() == from
        };
        let w = seq![to] + v;
        assert forall|j: int| 0 <= j < w.len() - 1 implies takes_from(
            s,
            #[trigger] w[j],
            w[j + 1],
        ) by {
            if j > 0 {
                assert(w[j] == v[j - 1]);
                assert(takes_from(s, v[j - 1], v[j - 1 + 1]));
            }
        }
        assert(is_chain_of_edges(s, w));
        assert(w.last() == from);
    }
}

/// Whether what is known of the edges that rank below `low` is right.
spec fn is_right_below(s: StateView, row: Row, from: EdgeId, rank: Seq<nat>, low: nat) -> bool {
    forall|t: EdgeId|
        t.0 < s.edges.len() && rank[t.0 as int] < low && (#[trigger] row[t.0 as int]) is Some
            ==> row[t.0 as int]->0 == leads_to(s, from, t)
}

/// Whether `row` and `other` say the same of the edges from `low` on.
spec fn same_above(row: Row, other: Row, rank: Seq<nat>, low: nat) -> bool {
    &&& row.len() == other.len()
    &&& forall|t: int|
        0 <= t < row.len() && rank[t] >= low ==> #[trigger] other[t] == row[t]
}

proof fn lemma_maker_ranks_lower(s: StateView, rank: Seq<nat>, to: EdgeId, i: int)
    requires
        s.wf(),
        crate::plan::users_rank_higher(s, rank),
        to.0 < s.edges.len(),
        0 <= i < s.edges[to.0 as int].inputs.len(),
        s.nodes[s.edges[to.0 as int].inputs[i].0 as int].in_edge is Some,
    ensures
        ({
            let e = s.nodes[s.edges[to.0 as int].inputs[i].0 as int].in_edge->0;
            e.0 < s.edges.len() && rank[e.0 as int] < rank[to.0 as int]
        }),
{
    let n = s.edges[to.0 as int].inputs[i];
    assert(s.edge_ok(s.edges[to.0 as int]));
    assert(s.node_ok(s.nodes[n.0 as int]));
    assert(s.edges[to.0 as int].inputs.contains(n));
    crate::state::law_consumers_are_known(s, n, to);
    let k = choose|k: int|
        0 <= k < s.nodes[n.0 as int].out_edges.len() && s.nodes[n.0 as int].out_edges[k] == to;
    assert(s.nodes[n.0 as int].out_edges[k] == to);
}

proof fn lemma_inputs_lead_right(
    s: StateView,
    row: Row,
    from: EdgeId,
    to: EdgeId,
    k: int,
    depth: nat,
    rank: Seq<nat>,
)
    requires
        s.wf(),
        crate::plan::users_rank_higher(s, rank),
        to.0 < s.edges.len(),
        row.len() == s.edges.len(),
        unseen(knowns(row)) <= depth,
        is_right_below(s, row, from, rank, rank[to.0 as int]),
        0 <= k,
    ensures
        ({
            let (known, found) = inputs_lead(s, row, from, s.edges[to.0 as int].inputs, k, depth);
            &&& found == input_leads(s, from, to, k)
            &&& same_above(row, known, rank, rank[to.0 as int])
            &&& is_right_below(s, known, from, rank, rank[to.0 as int])
            &&& unseen(knowns(known)) <= unseen(knowns(row))
        }),
    decreases depth, 0nat, s.edges[to.0 as int].inputs.len() - k,
{
    let inputs = s.edges[to.0 as int].inputs;
    if k < inputs.len() {
        assert(s.edge_ok(s.edges[to.0 as int]));
        match s.nodes[inputs[k].0 as int].in_edge {
            None => {
                lemma_inputs_lead_right(s, row, from, to, k + 1, depth, rank);
                assert(!is_led(s, from, inputs[k]));
                assert(input_leads(s, from, to, k) ==> input_leads(s, from, to, k + 1));
            },
            Some(e) => {
                lemma_maker_ranks_lower(s, rank, to, k);
                let (known, found) = if e == from {
                    (row, true)
                } else if row[e.0 as int] is Some || depth == 0 {
                    (row, row[e.0 as int] == Some(true))
                } else {
                    path_between(s, row, from, e, (depth - 1) as nat)
                };
                if e == from {
                } else if row[e.0 as int] is Some {
                } else {
                    lemma_knowns(row, e.0 as int, false);
                    lemma_path_right(s, row, from, e, (depth - 1) as nat, rank);
                    assert forall|t: EdgeId|
                        t.0 < s.edges.len() && rank[t.0 as int] < rank[to.0 as int] && (
                        #[trigger] known[t.0 as int]) is Some implies known[t.0 as int]->0
                        == leads_to(s, from, t) by {
                        if t.0 != e.0 && rank[t.0 as int] >= rank[e.0 as int] {
                            assert(known[t.0 as int] == row[t.0 as int]);
                        }
                    }
                    assert forall|t: int|
                        0 <= t < row.len() && rank[t] >= rank[to.0 as int] implies #[trigger] known[t]
                        == row[t] by {}
                }
                assert(found == is_led(s, from, inputs[k]));
                if !found {
                    lemma_inputs_lead_right(s, known, from, to, k + 1, depth, rank);
                    assert(input_leads(s, from, to, k) ==> input_leads(s, from, to, k + 1));
                }
            },
        }
    }
}

proof fn lemma_path_right(
    s: StateView,
    row: Row,
    from: EdgeId,
    to: EdgeId,
    depth: nat,
    rank: Seq<nat>,
)
    requires
        s.wf(),
        crate::plan::users_rank_higher(s, rank),
        to.0 < s.edges.len(),
        row.len() == s.edges.len(),
        unseen(knowns(row)) <= depth + 1,
        is_right_below(s, row, from, rank, rank[to.0 as int] + 1),
    ensures
        ({
            let (known, found) = path_between(s, row, from, to, depth);
            &&& found == leads_to(s, from, to)
            &&& known.len() == row.len()
            &&& is_right_below(s, known, from, rank, rank[to.0 as int] + 1)
            &&& forall|t: int|
                0 <= t < row.len() && t != to.0 && rank[t] >= rank[to.0 as int] ==> #[trigger] known[t]
                    == row[t]
            &&& unseen(knowns(known)) <= unseen(knowns(row))
        }),
    decreases depth, 1nat, 0nat,
{
    let t = to.0 as int;
    if row[t] is None {
        let start = row.update(t, Some(false));
        lemma_knowns(row, t, false);
        assert(is_right_below(s, start, from, rank, rank[t])) by {
            assert forall|x: EdgeId|
                x.0 < s.edges.len() && rank[x.0 as int] < rank[t] && (
                #[trigger] start[x.0 as int]) is Some implies start[x.0 as int]->0 == leads_to(
                s,
                from,
                x,
            ) by {
                assert(start[x.0 as int] == row[x.0 as int]);
            }
        }
        lemma_inputs_lead_right(s, start, from, to, 0, depth, rank);
        lemma_leads_by_inputs(s, from, to);
        let (known, found) = inputs_lead(s, start, from, s.edges[t].inputs, 0, depth);
        lemma_knowns(known, t, found);
        let end = known.update(t, Some(found));
        assert(known[t] == start[t]);
        assert forall|x: EdgeId|
            x.0 < s.edges.len() && rank[x.0 as int] < rank[t] + 1 && (
            #[trigger] end[x.0 as int]) is Some implies end[x.0 as int]->0 == leads_to(
            s,
            from,
            x,
        ) by {
            if x.0 == to.0 {
                assert(x == to);
            } else {
                assert(end[x.0 as int] == known[x.0 as int]);
                if rank[x.0 as int] >= rank[t] {
                    assert(known[x.0 as int] == start[x.0 as int]);
                    assert(start[x.0 as int] == row[x.0 as int]);
                }
            }
        }
        assert forall|x: int|
            0 <= x < row.len() && x != to.0 && rank[x] >= rank[t] implies #[trigger] end[x]
            == row[x] by {
            assert(known[x] == start[x]);
        }
    }
}

/// Whether all that is known of paths is right.
pub open spec fn knows_right_paths(s: StateView, paths: Seq<Row>) -> bool {
    &&& paths.len() == s.edges.len()
    &&& forall|f: EdgeId, t: EdgeId|
        #![trigger paths[f.0 as int][t.0 as int]]
        f.0 < s.edges.len() && t.0 < s.edges.len() && paths[f.0 as int].len() == s.edges.len()
            && paths[f.0 as int][t.0 as int] is Some ==> paths[f.0 as int][t.0 as int]->0
            == leads_to(s, f, t)
}

/// Whether `d` is one of the nodes and something makes it that does not lead to
/// `edge`.
pub open spec fn is_undeclared(s: StateView, edge: EdgeId, nodes: Seq<NodeId>, d: NodeId) -> bool {
    &&& nodes.contains(d)
    &&& s.nodes[d.0 as int].in_edge matches Some(e) && !leads_to(s, e, edge)
}

/// What is said of an undeclared input.
pub open spec fn told_as_missing(s: StateView, node: NodeId, d: NodeId) -> Seq<char> {
    let from = s.nodes[d.0 as int].in_edge->0;
    "Missing dep: "@ + path_of(s, node) + " uses "@ + path_of(s, d) + " (generated by "@
        + s.rule_of(from.0 as int).name + ")"@
}

proof fn lemma_strangers_right(
    s: StateView,
    paths: Seq<Row>,
    edge: EdgeId,
    nodes: Seq<NodeId>,
    acc: Seq<EdgeId>,
    k: int,
    rank: Seq<nat>,
)
    requires
        s.wf(),
        s.edges.len() <= usize::MAX,
        crate::plan::users_rank_higher(s, rank),
        edge.0 < s.edges.len(),
        knows_right_paths(s, paths),
        0 <= k,
    ensures
        ({
            let (known, found) = strangers(s, paths, edge, nodes, acc, k);
            &&& knows_right_paths(s, known)
            &&& forall|e: EdgeId| #[trigger]
                found.contains(e) <==> acc.contains(e) || (k <= e.0 < s.edges.len() && makes_one(
                    s,
                    nodes,
                    e.0 as int,
                ) && !leads_to(s, e, edge))
        }),
    decreases s.edges.len() - k,
{
    if k < s.edges.len() {
        let from = EdgeId(k as usize);
        assert(from.0 == k);
        let next = if makes_one(s, nodes, k) {
            let (row, found) = path_between(s, row_of(paths, k), from, edge, s.edges.len());
            let start = row_of(paths, k);
            lemma_knowns_bound(knowns(start));
            assert(is_right_below(s, start, from, rank, rank[edge.0 as int] + 1)) by {
                assert forall|t: EdgeId|
                    t.0 < s.edges.len() && rank[t.0 as int] < rank[edge.0 as int] + 1 && (
                    #[trigger] start[t.0 as int]) is Some implies start[t.0 as int]->0
                    == leads_to(s, from, t) by {
                    assert(paths[from.0 as int][t.0 as int] == start[t.0 as int]);
                }
            }
            lemma_path_right(s, start, from, edge, s.edges.len(), rank);
            let then = paths.update(k, row);
            assert forall|f: EdgeId, t: EdgeId|
                #![trigger then[f.0 as int][t.0 as int]]
                f.0 < s.edges.len() && t.0 < s.edges.len() && then[f.0 as int].len()
                    == s.edges.len() && then[f.0 as int][t.0 as int] is Some implies then[f.0 as int][t.0 as int]->0
                == leads_to(s, f, t) by {
                if f.0 == k {
                    assert(f == from);
                    if t.0 != edge.0 && rank[t.0 as int] >= rank[edge.0 as int] {
                        assert(row[t.0 as int] == start[t.0 as int]);
                        assert(paths[f.0 as int][t.0 as int] == start[t.0 as int]);
                    } else {
                        assert(row[t.0 as int] is Some);
                    }
                } else {
                    assert(then[f.0 as int] == paths[f.0 as int]);
                    assert(paths[f.0 as int][t.0 as int] is Some);
                }
            }
            let more = if found {
                acc
            } else {
                acc.push(from)
            };
            lemma_strangers_right(s, then, edge, nodes, more, k + 1, rank);
            more
        } else {
            lemma_strangers_right(s, paths, edge, nodes, acc, k + 1, rank);
            acc
        };
        let (known, found) = strangers(s, paths, edge, nodes, acc, k);
        assert forall|e: EdgeId| #[trigger]
            found.contains(e) <==> acc.contains(e) || (k <= e.0 < s.edges.len() && makes_one(
                s,
                nodes,
                e.0 as int,
            ) && !leads_to(s, e, edge)) by {
            assert(next.contains(e) <==> acc.contains(e) || (e == from && next != acc)) by {
                if next != acc {
                    assert(next[acc.len() as int] == from);
                    if acc.contains(e) {
                        let j = choose|j: int| 0 <= j < acc.len() && acc[j] == e;
                        assert(next[j] == e);
                    }
                    if next.contains(e) && e != from {
                        let j = choose|j: int| 0 <= j < next.len() && next[j] == e;
                        assert(acc[j] == e);
                    }
                }
            }
            if e.0 == k {
                assert(e == from);
            }
            assert(next != acc ==> next.len() != acc.len());
        }
    }
}

spec fn is_at_or_behind(nodes: Seq<NodeId>, k: int, d: NodeId) -> bool {
    exists|j: int| k <= j < nodes.len() && #[trigger] nodes[j] == d
}

/// Whether from `t` to `u` just the inputs that `p` picks were noted.
spec fn are_noted(t: Search, u: Search, s: StateView, node: NodeId, p: spec_fn(NodeId) -> bool) -> bool {
    &&& u.paths == t.paths
    &&& u.missing == t.missing
    &&& u.generated.len() == t.generated.len()
    &&& forall|d: NodeId|
        d.0 < t.generated.len() ==> (#[trigger] u.generated[d.0 as int] <==> t.generated[d.0 as int]
            || p(d))
    &&& forall|x: Seq<char>| #[trigger]
        u.lines.contains(x) <==> t.lines.contains(x) || exists|d: NodeId| #[trigger]
            p(d) && x == told_as_missing(s, node, d)
}

proof fn lemma_noted_twice(
    t: Search,
    u: Search,
    w: Search,
    s: StateView,
    node: NodeId,
    p: spec_fn(NodeId) -> bool,
    q: spec_fn(NodeId) -> bool,
    r: spec_fn(NodeId) -> bool,
)
    requires
        are_noted(t, u, s, node, p),
        are_noted(u, w, s, node, q),
        forall|d: NodeId| #[trigger] r(d) <==> p(d) || q(d),
    ensures
        are_noted(t, w, s, node, r),
{
    assert forall|x: Seq<char>| #[trigger]
        w.lines.contains(x) <==> t.lines.contains(x) || exists|d: NodeId| #[trigger]
            r(d) && x == told_as_missing(s, node, d) by {
        assert(u.lines.contains(x) <==> t.lines.contains(x) || exists|d: NodeId| #[trigger]
            p(d) && x == told_as_missing(s, node, d));
        if exists|d: NodeId| #[trigger] p(d) && x == told_as_missing(s, node, d) {
            let d = choose|d: NodeId| #[trigger] p(d) && x == told_as_missing(s, node, d);
            assert(r(d));
        }
        if exists|d: NodeId| #[trigger] q(d) && x == told_as_missing(s, node, d) {
            let d = choose|d: NodeId| #[trigger] q(d) && x == told_as_missing(s, node, d);
            assert(r(d));
        }
        if exists|d: NodeId| #[trigger] r(d) && x == told_as_missing(s, node, d) {
            let d = choose|d: NodeId| #[trigger] r(d) && x == told_as_missing(s, node, d);
            assert(p(d) || q(d));
        }
    }
    assert forall|d: NodeId| d.0 < t.generated.len() implies (
    #[trigger] w.generated[d.0 as int] <==> t.generated[d.0 as int] || r(d)) by {
        assert(u.generated[d.0 as int] <==> t.generated[d.0 as int] || p(d));
        assert(r(d) <==> p(d) || q(d));
    }
}

spec fn made_behind(s: StateView, from: EdgeId, nodes: Seq<NodeId>, k: int) -> spec_fn(
    NodeId,
) -> bool {
    |d: NodeId| is_at_or_behind(nodes, k, d) && s.nodes[d.0 as int].in_edge == Some(from)
}

spec fn made_by_rest(s: StateView, edges: Seq<EdgeId>, nodes: Seq<NodeId>, k: int) -> spec_fn(
    NodeId,
) -> bool {
    |d: NodeId|
        nodes.contains(d) && exists|j: int|
            k <= j < edges.len() && s.nodes[d.0 as int].in_edge == Some(#[trigger] edges[j])
}

proof fn lemma_inputs_noted_right(
    t: Note,
    s: StateView,
    node: NodeId,
    from: EdgeId,
    nodes: Seq<NodeId>,
    k: int,
)
    requires
        0 <= k,
        nodes_below(nodes, s.nodes.len()),
        t.search.generated.len() == s.nodes.len(),
    ensures
        are_noted(
            t.search,
            inputs_noted(t, s, node, from, nodes, k).search,
            s,
            node,
            made_behind(s, from, nodes, k),
        ),
    decreases nodes.len() - k,
{
    let p = made_behind(s, from, nodes, k);
    if k < nodes.len() {
        let d = nodes[k];
        let rule = s.rule_of(from.0 as int).name;
        let one = |x: NodeId| x == d && s.nodes[d.0 as int].in_edge == Some(from);
        let u = if s.nodes[d.0 as int].in_edge == Some(from) {
            Note {
                search: Search {
                    generated: flagged(t.search.generated, d.0 as int),
                    rules: t.search.rules.insert(rule),
                    lines: t.search.lines.push(
                        "Missing dep: "@ + path_of(s, node) + " uses "@ + path_of(s, d)
                            + " (generated by "@ + rule + ")"@,
                    ),
                    ..t.search
                },
                rules: t.rules.insert(rule),
            }
        } else {
            t
        };
        assert(are_noted(t.search, u.search, s, node, one)) by {
            assert(one(d) <==> s.nodes[d.0 as int].in_edge == Some(from));
            assert forall|x: NodeId| x.0 < t.search.generated.len() implies (
            #[trigger] u.search.generated[x.0 as int] <==> t.search.generated[x.0 as int] || one(x)) by {
                if x.0 == d.0 {
                    assert(x == d);
                }
            }
            assert forall|x: Seq<char>| #[trigger]
                u.search.lines.contains(x) <==> t.search.lines.contains(x) || exists|y: NodeId| #[trigger]
                    one(y) && x == told_as_missing(s, node, y) by {
                if u != t {
                    assert(u.search.lines[t.search.lines.len() as int] == told_as_missing(s, node, d));
                    if t.search.lines.contains(x) {
                        let j = choose|j: int|
                            0 <= j < t.search.lines.len() && t.search.lines[j] == x;
                        assert(u.search.lines[j] == x);
                    }
                    if u.search.lines.contains(x) && x != told_as_missing(s, node, d) {
                        let j = choose|j: int|
                            0 <= j < u.search.lines.len() && u.search.lines[j] == x;
                        assert(t.search.lines[j] == x);
                    }
                    if x == told_as_missing(s, node, d) {
                        assert(one(d));
                    }
                }
            }
        }
        lemma_inputs_noted_right(u, s, node, from, nodes, k + 1);
        let q = made_behind(s, from, nodes, k + 1);
        assert forall|x: NodeId| #[trigger] p(x) <==> one(x) || q(x) by {
            if is_at_or_behind(nodes, k, x) && x != d {
                let j = choose|j: int| k <= j < nodes.len() && #[trigger] nodes[j] == x;
                assert(nodes[j] == x && j >= k + 1);
            }
            if x == d {
                assert(nodes[k] == x);
            }
            if is_at_or_behind(nodes, k + 1, x) {
                let j = choose|j: int| k + 1 <= j < nodes.len() && #[trigger] nodes[j] == x;
                assert(nodes[j] == x && j >= k);
            }
        }
        lemma_noted_twice(
            t.search,
            u.search,
            inputs_noted(t, s, node, from, nodes, k).search,
            s,
            node,
            one,
            q,
            p,
        );
    } else {
        assert forall|d: NodeId| !#[trigger] p(d) by {}
    }
}

proof fn lemma_strangers_noted_right(
    t: Note,
    s: StateView,
    node: NodeId,
    edges: Seq<EdgeId>,
    nodes: Seq<NodeId>,
    k: int,
)
    requires
        0 <= k,
        nodes_below(nodes, s.nodes.len()),
        t.search.generated.len() == s.nodes.len(),
    ensures
        are_noted(
            t.search,
            strangers_noted(t, s, node, edges, nodes, k).search,
            s,
            node,
            made_by_rest(s, edges, nodes, k),
        ),
    decreases edges.len() - k,
{
    let r = made_by_rest(s, edges, nodes, k);
    if k < edges.len() {
        let u = inputs_noted(t, s, node, edges[k], nodes, 0);
        lemma_inputs_noted_right(t, s, node, edges[k], nodes, 0);
        lemma_strangers_noted_right(u, s, node, edges, nodes, k + 1);
        let p = made_behind(s, edges[k], nodes, 0);
        let q = made_by_rest(s, edges, nodes, k + 1);
        assert forall|d: NodeId| #[trigger] r(d) <==> p(d) || q(d) by {
            assert(is_at_or_behind(nodes, 0, d) <==> nodes.contains(d));
            if r(d) {
                let j = choose|j: int|
                    k <= j < edges.len() && s.nodes[d.0 as int].in_edge == Some(#[trigger] edges[j]);
                if j > k {
                    assert(k + 1 <= j && s.nodes[d.0 as int].in_edge == Some(edges[j]));
                }
            }
            if q(d) {
                let j = choose|j: int|
                    k + 1 <= j < edges.len() && s.nodes[d.0 as int].in_edge == Some(
                        #[trigger] edges[j],
                    );
                assert(k <= j && s.nodes[d.0 as int].in_edge == Some(edges[j]));
            }
        }
        lemma_noted_twice(
            t.search,
            u.search,
            strangers_noted(t, s, node, edges, nodes, k).search,
            s,
            node,
            p,
            q,
            r,
        );
    } else {
        assert forall|d: NodeId| !#[trigger] r(d) by {}
    }
}

/// Just the inputs that something makes from which no declared path leads to the
/// command are found: in a graph without cycles, each such file among `nodes`, and
/// no other, is told of and counted as generated, and `node` is counted as missing
/// an input just where there is one. What is known of paths stays right.
pub proof fn law_undeclared_inputs_are_found(
    c: Search,
    s: StateView,
    node: NodeId,
    edge: EdgeId,
    nodes: Seq<NodeId>,
    rank: Seq<nat>,
)
    requires
        s.wf(),
        s.edges.len() <= usize::MAX,
        crate::plan::users_rank_higher(s, rank),
        knows_right_paths(s, c.paths),
        edge.0 < s.edges.len(),
        node.0 < s.nodes.len(),
        nodes_below(nodes, s.nodes.len()),
        c.generated.len() == s.nodes.len(),
        c.missing.len() == s.nodes.len(),
        !holds_manifest(s, nodes),
    ensures
        ({
            let f = deps_checked(c, s, node, edge, nodes);
            &&& knows_right_paths(s, f.paths)
            &&& f.seen == c.seen
            &&& forall|d: NodeId|
                d.0 < s.nodes.len() ==> (#[trigger] f.generated[d.0 as int] <==> c.generated[d.0 as int]
                    || is_undeclared(s, edge, nodes, d))
            &&& forall|x: Seq<char>| #[trigger]
                f.lines.contains(x) <==> c.lines.contains(x) || exists|d: NodeId| #[trigger]
                    is_undeclared(s, edge, nodes, d) && x == told_as_missing(s, node, d)
            &&& f.missing[node.0 as int] <==> c.missing[node.0 as int] || exists|d: NodeId| #[trigger]
                is_undeclared(s, edge, nodes, d)
            &&& forall|n: int|
                0 <= n < s.nodes.len() && n != node.0 ==> #[trigger] f.missing[n] == c.missing[n]
        }),
{
    lemma_strangers_right(s, c.paths, edge, nodes, Seq::empty(), 0, rank);
    let (paths, edges) = strangers(s, c.paths, edge, nodes, Seq::empty(), 0);
    let known = Search { paths, ..c };
    let t = Note { search: known, rules: Set::empty() };
    let u = strangers_noted(t, s, node, edges, nodes, 0);
    lemma_strangers_noted_right(t, s, node, edges, nodes, 0);
    lemma_seen_stays(t, s, node, edges, nodes, 0);
    let p = made_by_rest(s, edges, nodes, 0);
    assert forall|d: NodeId| #[trigger] p(d) <==> is_undeclared(s, edge, nodes, d) by {
        if nodes.contains(d) {
            let i = choose|i: int| 0 <= i < nodes.len() && nodes[i] == d;
            assert(nodes[i] == d);
            assert(s.node_ok(s.nodes[d.0 as int]));
            if let Some(e) = s.nodes[d.0 as int].in_edge {
                assert(e == EdgeId(e.0));
                assert(makes_one(s, nodes, e.0 as int));
                assert(edges.contains(e) <==> !leads_to(s, e, edge)) by {
                    assert(!Seq::<EdgeId>::empty().contains(e));
                }
                if edges.contains(e) {
                    let j = choose|j: int| 0 <= j < edges.len() && edges[j] == e;
                    assert(s.nodes[d.0 as int].in_edge == Some(edges[j]));
                }
            }
        }
    }
    if edges.len() == 0 {
        assert forall|d: NodeId| !#[trigger] is_undeclared(s, edge, nodes, d) by {
            assert(!p(d));
        }
    } else {
        let e = edges[0];
        assert(edges.contains(e));
        assert(!Seq::<EdgeId>::empty().contains(e));
        let i = choose|i: int|
            0 <= i < nodes.len() && s.nodes[(#[trigger] nodes[i]).0 as int].in_edge == Some(
                EdgeId(e.0 as int as usize),
            );
        assert(EdgeId(e.0 as int as usize) == e);
        assert(nodes.contains(nodes[i]));
        assert(is_undeclared(s, edge, nodes, nodes[i]));
        let f = deps_checked(c, s, node, edge, nodes);
        assert(f.lines == u.search.lines);
        assert(f.generated == u.search.generated);
        assert forall|x: Seq<char>| #[trigger]
            f.lines.contains(x) <==> c.lines.contains(x) || exists|d: NodeId| #[trigger]
                is_undeclared(s, edge, nodes, d) && x == told_as_missing(s, node, d) by {
            assert(u.search.lines.contains(x) <==> c.lines.contains(x) || exists|d: NodeId| #[trigger]
                p(d) && x == told_as_missing(s, node, d));
            if exists|d: NodeId| #[trigger]
                is_undeclared(s, edge, nodes, d) && x == told_as_missing(s, node, d) {
                let d = choose|d: NodeId| #[trigger]
                    is_undeclared(s, edge, nodes, d) && x == told_as_missing(s, node, d);
                assert(p(d));
            }
        }
        assert forall|d: NodeId| d.0 < s.nodes.len() implies (
        #[trigger] f.generated[d.0 as int] <==> c.generated[d.0 as int] || is_undeclared(
            s,
            edge,
            nodes,
            d,
        )) by {
            assert(p(d) <==> is_undeclared(s, edge, nodes, d));
        }
    }
}

proof fn lemma_seen_stays(
    t: Note,
    s: StateView,
    node: NodeId,
    edges: Seq<EdgeId>,
    nodes: Seq<NodeId>,
    k: int,
)
    requires
        0 <= k,
    ensures
        strangers_noted(t, s, node, edges, nodes, k).search.seen == t.search.seen,
    decreases edges.len() - k,
{
    if k < edges.len() {
        lemma_seen_stays_for_inputs(t, s, node, edges[k], nodes, 0);
        lemma_seen_stays(inputs_noted(t, s, node, edges[k], nodes, 0), s, node, edges, nodes, k + 1);
    }
}

proof fn lemma_seen_stays_for_inputs(
    t: Note,
    s: StateView,
    node: NodeId,
    from: EdgeId,
    nodes: Seq<NodeId>,
    k: int,
)
    requires
        0 <= k,
    ensures
        inputs_noted(t, s, node, from, nodes, k).search.seen == t.search.seen,
    decreases nodes.len() - k,
{
    if k < nodes.len() {
        let d = nodes[k];
        let rule = s.rule_of(from.0 as int).name;
        let noted = if s.nodes[d.0 as int].in_edge == Some(from) {
            Note {
                search: Search {
                    generated: flagged(t.search.generated, d.0 as int),
                    rules: t.search.rules.insert(rule),
                    lines: t.search.lines.push(
                        "Missing dep: "@ + path_of(s, node) + " uses "@ + path_of(s, d)
                            + " (generated by "@ + rule + ")"@,
                    ),
                    ..t.search
                },
                rules: t.rules.insert(rule),
            }
        } else {
            t
        };
        lemma_seen_stays_for_inputs(noted, s, node, from, nodes, k + 1);
    }
}

} // verus!
