//! Walking the graph (`-t graph`, `-t commands`, `-t inputs`).

use vstd::prelude::*;
use vstd::string::*;

use crate::disk::DiskInterface;
use crate::dyndep::load_all_dyndeps;
use crate::escape::escaped_for_host;
use crate::state::{EdgeId, NodeId, State};
use crate::text::{chars_of, precedes, push_decimal};

verus! {

use crate::dyndep::{all_loaded, marks_kept};
use crate::escape::shell_word;
use crate::eval::phony_rule;
use crate::plan::{lemma_unseen, unseen};
use crate::state::{nodes_below, path_of, EdgeView, Escape, StateView};
use crate::text::{
    decimal, lemma_text_less_irreflexive, lemma_text_less_total, lemma_text_less_transitive,
    text_less, texts,
};
use crate::plan::is_needed_for;
use vstd::relations::{sorted_by, total_ordering};

/// A list of `n` times `false`.
pub open spec fn none_of(n: nat) -> Seq<bool> {
    Seq::new(n, |i: int| false)
}

pub(crate) fn none_seen(n: usize) -> (r: Vec<bool>)
    ensures
        r@ == none_of(n as nat),
{
    let mut v: Vec<bool> = Vec::new();
    while v.len() < n
        invariant
            v@.len() <= n,
            v@ =~= none_of(v@.len()),
        decreases n - v@.len(),
    {
        v.push(false);
    }
    v
}

/// A path as a label.
pub open spec fn label(path: Seq<char>) -> Seq<char> {
    Seq::new(
        path.len(),
        |i: int|
            if path[i] == '\\' {
                '/'
            } else {
                path[i]
            },
    )
}

/// `acc` with the arrows to the outputs from the `k`-th on behind it.
pub open spec fn with_arrows_out(acc: Seq<char>, edge: EdgeId, outputs: Seq<NodeId>, k: int) -> Seq<
    char,
>
    decreases outputs.len() - k,
{
    if 0 <= k < outputs.len() {
        with_arrows_out(
            acc + "\"e"@ + decimal(edge.0 as nat) + "\" -> \"n"@ + decimal(outputs[k].0 as nat)
                + "\"\n"@,
            edge,
            outputs,
            k + 1,
        )
    } else {
        acc
    }
}

/// `acc` with the arrows from the inputs from the `k`-th on behind it.
pub open spec fn with_arrows_in(acc: Seq<char>, edge: EdgeId, e: EdgeView, k: int) -> Seq<char>
    decreases e.inputs.len() - k,
{
    if 0 <= k < e.inputs.len() {
        with_arrows_in(
            acc + "\"n"@ + decimal(e.inputs[k].0 as nat) + "\" -> \"e"@ + decimal(edge.0 as nat)
                + (if e.order_only(k) {
                "\" [arrowhead=none style=dotted]\n"@
            } else {
                "\" [arrowhead=none]\n"@
            }),
            edge,
            e,
            k + 1,
        )
    } else {
        acc
    }
}

/// `acc` with the drawing of an edge behind it.
pub open spec fn with_edge_drawn(acc: Seq<char>, s: StateView, edge: EdgeId) -> Seq<char> {
    let e = s.edges[edge.0 as int];
    let rule = s.rule_of(edge.0 as int).name;
    if e.inputs.len() == 1 && e.outputs.len() == 1 {
        acc + "\"n"@ + decimal(e.inputs[0].0 as nat) + "\" -> \"n"@ + decimal(
            e.outputs[0].0 as nat,
        ) + "\" [label=\" "@ + rule + "\"]\n"@
    } else {
        with_arrows_in(
            with_arrows_out(
                acc + "\"e"@ + decimal(edge.0 as nat) + "\" [label=\""@ + rule
                    + "\", shape=ellipse]\n"@,
                edge,
                e.outputs,
                0,
            ),
            edge,
            e,
            0,
        )
    }
}

/// `acc` with the drawing of a node behind it.
pub open spec fn with_node_drawn(acc: Seq<char>, s: StateView, node: NodeId) -> Seq<char> {
    acc + "\"n"@ + decimal(node.0 as nat) + "\" [label=\""@ + label(path_of(s, node)) + "\"]\n"@
}

/// `acc` with the drawing of what can be reached from the nodes on the stack
/// behind it, except the nodes and edges that have been drawn.
pub open spec fn with_drawn(
    acc: Seq<char>,
    s: StateView,
    nodes: Seq<bool>,
    edges: Seq<bool>,
    stack: Seq<NodeId>,
) -> Seq<char>
    decreases unseen(nodes), stack.len(),
{
    if stack.len() == 0 {
        acc
    } else {
        let node = stack.last();
        let n = node.0 as int;
        let rest = stack.drop_last();
        if n >= nodes.len() || nodes[n] {
            with_drawn(acc, s, nodes, edges, rest)
        } else {
            proof {
                lemma_unseen(nodes, n);
            }
            let drawn = with_node_drawn(acc, s, node);
            let seen = nodes.update(n, true);
            match s.nodes[n].in_edge {
                None => with_drawn(drawn, s, seen, edges, rest),
                Some(e) => if edges[e.0 as int] {
                    with_drawn(drawn, s, seen, edges, rest)
                } else {
                    with_drawn(
                        with_edge_drawn(drawn, s, e),
                        s,
                        seen,
                        edges.update(e.0 as int, true),
                        rest + s.edges[e.0 as int].inputs,
                    )
                },
            }
        }
    }
}

/// The heading of a drawing.
pub open spec fn drawing_heading() -> Seq<char> {
    "digraph ninja {\nrankdir=\"LR\"\nnode [fontsize=10, shape=box, height=0.25]\nedge [fontsize=10]\n"@
}

/// The drawing of what can be reached from the targets.
pub open spec fn drawing(s: StateView, targets: Seq<NodeId>) -> Seq<char> {
    with_drawn(
        drawing_heading(),
        s,
        none_of(s.nodes.len()),
        none_of(s.edges.len()),
        targets.reverse(),
    ) + "}\n"@
}

fn push_label(out: &mut String, path: &str)
    ensures
        final(out)@ == old(out)@ + label(path@),
{
    let v = chars_of(path);
    let mut k: usize = 0;
    assert(out@ =~= old(out)@ + label(path@).take(0));
    while k < v.len()
        invariant
            k <= v@.len(),
            v@ == path@,
            out@ == old(out)@ + label(path@).take(k as int),
        decreases v@.len() - k,
    {
        out.push(
            if v[k] == '\\' {
                '/'
            } else {
                v[k]
            },
        );
        k += 1;
        assert(out@ =~= old(out)@ + label(path@).take(k as int));
    }
    assert(label(path@).take(k as int) =~= label(path@));
}

fn push_arrows_out(out: &mut String, edge: EdgeId, outputs: &[NodeId])
    ensures
        final(out)@ == with_arrows_out(old(out)@, edge, outputs@, 0),
{
    let ghost want = with_arrows_out(out@, edge, outputs@, 0);
    let mut k: usize = 0;
    while k < outputs.len()
        invariant
            k <= outputs@.len(),
            with_arrows_out(out@, edge, outputs@, k as int) == want,
        decreases outputs@.len() - k,
    {
        out.append("\"e");
        push_decimal(out, edge.0 as u128);
        out.append("\" -> \"n");
        push_decimal(out, outputs[k].0 as u128);
        out.append("\"\n");
        k += 1;
    }
}

fn push_edge_drawn(out: &mut String, state: &State, edge: EdgeId)
    requires
        state.wf(),
        edge.0 < state@.edges.len(),
    ensures
        final(out)@ == with_edge_drawn(old(out)@, state@, edge),
{
    let e = state.edge(edge);
    let rule = state.edge_rule_name(edge);
    let inputs = e.inputs();
    if inputs.len() == 1 && e.outputs().len() == 1 {
        out.append("\"n");
        push_decimal(out, inputs[0].0 as u128);
        out.append("\" -> \"n");
        push_decimal(out, e.outputs()[0].0 as u128);
        out.append("\" [label=\" ");
        out.append(rule);
        out.append("\"]\n");
        return;
    }
    out.append("\"e");
    push_decimal(out, edge.0 as u128);
    out.append("\" [label=\"");
    out.append(rule);
    out.append("\", shape=ellipse]\n");
    push_arrows_out(out, edge, e.outputs());
    let ghost want = with_arrows_in(out@, edge, e@, 0);
    let mut k: usize = 0;
    while k < inputs.len()
        invariant
            k <= inputs@.len(),
            inputs@ == e@.inputs,
            with_arrows_in(out@, edge, e@, k as int) == want,
        decreases inputs@.len() - k,
    {
        out.append("\"n");
        push_decimal(out, inputs[k].0 as u128);
        out.append("\" -> \"e");
        push_decimal(out, edge.0 as u128);
        out.append(
            if inputs.len() - k <= e.order_only_deps() {
                "\" [arrowhead=none style=dotted]\n"
            } else {
                "\" [arrowhead=none]\n"
            },
        );
        k += 1;
    }
}

pub(crate) fn push_all(stack: &mut Vec<NodeId>, nodes: &[NodeId])
    ensures
        final(stack)@ == old(stack)@ + nodes@,
{
    let mut k: usize = 0;
    assert(stack@ =~= old(stack)@ + nodes@.take(0));
    while k < nodes.len()
        invariant
            k <= nodes@.len(),
            stack@ == old(stack)@ + nodes@.take(k as int),
        decreases nodes@.len() - k,
    {
        stack.push(nodes[k]);
        k += 1;
        assert(stack@ =~= old(stack)@ + nodes@.take(k as int));
    }
    assert(nodes@.take(k as int) =~= nodes@);
}

fn reversed(nodes: &[NodeId]) -> (r: Vec<NodeId>)
    ensures
        r@ == nodes@.reverse(),
{
    let mut r: Vec<NodeId> = Vec::new();
    let mut k: usize = nodes.len();
    while k > 0
        invariant
            k <= nodes@.len(),
            r@ =~= nodes@.skip(k as int).reverse(),
        decreases k,
    {
        k -= 1;
        r.push(nodes[k]);
    }
    assert(nodes@.skip(0) =~= nodes@);
    r
}

fn draw(state: &State, targets: &[NodeId]) -> (r: String)
    requires
        state.wf(),
        nodes_below(targets@, state@.nodes.len()),
    ensures
        r@ == drawing(state@, targets@),
{
    let ghost s = state@;
    let mut out: String =
        "digraph ninja {\nrankdir=\"LR\"\nnode [fontsize=10, shape=box, height=0.25]\nedge [fontsize=10]\n".to_owned();
    let mut nodes = none_seen(state.node_count());
    let mut edges = none_seen(state.edge_count());
    let mut stack = reversed(targets);
    let ghost want = with_drawn(out@, s, nodes@, edges@, stack@);
    while stack.len() > 0
        invariant
            s == state@,
            state.wf(),
            nodes@.len() == s.nodes.len(),
            edges@.len() == s.edges.len(),
            nodes_below(stack@, s.nodes.len()),
            with_drawn(out@, s, nodes@, edges@, stack@) == want,
        decreases unseen(nodes@), stack@.len(),
    {
        let ghost stack0 = stack@;
        let ghost nodes0 = nodes@;
        let node = match stack.pop() {
            Some(n) => n,
            None => NodeId(0),
        };
        assert(node == stack0.last() && stack@ == stack0.drop_last());
        if !nodes[node.0] {
            proof {
                lemma_unseen(nodes0, node.0 as int);
                state.lemma_wf();
                assert(s.node_ok(s.nodes[node.0 as int]));
            }
            nodes.set(node.0, true);
            out.append("\"n");
            push_decimal(&mut out, node.0 as u128);
            out.append("\" [label=\"");
            push_label(&mut out, state.node(node).path());
            out.append("\"]\n");
            if let Some(edge) = state.node(node).in_edge() {
                proof {
                    assert(s.edge_ok(s.edges[edge.0 as int]));
                }
                if !edges[edge.0] {
                    edges.set(edge.0, true);
                    push_edge_drawn(&mut out, state, edge);
                    push_all(&mut stack, state.edge(edge).inputs());
                }
            }
        }
    }
    out.append("}\n");
    out
}

/// `-t graph`: a graphviz description of the graph reachable from `targets`.
pub fn graph<D: DiskInterface>(state: &mut State, disk: &D, targets: &[NodeId]) -> (r: String)
    requires
        old(state).wf(),
        nodes_below(targets@, old(state)@.nodes.len()),
    ensures
        final(state).wf(),
        marks_kept(old(state)@, final(state)@),
        final(state)@ == all_loaded::<D>(disk.model(), old(state)@),
        r@ == drawing(final(state)@, targets@),
{
    load_all_dyndeps(state, disk);
    draw(state, targets)
}

/// Text together with the edges that it covers.
pub struct Told {
    pub text: Seq<char>,
    pub seen: Seq<bool>,
}

/// The commands needed for the outputs of `edge`, each behind those that it
/// needs itself, behind what has been told. At most `depth` edges can be
/// nested.
pub open spec fn commands_told(t: Told, s: StateView, edge: EdgeId, single: bool, depth: nat) -> Told
    decreases depth, 1nat, 0nat,
{
    let e = edge.0 as int;
    let seen = Told { seen: t.seen.update(e, true), ..t };
    let first = if single {
        seen
    } else {
        input_commands_told(seen, s, s.edges[e].inputs, 0, depth)
    };
    if s.edges[e].rule == phony_rule() {
        first
    } else {
        Told { text: first.text + s.binding(e, "command"@, Escape::Shell) + "\n"@, ..first }
    }
}

/// The same for the producers of the nodes from the `k`-th on, except those
/// that are covered.
pub open spec fn input_commands_told(t: Told, s: StateView, nodes: Seq<NodeId>, k: int, depth: nat) -> Told
    decreases depth, 0nat, nodes.len() - k,
{
    if 0 <= k < nodes.len() {
        let told = match s.nodes[nodes[k].0 as int].in_edge {
            None => t,
            Some(e) => if t.seen[e.0 as int] || depth == 0 {
                t
            } else {
                commands_told(t, s, e, false, (depth - 1) as nat)
            },
        };
        input_commands_told(told, s, nodes, k + 1, depth)
    } else {
        t
    }
}

/// The same for the targets from the `k`-th on.
pub open spec fn target_commands_told(
    t: Told,
    s: StateView,
    targets: Seq<NodeId>,
    single: bool,
    k: int,
) -> Told
    decreases targets.len() - k,
{
    if 0 <= k < targets.len() {
        let told = match s.nodes[targets[k].0 as int].in_edge {
            None => t,
            Some(e) => if t.seen[e.0 as int] {
                t
            } else {
                commands_told(t, s, e, single, s.edges.len())
            },
        };
        target_commands_told(told, s, targets, single, k + 1)
    } else {
        t
    }
}

proof fn lemma_unseen_at_most(v: Seq<bool>)
    ensures
        unseen(v) <= v.len(),
    decreases v.len(),
{
    if v.len() > 0 {
        lemma_unseen_at_most(v.drop_last());
    }
}

fn print_commands(
    state: &State,
    edge: EdgeId,
    seen: &mut Vec<bool>,
    single: bool,
    out: &mut String,
    Ghost(depth): Ghost<nat>,
)
    requires
        state.wf(),
        edge.0 < state@.edges.len(),
        old(seen)@.len() == state@.edges.len(),
        !old(seen)@[edge.0 as int],
        unseen(old(seen)@) <= depth + 1,
    ensures
        final(seen)@.len() == old(seen)@.len(),
        unseen(final(seen)@) < unseen(old(seen)@),
        (Told { text: final(out)@, seen: final(seen)@ }) == commands_told(
            Told { text: old(out)@, seen: old(seen)@ },
            state@,
            edge,
            single,
            depth,
        ),
    decreases depth, 1nat,
{
    proof {
        lemma_unseen(seen@, edge.0 as int);
    }
    seen.set(edge.0, true);
    if !single {
        print_input_commands(state, edge, seen, out, Ghost(depth));
    }
    if !state.edge_is_phony(edge) {
        out.append(state.edge_command(edge).as_str());
        out.append("\n");
    }
}

fn print_input_commands(
    state: &State,
    edge: EdgeId,
    seen: &mut Vec<bool>,
    out: &mut String,
    Ghost(depth): Ghost<nat>,
)
    requires
        state.wf(),
        edge.0 < state@.edges.len(),
        old(seen)@.len() == state@.edges.len(),
        unseen(old(seen)@) <= depth,
    ensures
        final(seen)@.len() == old(seen)@.len(),
        unseen(final(seen)@) <= unseen(old(seen)@),
        (Told { text: final(out)@, seen: final(seen)@ }) == input_commands_told(
            Told { text: old(out)@, seen: old(seen)@ },
            state@,
            state@.edges[edge.0 as int].inputs,
            0,
            depth,
        ),
    decreases depth, 0nat,
{
    let inputs = state.edge(edge).inputs();
    let ghost u0 = unseen(seen@);
    let ghost want = input_commands_told(
        Told { text: out@, seen: seen@ },
        state@,
        inputs@,
        0,
        depth,
    );
    proof {
        state.lemma_wf();
        assert(state@.edge_ok(state@.edges[edge.0 as int]));
    }
    let mut k: usize = 0;
    while k < inputs.len()
        invariant
            k <= inputs@.len(),
            state.wf(),
            nodes_below(inputs@, state@.nodes.len()),
            seen@.len() == state@.edges.len(),
            unseen(seen@) <= u0 <= depth,
            input_commands_told(
                Told { text: out@, seen: seen@ },
                state@,
                inputs@,
                k as int,
                depth,
            ) == want,
        decreases inputs@.len() - k,
    {
        proof {
            state.lemma_wf();
            assert(state@.node_ok(state@.nodes[inputs@[k as int].0 as int]));
        }
        if let Some(producer) = state.node(inputs[k]).in_edge() {
            if !seen[producer.0] {
                proof {
                    lemma_unseen(seen@, producer.0 as int);
                }
                print_commands(state, producer, seen, false, out, Ghost((depth - 1) as nat));
            }
        }
        k += 1;
    }
}

/// `-t commands`: the commands needed to build `targets`.
///
/// With `single`, only each target's own command is printed, not the whole
/// chain.
pub fn commands(state: &State, targets: &[NodeId], single: bool) -> (r: String)
    requires
        state.wf(),
        nodes_below(targets@, state@.nodes.len()),
    ensures
        r@ == target_commands_told(
            (Told { text: Seq::empty(), seen: none_of(state@.edges.len()) }),
            state@,
            targets@,
            single,
            0,
        ).text,
{
    let mut out = String::new();
    assert(out@ =~= Seq::empty());
    let mut seen = none_seen(state.edge_count());
    let ghost want = target_commands_told(
        Told { text: out@, seen: seen@ },
        state@,
        targets@,
        single,
        0,
    );
    let mut k: usize = 0;
    while k < targets.len()
        invariant
            k <= targets@.len(),
            state.wf(),
            nodes_below(targets@, state@.nodes.len()),
            seen@.len() == state@.edges.len(),
            target_commands_told(
                Told { text: out@, seen: seen@ },
                state@,
                targets@,
                single,
                k as int,
            ) == want,
        decreases targets@.len() - k,
    {
        proof {
            state.lemma_wf();
            assert(state@.node_ok(state@.nodes[targets@[k as int].0 as int]));
            lemma_unseen_at_most(seen@);
        }
        if let Some(edge) = state.node(targets[k]).in_edge() {
            if !seen[edge.0] {
                print_commands(
                    state,
                    edge,
                    &mut seen,
                    single,
                    &mut out,
                    Ghost(state@.edges.len()),
                );
            }
        }
        k += 1;
    }
    out
}

/// Options for [`inputs`].
#[derive(Clone, Copy, Debug, PartialEq, Eq, Structural, Default)]
pub struct InputsOptions {
    /// Terminate each path with NUL instead of a newline.
    pub print0: bool,
    /// Shell-escape each path (on by default in ninja).
    pub shell_escape: bool,
    /// Keep dependency order instead of sorting alphabetically.
    pub dependency_order: bool,
}

/// A collector by what it holds.
#[verifier::ext_equal]
pub struct CollectorView {
    /// The inputs, dependencies before dependents.
    pub inputs: Seq<NodeId>,
    /// Which nodes have been visited.
    pub visited: Seq<bool>,
}

/// A list with `false` behind it, so that it has at least `n` entries.
pub open spec fn padded(v: Seq<bool>, n: nat) -> Seq<bool> {
    Seq::new(
        if v.len() < n {
            n
        } else {
            v.len()
        },
        |i: int| i < v.len() && v[i],
    )
}

/// Whether a node is the output of a phony edge.
pub open spec fn is_phony_output(s: StateView, node: NodeId) -> bool {
    s.nodes[node.0 as int].in_edge matches Some(e) && s.edges[e.0 as int].rule == phony_rule()
}

/// The collector after what `node` is built from has been visited. At most
/// `depth` nodes can be nested.
pub open spec fn node_visited(c: CollectorView, s: StateView, node: NodeId, depth: nat) -> CollectorView
    decreases depth, 1nat, 0nat,
{
    match s.nodes[node.0 as int].in_edge {
        None => c,
        Some(e) => inputs_visited(c, s, s.edges[e.0 as int].inputs, 0, depth),
    }
}

/// The same for the nodes from the `k`-th on and for what they are built from.
pub open spec fn inputs_visited(c: CollectorView, s: StateView, nodes: Seq<NodeId>, k: int, depth: nat) -> CollectorView
    decreases depth, 0nat, nodes.len() - k,
{
    if 0 <= k < nodes.len() {
        let n = nodes[k].0 as int;
        let d = if c.visited[n] || depth == 0 {
            c
        } else {
            let below = node_visited(
                CollectorView { visited: c.visited.update(n, true), ..c },
                s,
                nodes[k],
                (depth - 1) as nat,
            );
            if is_phony_output(s, nodes[k]) {
                below
            } else {
                CollectorView { inputs: below.inputs.push(nodes[k]), ..below }
            }
        };
        inputs_visited(d, s, nodes, k + 1, depth)
    } else {
        c
    }
}

/// The collector after the nodes from the `k`-th on have been visited.
pub open spec fn all_visited(c: CollectorView, s: StateView, nodes: Seq<NodeId>, k: int) -> CollectorView
    decreases nodes.len() - k,
{
    if 0 <= k < nodes.len() {
        all_visited(c.visit_of(s, nodes[k]), s, nodes, k + 1)
    } else {
        c
    }
}

/// A collector that has not visited anything.
pub open spec fn nothing_visited() -> CollectorView {
    CollectorView { inputs: Seq::empty(), visited: Seq::empty() }
}

impl CollectorView {
    /// The collector after `node` has been visited as a root.
    pub open spec fn visit_of(self, s: StateView, node: NodeId) -> CollectorView {
        node_visited(
            CollectorView { visited: padded(self.visited, s.nodes.len()), ..self },
            s,
            node,
            padded(self.visited, s.nodes.len()).len(),
        )
    }
}

/// Collects the transitive inputs of a set of nodes, skipping the outputs of
/// phony edges but following through them.
pub struct InputsCollector {
    inputs: Vec<NodeId>,
    visited: Vec<bool>,
}

impl View for InputsCollector {
    type V = CollectorView;

    closed spec fn view(&self) -> CollectorView {
        CollectorView { inputs: self.inputs@, visited: self.visited@ }
    }
}

/// The paths of nodes as they are to be printed.
pub open spec fn printed_paths(s: StateView, nodes: Seq<NodeId>, shell_escape: bool) -> Seq<Seq<char>> {
    Seq::new(
        nodes.len(),
        |i: int|
            if shell_escape {
                shell_word(path_of(s, nodes[i]))
            } else {
                path_of(s, nodes[i])
            },
    )
}

impl Default for InputsCollector {
    fn default() -> (r: InputsCollector)
        ensures
            r@ == nothing_visited(),
    {
        let r = InputsCollector { inputs: Vec::new(), visited: Vec::new() };
        assert(r@ =~= nothing_visited());
        r
    }
}

impl InputsCollector {
    /// Visit one root node.
    pub fn visit(&mut self, state: &State, node: NodeId)
        requires
            state.wf(),
            node.0 < state@.nodes.len(),
            nodes_below(old(self)@.inputs, state@.nodes.len()),
        ensures
            final(self)@ == old(self)@.visit_of(state@, node),
            nodes_below(final(self)@.inputs, state@.nodes.len()),
    {
        let ghost v0 = self.visited@;
        let ghost c0 = self@;
        let n: usize = state.node_count();
        while self.visited.len() < n
            invariant
                n == state@.nodes.len(),
                v0.len() <= self.visited@.len(),
                self.visited@.len() <= n || self.visited@.len() == v0.len(),
                self.inputs@ == c0.inputs,
                forall|i: int| 0 <= i < v0.len() ==> self.visited@[i] == v0[i],
                forall|i: int| v0.len() <= i < self.visited@.len() ==> !self.visited@[i],
            decreases n - self.visited@.len(),
        {
            self.visited.push(false);
        }
        proof {
            assert(self.visited@ =~= padded(v0, state@.nodes.len()));
            lemma_unseen_at_most(self.visited@);
        }
        self.visit_node(state, node, Ghost(self.visited@.len()));
    }

    fn visit_node(&mut self, state: &State, node: NodeId, Ghost(depth): Ghost<nat>)
        requires
            state.wf(),
            node.0 < state@.nodes.len(),
            state@.nodes.len() <= old(self)@.visited.len(),
            unseen(old(self)@.visited) <= depth,
            nodes_below(old(self)@.inputs, state@.nodes.len()),
        ensures
            final(self)@ == node_visited(old(self)@, state@, node, depth),
            final(self)@.visited.len() == old(self)@.visited.len(),
            unseen(final(self)@.visited) <= unseen(old(self)@.visited),
            nodes_below(final(self)@.inputs, state@.nodes.len()),
        decreases depth, 1nat,
    {
        proof {
            state.lemma_wf();
            assert(state@.node_ok(state@.nodes[node.0 as int]));
        }
        if let Some(edge) = state.node(node).in_edge() {
            self.visit_inputs(state, edge, Ghost(depth));
        }
    }

    fn visit_inputs(&mut self, state: &State, edge: EdgeId, Ghost(depth): Ghost<nat>)
        requires
            state.wf(),
            edge.0 < state@.edges.len(),
            state@.nodes.len() <= old(self)@.visited.len(),
            unseen(old(self)@.visited) <= depth,
            nodes_below(old(self)@.inputs, state@.nodes.len()),
        ensures
            final(self)@ == inputs_visited(
                old(self)@,
                state@,
                state@.edges[edge.0 as int].inputs,
                0,
                depth,
            ),
            final(self)@.visited.len() == old(self)@.visited.len(),
            unseen(final(self)@.visited) <= unseen(old(self)@.visited),
            nodes_below(final(self)@.inputs, state@.nodes.len()),
        decreases depth, 0nat,
    {
        let inputs = state.edge(edge).inputs();
        let ghost len = self@.visited.len();
        let ghost u0 = unseen(self@.visited);
        let ghost want = inputs_visited(self@, state@, inputs@, 0, depth);
        proof {
            state.lemma_wf();
            assert(state@.edge_ok(state@.edges[edge.0 as int]));
        }
        let mut k: usize = 0;
        while k < inputs.len()
            invariant
                k <= inputs@.len(),
                state.wf(),
                nodes_below(inputs@, state@.nodes.len()),
                nodes_below(self@.inputs, state@.nodes.len()),
                self@.visited.len() == len,
                state@.nodes.len() <= len,
                unseen(self@.visited) <= u0 <= depth,
                inputs_visited(self@, state@, inputs@, k as int, depth) == want,
            decreases inputs@.len() - k,
        {
            let input = inputs[k];
            if !self.visited[input.0] {
                let ghost c0 = self@;
                proof {
                    lemma_unseen(self@.visited, input.0 as int);
                    state.lemma_wf();
                    assert(state@.node_ok(state@.nodes[input.0 as int]));
                }
                self.visited.set(input.0, true);
                assert(self@ == (CollectorView {
                    visited: c0.visited.update(input.0 as int, true),
                    ..c0
                }));
                self.visit_node(state, input, Ghost((depth - 1) as nat));
                let phony: bool = match state.node(input).in_edge() {
                    Some(e) => state.edge_is_phony(e),
                    None => false,
                };
                if !phony {
                    self.inputs.push(input);
                }
            }
            k += 1;
        }
    }

    /// The collected inputs, dependencies before dependents.
    pub fn inputs(&self) -> (r: &[NodeId])
        ensures
            r@ == self@.inputs,
    {
        self.inputs.as_slice()
    }

    /// The collected inputs as (optionally escaped) path strings.
    pub fn as_strings(&self, state: &State, shell_escape: bool) -> (r: Vec<String>)
        requires
            nodes_below(self@.inputs, state@.nodes.len()),
        ensures
            texts(r@) == printed_paths(state@, self@.inputs, shell_escape),
    {
        let ghost all = printed_paths(state@, self@.inputs, shell_escape);
        let mut v: Vec<String> = Vec::new();
        let mut k: usize = 0;
        while k < self.inputs.len()
            invariant
                k <= self.inputs@.len(),
                nodes_below(self@.inputs, state@.nodes.len()),
                all == printed_paths(state@, self@.inputs, shell_escape),
                texts(v@) =~= all.take(k as int),
            decreases self.inputs@.len() - k,
        {
            let path = state.node(self.inputs[k]).path_decanonicalized();
            let ghost had = texts(v@);
            let printed: String = if shell_escape {
                escaped_for_host(path.as_str())
            } else {
                path
            };
            assert(printed@ == all[k as int]);
            v.push(printed);
            k += 1;
            assert(texts(v@) =~= had.push(all[k - 1]));
        }
        assert(all.take(k as int) =~= all);
        v
    }
}

/// Whether `a` does not come behind `b` in alphabetical order.
pub open spec fn at_most() -> spec_fn(Seq<char>, Seq<char>) -> bool {
    |a: Seq<char>, b: Seq<char>| a == b || text_less(a, b)
}

proof fn lemma_at_most_orders()
    ensures
        total_ordering(at_most()),
{
    let r = at_most();
    assert forall|x: Seq<char>, y: Seq<char>| #[trigger] r(x, y) && #[trigger] r(y, x) implies x
        == y by {
        if x != y {
            lemma_text_less_transitive(x, y, x);
            lemma_text_less_irreflexive(x);
        }
    }
    assert forall|x: Seq<char>, y: Seq<char>| #[trigger] r(x, y) || #[trigger] r(y, x) by {
        lemma_text_less_total(x, y);
    }
    assert forall|x: Seq<char>, y: Seq<char>, z: Seq<char>| #[trigger]
        r(x, y) && #[trigger] r(y, z) implies r(x, z) by {
        if x != y && y != z {
            lemma_text_less_transitive(x, y, z);
        }
    }
}

fn insert_sorted(v: &mut Vec<String>, x: String)
    requires
        sorted_by(texts(old(v)@), at_most()),
    ensures
        sorted_by(texts(final(v)@), at_most()),
        texts(final(v)@).to_multiset() == texts(old(v)@).to_multiset().insert(x@),
{
    let ghost t = texts(v@);
    let ghost r = at_most();
    let ghost y = x@;
    let mut i: usize = v.len();
    while i > 0 && precedes(x.as_str(), v[i - 1].as_str())
        invariant
            i <= v@.len(),
            t == texts(v@),
            y == x@,
            forall|j: int| i <= j < t.len() ==> text_less(y, #[trigger] t[j]),
        decreases i,
    {
        i -= 1;
        assert(t[i as int] == v@[i as int]@);
    }
    v.insert(i, x);
    proof {
        let u = texts(v@);
        assert(u =~= t.insert(i as int, y));
        vstd::seq_lib::to_multiset_insert(t, i as int, y);
        lemma_at_most_orders();
        if i > 0 {
            assert(t[i - 1] == v@[i - 1]@);
            assert(r(t[i - 1], y) || r(y, t[i - 1]));
        }
        assert forall|a: int, b: int| 0 <= a < b < u.len() implies #[trigger] r(u[a], u[b]) by {
            if a < i && b < i {
                assert(r(t[a], t[b]));
            } else if a < i && b == i {
                if a < i - 1 {
                    assert(r(t[a], t[i - 1]));
                    assert(r(t[i - 1], y));
                } else {
                    assert(r(t[i - 1], y));
                }
            } else if a == i {
                assert(text_less(y, t[b - 1]));
            } else if a < i {
                assert(r(t[a], t[b - 1]));
            } else {
                assert(r(t[a - 1], t[b - 1]));
            }
        }
    }
}

fn sort(v: Vec<String>) -> (r: Vec<String>)
    ensures
        texts(r@) == texts(v@).sort_by(at_most()),
{
    let ghost t = texts(v@);
    let mut out: Vec<String> = Vec::new();
    let mut k: usize = 0;
    assert(texts(out@) =~= t.take(0));
    while k < v.len()
        invariant
            k <= v@.len(),
            t == texts(v@),
            sorted_by(texts(out@), at_most()),
            texts(out@).to_multiset() == t.take(k as int).to_multiset(),
        decreases v@.len() - k,
    {
        proof {
            assert(t.take(k + 1) =~= t.take(k as int).push(v@[k as int]@));
            vstd::seq_lib::to_multiset_build(t.take(k as int), v@[k as int]@);
        }
        insert_sorted(&mut out, v[k].clone());
        k += 1;
    }
    proof {
        assert(t.take(k as int) =~= t);
        lemma_at_most_orders();
        t.lemma_sort_by_ensures(at_most());
        vstd::seq_lib::lemma_sorted_unique(texts(out@), t.sort_by(at_most()), at_most());
    }
    out
}

/// `acc` with the texts from the `k`-th on behind it, each with `end`.
pub open spec fn with_ends(acc: Seq<char>, v: Seq<Seq<char>>, end: char, k: int) -> Seq<char>
    decreases v.len() - k,
{
    if 0 <= k < v.len() {
        with_ends((acc + v[k]).push(end), v, end, k + 1)
    } else {
        acc
    }
}

/// `-t inputs`: every input needed to build `targets`.
pub fn inputs(state: &State, targets: &[NodeId], options: InputsOptions) -> (r: String)
    requires
        state.wf(),
        nodes_below(targets@, state@.nodes.len()),
    ensures
        ({
            let nodes = all_visited(nothing_visited(), state@, targets@, 0).inputs;
            let paths = printed_paths(state@, nodes, options.shell_escape);
            let end = if options.print0 {
                '\0'
            } else {
                '\n'
            };
            r@ == with_ends(
                Seq::empty(),
                if options.dependency_order {
                    paths
                } else {
                    paths.sort_by(at_most())
                },
                end,
                0,
            )
        }),
{
    let mut collector = InputsCollector::default();
    let ghost want = all_visited(collector@, state@, targets@, 0);
    let mut k: usize = 0;
    while k < targets.len()
        invariant
            k <= targets@.len(),
            state.wf(),
            nodes_below(targets@, state@.nodes.len()),
            nodes_below(collector@.inputs, state@.nodes.len()),
            all_visited(collector@, state@, targets@, k as int) == want,
        decreases targets@.len() - k,
    {
        collector.visit(state, targets[k]);
        k += 1;
    }
    let mut paths = collector.as_strings(state, options.shell_escape);
    if !options.dependency_order {
        paths = sort(paths);
    }
    let end: char = if options.print0 {
        '\0'
    } else {
        '\n'
    };
    let ghost t = texts(paths@);
    let mut out = String::new();
    assert(out@ =~= Seq::empty());
    let ghost text = with_ends(out@, t, end, 0);
    let mut i: usize = 0;
    while i < paths.len()
        invariant
            i <= paths@.len(),
            t == texts(paths@),
            with_ends(out@, t, end, i as int) == text,
        decreases paths@.len() - i,
    {
        assert(t[i as int] == paths@[i as int]@);
        out.append(paths[i].as_str());
        out.push(end);
        i += 1;
    }
    out
}

/// `acc` with the inputs from the `k`-th on behind it, each behind the name of
/// the target.
pub open spec fn with_named(
    acc: Seq<char>,
    name: Seq<char>,
    delimiter: Seq<char>,
    v: Seq<Seq<char>>,
    end: char,
    k: int,
) -> Seq<char>
    decreases v.len() - k,
{
    if 0 <= k < v.len() {
        with_named((acc + name + delimiter + v[k]).push(end), name, delimiter, v, end, k + 1)
    } else {
        acc
    }
}

/// The same for the targets from the `k`-th on.
pub open spec fn with_all_named(
    acc: Seq<char>,
    s: StateView,
    targets: Seq<NodeId>,
    delimiter: Seq<char>,
    end: char,
    k: int,
) -> Seq<char>
    decreases targets.len() - k,
{
    if 0 <= k < targets.len() {
        let nodes = nothing_visited().visit_of(s, targets[k]).inputs;
        with_all_named(
            with_named(
                acc,
                path_of(s, targets[k]),
                delimiter,
                printed_paths(s, nodes, false),
                end,
                0,
            ),
            s,
            targets,
            delimiter,
            end,
            k + 1,
        )
    } else {
        acc
    }
}

fn push_named(out: &mut String, name: &str, delimiter: &str, paths: &Vec<String>, end: char)
    ensures
        final(out)@ == with_named(old(out)@, name@, delimiter@, texts(paths@), end, 0),
{
    let ghost t = texts(paths@);
    let ghost want = with_named(out@, name@, delimiter@, t, end, 0);
    let mut k: usize = 0;
    while k < paths.len()
        invariant
            k <= paths@.len(),
            t == texts(paths@),
            with_named(out@, name@, delimiter@, t, end, k as int) == want,
        decreases paths@.len() - k,
    {
        assert(t[k as int] == paths@[k as int]@);
        out.append(name);
        out.append(delimiter);
        out.append(paths[k].as_str());
        out.push(end);
        k += 1;
    }
}

/// `-t multi-inputs`: like [`inputs`], but each line names its target too.
pub fn multi_inputs(state: &State, targets: &[NodeId], delimiter: &str, terminator: char) -> (r:
    String)
    requires
        state.wf(),
        nodes_below(targets@, state@.nodes.len()),
    ensures
        r@ == with_all_named(Seq::empty(), state@, targets@, delimiter@, terminator, 0),
{
    let mut out = String::new();
    assert(out@ =~= Seq::empty());
    let ghost want = with_all_named(out@, state@, targets@, delimiter@, terminator, 0);
    let mut k: usize = 0;
    while k < targets.len()
        invariant
            k <= targets@.len(),
            state.wf(),
            nodes_below(targets@, state@.nodes.len()),
            with_all_named(out@, state@, targets@, delimiter@, terminator, k as int) == want,
        decreases targets@.len() - k,
    {
        let node = targets[k];
        let mut collector = InputsCollector::default();
        collector.visit(state, node);
        let paths = collector.as_strings(state, false);
        push_named(&mut out, state.node(node).path(), delimiter, &paths, terminator);
        k += 1;
    }
    out
}

/// The commands of the first `k` edges, each on a line, but for those of edges
/// that run nothing.
pub open spec fn commands_of(s: StateView, v: Seq<EdgeId>, k: int) -> Seq<char>
    decreases k,
{
    if k <= 0 {
        Seq::empty()
    } else if s.edges[v[k - 1].0 as int].rule == phony_rule() {
        commands_of(s, v, k - 1)
    } else {
        commands_of(s, v, k - 1) + s.binding(v[k - 1].0 as int, "command"@, Escape::Shell) + "\n"@
    }
}

proof fn lemma_commands_of(s: StateView, v: Seq<EdgeId>, w: Seq<EdgeId>, k: int)
    requires
        0 <= k <= v.len(),
        k <= w.len(),
        v.take(k) == w.take(k),
    ensures
        commands_of(s, v, k) == commands_of(s, w, k),
    decreases k,
{
    if k > 0 {
        assert(v.take(k)[k - 1] == v[k - 1]);
        assert(w.take(k)[k - 1] == w[k - 1]);
        assert(v.take(k - 1) =~= v.take(k).take(k - 1));
        assert(w.take(k - 1) =~= w.take(k).take(k - 1));
        lemma_commands_of(s, v, w, k - 1);
    }
}

proof fn lemma_commands_joined(s: StateView, v: Seq<EdgeId>, w: Seq<EdgeId>, k: int)
    requires
        0 <= k <= w.len(),
    ensures
        commands_of(s, v + w, v.len() + k) == commands_of(s, v, v.len() as int) + commands_of(
            s,
            w,
            k,
        ),
    decreases k,
{
    let u = v + w;
    let n = v.len() as int;
    if k == 0 {
        assert(u.take(n) =~= v.take(n));
        lemma_commands_of(s, u, v, n);
        assert(commands_of(s, v, n) + Seq::<char>::empty() =~= commands_of(s, v, n));
    } else {
        lemma_commands_joined(s, v, w, k - 1);
        assert(u[n + k - 1] == w[k - 1]);
        let c = s.binding(w[k - 1].0 as int, "command"@, Escape::Shell);
        assert((commands_of(s, v, n) + commands_of(s, w, k - 1)) + c + "\n"@ =~= commands_of(
            s,
            v,
            n,
        ) + (commands_of(s, w, k - 1) + c + "\n"@));
    }
}

/// Whether `u` is told behind `t`: the commands of the edges of `v`, which are those
/// that were covered between them, all needed for `node`, none of them twice; and
/// what they need is covered as well.
spec fn is_told_by(t: Told, u: Told, s: StateView, v: Seq<EdgeId>, node: NodeId) -> bool {
    &&& u.text == t.text + commands_of(s, v, v.len() as int)
    &&& u.seen.len() == t.seen.len()
    &&& unseen(u.seen) <= unseen(t.seen)
    &&& v.no_duplicates()
    &&& forall|e: EdgeId|
        #![trigger v.contains(e)]
        v.contains(e) <==> e.0 < t.seen.len() && u.seen[e.0 as int] && !t.seen[e.0 as int]
    &&& forall|e: int| 0 <= e < t.seen.len() && #[trigger] t.seen[e] ==> u.seen[e]
    &&& forall|e: EdgeId| #[trigger] v.contains(e) ==> is_needed_for(s, e, node)
    &&& forall|e: EdgeId| #[trigger] v.contains(e) ==> makers_seen(s, u.seen, e)
}

/// Whether what makes the inputs of `edge` has been seen.
spec fn makers_seen(s: StateView, seen: Seq<bool>, edge: EdgeId) -> bool {
    forall|i: int|
        0 <= i < s.edges[edge.0 as int].inputs.len() ==> is_maker_seen(
            s,
            seen,
            #[trigger] s.edges[edge.0 as int].inputs[i],
        )
}

spec fn is_maker_seen(s: StateView, seen: Seq<bool>, node: NodeId) -> bool {
    match s.nodes[node.0 as int].in_edge {
        None => true,
        Some(f) => seen[f.0 as int],
    }
}

proof fn lemma_told_twice(
    t: Told,
    u: Told,
    x: Told,
    s: StateView,
    v: Seq<EdgeId>,
    w: Seq<EdgeId>,
    node: NodeId,
)
    requires
        s.wf(),
        t.seen.len() == s.edges.len(),
        is_told_by(t, u, s, v, node),
        is_told_by(u, x, s, w, node),
    ensures
        is_told_by(t, x, s, v + w, node),
{
    let z = v + w;
    lemma_commands_joined(s, v, w, w.len() as int);
    let n = v.len() as int;
    assert((t.text + commands_of(s, v, n)) + commands_of(s, w, w.len() as int) =~= t.text + (
    commands_of(s, v, n) + commands_of(s, w, w.len() as int)));
    assert forall|e: EdgeId| #[trigger] z.contains(e) <==> (v.contains(e) || w.contains(e)) by {
        if v.contains(e) {
            let j = choose|j: int| 0 <= j < v.len() && v[j] == e;
            assert(z[j] == e);
        }
        if w.contains(e) {
            let j = choose|j: int| 0 <= j < w.len() && w[j] == e;
            assert(z[n + j] == e);
        }
        if z.contains(e) {
            let j = choose|j: int| 0 <= j < z.len() && z[j] == e;
            if j < n {
                assert(v[j] == e);
            } else {
                assert(w[j - n] == e);
            }
        }
    }
    assert forall|a: int, b: int| 0 <= a < z.len() && 0 <= b < z.len() && a != b implies z[a]
        != z[b] by {
        if a < n && b >= n {
            assert(v.contains(v[a]));
            assert(w.contains(w[b - n]));
        }
        if b < n && a >= n {
            assert(v.contains(v[b]));
            assert(w.contains(w[a - n]));
        }
    }
    assert forall|e: EdgeId|
        #![trigger z.contains(e)]
        z.contains(e) <==> e.0 < t.seen.len() && x.seen[e.0 as int] && !t.seen[e.0 as int] by {
        assert(v.contains(e) <==> e.0 < t.seen.len() && u.seen[e.0 as int] && !t.seen[e.0 as int]);
        assert(w.contains(e) <==> e.0 < u.seen.len() && x.seen[e.0 as int] && !u.seen[e.0 as int]);
        if e.0 < t.seen.len() {
            assert(t.seen[e.0 as int] ==> u.seen[e.0 as int]);
            assert(u.seen[e.0 as int] ==> x.seen[e.0 as int]);
        }
    }
    assert forall|e: EdgeId| #[trigger] z.contains(e) implies makers_seen(s, x.seen, e) by {
        if v.contains(e) {
            lemma_makers_later(s, u.seen, x.seen, e);
        }
    }
    assert forall|e: int| 0 <= e < t.seen.len() && #[trigger] t.seen[e] implies x.seen[e] by {
        assert(u.seen[e]);
    }
}

proof fn lemma_makers_later(s: StateView, a: Seq<bool>, b: Seq<bool>, e: EdgeId)
    requires
        s.wf(),
        a.len() == s.edges.len(),
        makers_seen(s, a, e),
        e.0 < s.edges.len(),
        forall|i: int| 0 <= i < a.len() && #[trigger] a[i] ==> b[i],
    ensures
        makers_seen(s, b, e),
{
    assert(s.edge_ok(s.edges[e.0 as int]));
    assert forall|i: int| 0 <= i < s.edges[e.0 as int].inputs.len() implies is_maker_seen(
        s,
        b,
        #[trigger] s.edges[e.0 as int].inputs[i],
    ) by {
        let n = s.edges[e.0 as int].inputs[i];
        assert(is_maker_seen(s, a, n));
        assert(s.node_ok(s.nodes[n.0 as int]));
    }
}

proof fn lemma_told_for_user(
    t: Told,
    u: Told,
    s: StateView,
    v: Seq<EdgeId>,
    input: NodeId,
    node: NodeId,
    edge: EdgeId,
)
    requires
        is_told_by(t, u, s, v, input),
        s.nodes[node.0 as int].in_edge == Some(edge),
        s.edges[edge.0 as int].inputs.contains(input),
    ensures
        is_told_by(t, u, s, v, node),
{
    assert forall|e: EdgeId| #[trigger] v.contains(e) implies is_needed_for(s, e, node) by {
        assert(is_needed_for(s, e, input));
        let line = choose|line: Seq<NodeId>| #[trigger]
            crate::clean::is_supply_line(s, line) && line[0] == input && s.nodes[line.last().0 as int].in_edge
                == Some(e);
        crate::clean::lemma_line_extended(s, node, edge, line);
        assert(crate::clean::is_supply_line(s, seq![node] + line));
    }
}

proof fn lemma_nothing_told(t: Told, s: StateView, node: NodeId)
    ensures
        is_told_by(t, t, s, Seq::empty(), node),
{
    assert(t.text + Seq::<char>::empty() =~= t.text);
}

proof fn lemma_commands_told(t: Told, s: StateView, node: NodeId, edge: EdgeId, depth: nat) -> (v:
    Seq<EdgeId>)
    requires
        s.wf(),
        edge.0 < s.edges.len(),
        s.nodes[node.0 as int].in_edge == Some(edge),
        t.seen.len() == s.edges.len(),
        !t.seen[edge.0 as int],
        unseen(t.seen.update(edge.0 as int, true)) <= depth,
    ensures
        is_told_by(t, commands_told(t, s, edge, false, depth), s, v, node),
        commands_told(t, s, edge, false, depth).seen[edge.0 as int],
        unseen(commands_told(t, s, edge, false, depth).seen) <= unseen(
            t.seen.update(edge.0 as int, true),
        ),
    decreases depth, 1nat, 0nat,
{
    let e = edge.0 as int;
    let u = Told { seen: t.seen.update(e, true), ..t };
    lemma_unseen(t.seen, e);
    let w = lemma_input_commands_told(u, s, node, edge, 0, depth);
    let first = input_commands_told(u, s, s.edges[e].inputs, 0, depth);
    let out = commands_told(t, s, edge, false, depth);
    let v = w.push(edge);
    assert(u.seen[e]);
    assert(!w.contains(edge));
    assert(v.last() == edge);
    assert(commands_of(s, v, w.len() as int) == commands_of(s, w, w.len() as int)) by {
        assert(v.take(w.len() as int) =~= w.take(w.len() as int));
        lemma_commands_of(s, v, w, w.len() as int);
    }
    let c = s.binding(e, "command"@, Escape::Shell);
    assert(t.text + commands_of(s, w, w.len() as int) + c + "\n"@ =~= t.text + (commands_of(
        s,
        w,
        w.len() as int,
    ) + c + "\n"@));
    assert forall|f: EdgeId| #[trigger] v.contains(f) <==> (w.contains(f) || f == edge) by {
        if w.contains(f) {
            let j = choose|j: int| 0 <= j < w.len() && w[j] == f;
            assert(v[j] == f);
        }
        if f == edge {
            assert(v[w.len() as int] == f);
        }
    }
    assert(v.no_duplicates()) by {
        assert forall|a: int, b: int| 0 <= a < v.len() && 0 <= b < v.len() && a != b implies v[a]
            != v[b] by {
            if a == w.len() {
                assert(w.contains(w[b]));
            }
            if b == w.len() {
                assert(w.contains(w[a]));
            }
        }
    }
    assert forall|f: EdgeId|
        #![trigger v.contains(f)]
        v.contains(f) <==> f.0 < t.seen.len() && out.seen[f.0 as int] && !t.seen[f.0 as int] by {
        assert(w.contains(f) <==> f.0 < u.seen.len() && first.seen[f.0 as int]
            && !u.seen[f.0 as int]);
        if f.0 == edge.0 {
            assert(f == edge);
        }
    }
    let line = seq![node];
    assert(crate::clean::is_supply_line(s, line));
    assert(line[0] == node && line.last() == node);
    assert(is_needed_for(s, edge, node));
    assert(makers_seen(s, out.seen, edge));
    assert(out.seen == first.seen);
    assert forall|f: int| 0 <= f < t.seen.len() && #[trigger] t.seen[f] implies out.seen[f] by {
        assert(u.seen[f]);
    }
    assert(out.text == t.text + commands_of(s, v, v.len() as int)) by {
        assert(first.text == t.text + commands_of(s, w, w.len() as int));
        assert(v[v.len() - 1] == edge);
        assert(v.len() - 1 == w.len());
    }
    v
}

proof fn lemma_input_commands_told(
    t: Told,
    s: StateView,
    node: NodeId,
    edge: EdgeId,
    k: int,
    depth: nat,
) -> (v: Seq<EdgeId>)
    requires
        s.wf(),
        edge.0 < s.edges.len(),
        s.nodes[node.0 as int].in_edge == Some(edge),
        t.seen.len() == s.edges.len(),
        unseen(t.seen) <= depth,
        0 <= k,
    ensures
        ({
            let inputs = s.edges[edge.0 as int].inputs;
            let u = input_commands_told(t, s, inputs, k, depth);
            &&& is_told_by(t, u, s, v, node)
            &&& forall|i: int|
                k <= i < inputs.len() ==> is_maker_seen(s, u.seen, #[trigger] inputs[i])
        }),
    decreases depth, 0nat, s.edges[edge.0 as int].inputs.len() - k,
{
    let inputs = s.edges[edge.0 as int].inputs;
    assert(s.edge_ok(s.edges[edge.0 as int]));
    lemma_nothing_told(t, s, node);
    if k < inputs.len() {
        let n = s.nodes[inputs[k].0 as int];
        assert(s.node_ok(n));
        let mut told = t;
        let mut first = Seq::<EdgeId>::empty();
        if n.in_edge is Some && !t.seen[(n.in_edge->0).0 as int] {
            let f = n.in_edge->0;
            lemma_unseen(t.seen, f.0 as int);
            let w = lemma_commands_told(t, s, inputs[k], f, (depth - 1) as nat);
            assert(inputs.contains(inputs[k]));
            lemma_told_for_user(
                t,
                commands_told(t, s, f, false, (depth - 1) as nat),
                s,
                w,
                inputs[k],
                node,
                edge,
            );
            told = commands_told(t, s, f, false, (depth - 1) as nat);
            first = w;
        }
        assert(is_maker_seen(s, told.seen, inputs[k]));
        let rest = lemma_input_commands_told(told, s, node, edge, k + 1, depth);
        let u = input_commands_told(t, s, inputs, k, depth);
        assert(u == input_commands_told(told, s, inputs, k + 1, depth));
        lemma_told_twice(t, told, u, s, first, rest, node);
        assert forall|i: int| k <= i < inputs.len() implies is_maker_seen(
            s,
            u.seen,
            #[trigger] inputs[i],
        ) by {
            if i == k && n.in_edge is Some {
                assert(told.seen[(n.in_edge->0).0 as int]);
            }
        }
        first + rest
    } else {
        Seq::empty()
    }
}

/// The commands that are told for targets are those of just the edges that are
/// needed for one of them, each once, also where the way to them leads through names
/// that stand for other files: the edges of `v`, in that order.
pub proof fn law_all_needed_commands_are_told(s: StateView, targets: Seq<NodeId>) -> (v: Seq<
    EdgeId,
>)
    requires
        s.wf(),
        nodes_below(targets, s.nodes.len()),
    ensures
        v.no_duplicates(),
        forall|e: EdgeId| #[trigger]
            v.contains(e) <==> exists|k: int|
                0 <= k < targets.len() && is_needed_for(s, e, #[trigger] targets[k]),
        target_commands_told(
            Told { text: Seq::empty(), seen: none_of(s.edges.len()) },
            s,
            targets,
            false,
            0,
        ).text == commands_of(s, v, v.len() as int),
{
    let t = Told { text: Seq::empty(), seen: none_of(s.edges.len()) };
    let v = lemma_targets_told(t, t, s, targets, 0, Seq::empty());
    let u = target_commands_told(t, s, targets, false, 0);
    assert(Seq::<char>::empty() + commands_of(s, v, v.len() as int) =~= commands_of(
        s,
        v,
        v.len() as int,
    ));
    assert forall|e: EdgeId| #[trigger]
        v.contains(e) <==> exists|k: int|
            0 <= k < targets.len() && is_needed_for(s, e, #[trigger] targets[k]) by {
        if exists|k: int| 0 <= k < targets.len() && is_needed_for(s, e, #[trigger] targets[k]) {
            let k = choose|k: int|
                0 <= k < targets.len() && is_needed_for(s, e, #[trigger] targets[k]);
            let line = choose|line: Seq<NodeId>| #[trigger]
                crate::clean::is_supply_line(s, line) && line[0] == targets[k]
                    && s.nodes[line.last().0 as int].in_edge == Some(e);
            assert(is_maker_seen(s, u.seen, targets[k]));
            lemma_line_seen(s, u.seen, line, line.len() - 1);
        }
    }
    v
}

proof fn lemma_line_seen(s: StateView, seen: Seq<bool>, line: Seq<NodeId>, j: int)
    requires
        s.wf(),
        seen.len() == s.edges.len(),
        crate::clean::is_supply_line(s, line),
        0 <= j < line.len(),
        line[0].0 < s.nodes.len(),
        is_maker_seen(s, seen, line[0]),
        forall|e: EdgeId|
            e.0 < seen.len() && seen[e.0 as int] ==> #[trigger] makers_seen(s, seen, e),
    ensures
        line[j].0 < s.nodes.len(),
        is_maker_seen(s, seen, line[j]),
        s.nodes[line[j].0 as int].in_edge matches Some(f) ==> f.0 < seen.len(),
    decreases j,
{
    assert(s.node_ok(s.nodes[line[0].0 as int]));
    if j > 0 {
        lemma_line_seen(s, seen, line, j - 1);
        let f = s.nodes[line[j - 1].0 as int].in_edge->0;
        assert(s.nodes[line[j - 1].0 as int].in_edge is Some);
        assert(s.node_ok(s.nodes[line[j - 1].0 as int]));
        assert(s.edge_ok(s.edges[f.0 as int]));
        assert(makers_seen(s, seen, f));
        let inputs = s.edges[f.0 as int].inputs;
        assert(inputs.contains(line[j - 1 + 1]));
        let i = choose|i: int| 0 <= i < inputs.len() && inputs[i] == line[j];
        assert(is_maker_seen(s, seen, s.edges[f.0 as int].inputs[i]));
        assert(s.node_ok(s.nodes[line[j].0 as int]));
    }
}

proof fn lemma_targets_told(
    t0: Told,
    t: Told,
    s: StateView,
    targets: Seq<NodeId>,
    k: int,
    before: Seq<EdgeId>,
) -> (v: Seq<EdgeId>)
    requires
        s.wf(),
        nodes_below(targets, s.nodes.len()),
        0 <= k <= targets.len(),
        t0.seen == none_of(s.edges.len()),
        t.seen.len() == s.edges.len(),
        t.text == t0.text + commands_of(s, before, before.len() as int),
        before.no_duplicates(),
        forall|e: EdgeId| #[trigger]
            before.contains(e) <==> e.0 < s.edges.len() && t.seen[e.0 as int],
        forall|e: EdgeId| #[trigger] before.contains(e) ==> makers_seen(s, t.seen, e),
        forall|e: EdgeId| #[trigger]
            before.contains(e) ==> exists|j: int|
                0 <= j < targets.len() && is_needed_for(s, e, #[trigger] targets[j]),
        forall|j: int| 0 <= j < k ==> is_maker_seen(s, t.seen, #[trigger] targets[j]),
    ensures
        ({
            let u = target_commands_told(t, s, targets, false, k);
            &&& u.seen.len() == s.edges.len()
            &&& u.text == t0.text + commands_of(s, v, v.len() as int)
            &&& v.no_duplicates()
            &&& forall|e: EdgeId| #[trigger]
                v.contains(e) <==> e.0 < s.edges.len() && u.seen[e.0 as int]
            &&& forall|e: EdgeId|
                e.0 < u.seen.len() && u.seen[e.0 as int] ==> #[trigger] makers_seen(s, u.seen, e)
            &&& forall|e: EdgeId| #[trigger]
                v.contains(e) ==> exists|j: int|
                    0 <= j < targets.len() && is_needed_for(s, e, #[trigger] targets[j])
            &&& forall|j: int|
                0 <= j < targets.len() ==> is_maker_seen(s, u.seen, #[trigger] targets[j])
        }),
    decreases targets.len() - k,
{
    if k < targets.len() {
        let n = s.nodes[targets[k].0 as int];
        assert(s.node_ok(n));
        if n.in_edge is Some && !t.seen[(n.in_edge->0).0 as int] {
            let f = n.in_edge->0;
            lemma_unseen(t.seen, f.0 as int);
            lemma_unseen_at_most(t.seen.update(f.0 as int, true));
            let w = lemma_commands_told(t, s, targets[k], f, s.edges.len());
            let u = commands_told(t, s, f, false, s.edges.len());
            // What has been told so far was told from nothing.
            lemma_commands_joined(s, before, w, w.len() as int);
            let z = before + w;
            let nb = before.len() as int;
            assert(u.text =~= t0.text + commands_of(s, z, z.len() as int));
            assert forall|e: EdgeId| #[trigger] z.contains(e) <==> (before.contains(e)
                || w.contains(e)) by {
                if before.contains(e) {
                    let j = choose|j: int| 0 <= j < before.len() && before[j] == e;
                    assert(z[j] == e);
                }
                if w.contains(e) {
                    let j = choose|j: int| 0 <= j < w.len() && w[j] == e;
                    assert(z[nb + j] == e);
                }
                if z.contains(e) {
                    let j = choose|j: int| 0 <= j < z.len() && z[j] == e;
                    if j < nb {
                        assert(before[j] == e);
                    } else {
                        assert(w[j - nb] == e);
                    }
                }
            }
            assert(z.no_duplicates()) by {
                assert forall|a: int, b: int|
                    0 <= a < z.len() && 0 <= b < z.len() && a != b implies z[a] != z[b] by {
                    if a < nb && b >= nb {
                        assert(before.contains(before[a]));
                        assert(w.contains(w[b - nb]));
                    }
                    if b < nb && a >= nb {
                        assert(before.contains(before[b]));
                        assert(w.contains(w[a - nb]));
                    }
                }
            }
            assert forall|e: EdgeId| #[trigger] z.contains(e) implies makers_seen(s, u.seen, e) by {
                if before.contains(e) {
                    lemma_makers_later(s, t.seen, u.seen, e);
                }
            }
            assert forall|e: EdgeId| #[trigger]
                z.contains(e) <==> e.0 < s.edges.len() && u.seen[e.0 as int] by {
                assert(before.contains(e) <==> e.0 < s.edges.len() && t.seen[e.0 as int]);
                assert(w.contains(e) <==> e.0 < t.seen.len() && u.seen[e.0 as int]
                    && !t.seen[e.0 as int]);
            }
            assert forall|e: EdgeId| #[trigger] z.contains(e) implies exists|j: int|
                0 <= j < targets.len() && is_needed_for(s, e, #[trigger] targets[j]) by {
                if !before.contains(e) {
                    assert(is_needed_for(s, e, targets[k]));
                }
            }
            assert forall|j: int| 0 <= j < k + 1 implies is_maker_seen(
                s,
                u.seen,
                #[trigger] targets[j],
            ) by {
                if j < k {
                    assert(is_maker_seen(s, t.seen, targets[j]));
                    assert(s.node_ok(s.nodes[targets[j].0 as int]));
                }
            }
            lemma_targets_told(t0, u, s, targets, k + 1, z)
        } else {
            lemma_targets_told(t0, t, s, targets, k + 1, before)
        }
    } else {
        assert forall|e: EdgeId|
            e.0 < t.seen.len() && t.seen[e.0 as int] implies #[trigger] makers_seen(s, t.seen, e) by {
            assert(before.contains(e));
        }
        before
    }
}

/// Whether `node` is made from `n`, at once or by way of others.
pub open spec fn is_made_from(s: StateView, node: NodeId, n: NodeId) -> bool {
    exists|v: Seq<NodeId>| #[trigger]
        crate::clean::is_supply_line(s, v) && v.len() > 1 && v[0] == node && v.last() == n
}

/// Whether what `n` is made from has been visited.
spec fn inputs_seen(s: StateView, visited: Seq<bool>, n: int) -> bool {
    match s.nodes[n].in_edge {
        None => true,
        Some(e) => forall|i: int|
            0 <= i < s.edges[e.0 as int].inputs.len() ==> visited[(
            #[trigger] s.edges[e.0 as int].inputs[i]).0 as int],
    }
}

/// Whether between `c` and `d` just `w` was gathered: what was visited, but for
/// names that stand for other files, none of it twice; all of it is something that
/// `node` is made from, and what it is made from was visited as well.
spec fn is_gathered(
    c: CollectorView,
    d: CollectorView,
    s: StateView,
    w: Seq<NodeId>,
    node: NodeId,
) -> bool {
    &&& c.visited.len() == s.nodes.len()
    &&& d.visited.len() == s.nodes.len()
    &&& unseen(d.visited) <= unseen(c.visited)
    &&& d.inputs == c.inputs + w
    &&& w.no_duplicates()
    &&& forall|n: NodeId| #[trigger]
        w.contains(n) <==> n.0 < s.nodes.len() && d.visited[n.0 as int] && !c.visited[n.0 as int]
            && !is_phony_output(s, n)
    &&& forall|n: int| 0 <= n < s.nodes.len() && #[trigger] c.visited[n] ==> d.visited[n]
    &&& forall|n: NodeId|
        n.0 < s.nodes.len() && d.visited[n.0 as int] && !c.visited[n.0 as int] ==> (
        #[trigger] is_made_from(s, node, n)) && inputs_seen(s, d.visited, n.0 as int)
}

proof fn lemma_inputs_seen_later(s: StateView, a: Seq<bool>, b: Seq<bool>, n: int)
    requires
        s.wf(),
        0 <= n < s.nodes.len(),
        a.len() == s.nodes.len(),
        inputs_seen(s, a, n),
        forall|i: int| 0 <= i < s.nodes.len() && #[trigger] a[i] ==> b[i],
    ensures
        inputs_seen(s, b, n),
{
    assert(s.node_ok(s.nodes[n]));
    if let Some(e) = s.nodes[n].in_edge {
        assert(s.edge_ok(s.edges[e.0 as int]));
        assert forall|i: int| 0 <= i < s.edges[e.0 as int].inputs.len() implies b[(
        #[trigger] s.edges[e.0 as int].inputs[i]).0 as int] by {
            assert(a[s.edges[e.0 as int].inputs[i].0 as int]);
        }
    }
}

proof fn lemma_joined_lists(v: Seq<NodeId>, w: Seq<NodeId>)
    ensures
        forall|n: NodeId| #[trigger]
            (v + w).contains(n) <==> v.contains(n) || w.contains(n),
        v.no_duplicates() && w.no_duplicates() && (forall|n: NodeId|
            v.contains(n) ==> !#[trigger] w.contains(n)) ==> (v + w).no_duplicates(),
{
    let z = v + w;
    let k = v.len() as int;
    assert forall|n: NodeId| #[trigger] z.contains(n) <==> (v.contains(n) || w.contains(n)) by {
        if v.contains(n) {
            let j = choose|j: int| 0 <= j < v.len() && v[j] == n;
            assert(z[j] == n);
        }
        if w.contains(n) {
            let j = choose|j: int| 0 <= j < w.len() && w[j] == n;
            assert(z[k + j] == n);
        }
        if z.contains(n) {
            let j = choose|j: int| 0 <= j < z.len() && z[j] == n;
            if j < k {
                assert(v[j] == n);
            } else {
                assert(w[j - k] == n);
            }
        }
    }
    if v.no_duplicates() && w.no_duplicates() && (forall|n: NodeId|
        v.contains(n) ==> !#[trigger] w.contains(n)) {
        assert forall|a: int, b: int| 0 <= a < z.len() && 0 <= b < z.len() && a != b implies z[a]
            != z[b] by {
            if a < k && b >= k {
                assert(v.contains(v[a]));
                assert(w.contains(w[b - k]));
            }
            if b < k && a >= k {
                assert(v.contains(v[b]));
                assert(w.contains(w[a - k]));
            }
        }
    }
}

proof fn lemma_gathered_twice(
    c: CollectorView,
    d: CollectorView,
    f: CollectorView,
    s: StateView,
    v: Seq<NodeId>,
    w: Seq<NodeId>,
    node: NodeId,
)
    requires
        s.wf(),
        is_gathered(c, d, s, v, node),
        is_gathered(d, f, s, w, node),
    ensures
        is_gathered(c, f, s, v + w, node),
{
    let z = v + w;
    assert((c.inputs + v) + w =~= c.inputs + z);
    assert forall|n: NodeId| v.contains(n) implies !#[trigger] w.contains(n) by {
        assert(v.contains(n));
    }
    lemma_joined_lists(v, w);
    assert(z.no_duplicates());
    assert(f.inputs == (c.inputs + v) + w);
    assert(f.inputs == c.inputs + z);
    assert forall|n: NodeId| #[trigger]
        z.contains(n) <==> n.0 < s.nodes.len() && f.visited[n.0 as int] && !c.visited[n.0 as int]
            && !is_phony_output(s, n) by {
        assert(z.contains(n) <==> v.contains(n) || w.contains(n));
        assert(v.contains(n) <==> n.0 < s.nodes.len() && d.visited[n.0 as int]
            && !c.visited[n.0 as int] && !is_phony_output(s, n));
        assert(w.contains(n) <==> n.0 < s.nodes.len() && f.visited[n.0 as int]
            && !d.visited[n.0 as int] && !is_phony_output(s, n));
        if n.0 < s.nodes.len() {
            assert(c.visited[n.0 as int] ==> d.visited[n.0 as int]);
            assert(d.visited[n.0 as int] ==> f.visited[n.0 as int]);
        }
    }
    assert forall|n: int| 0 <= n < s.nodes.len() && #[trigger] c.visited[n] implies f.visited[n] by {
        assert(d.visited[n]);
    }
    assert forall|n: NodeId|
        n.0 < s.nodes.len() && f.visited[n.0 as int] && !c.visited[n.0 as int] implies (
    #[trigger] is_made_from(s, node, n)) && inputs_seen(s, f.visited, n.0 as int) by {
        if d.visited[n.0 as int] {
            assert(is_made_from(s, node, n));
            lemma_inputs_seen_later(s, d.visited, f.visited, n.0 as int);
        }
    }
    assert(is_gathered(c, f, s, z, node));
}

proof fn lemma_made_from_user(s: StateView, node: NodeId, edge: EdgeId, input: NodeId)
    requires
        s.nodes[node.0 as int].in_edge == Some(edge),
        s.edges[edge.0 as int].inputs.contains(input),
    ensures
        is_made_from(s, node, input),
        forall|n: NodeId| is_made_from(s, input, n) ==> #[trigger] is_made_from(s, node, n),
{
    let alone = seq![input];
    assert(crate::clean::is_supply_line(s, alone));
    crate::clean::lemma_line_extended(s, node, edge, alone);
    assert(crate::clean::is_supply_line(s, seq![node] + alone));
    assert forall|n: NodeId| is_made_from(s, input, n) implies #[trigger] is_made_from(
        s,
        node,
        n,
    ) by {
        let v = choose|v: Seq<NodeId>| #[trigger]
            crate::clean::is_supply_line(s, v) && v.len() > 1 && v[0] == input && v.last() == n;
        crate::clean::lemma_line_extended(s, node, edge, v);
        assert(crate::clean::is_supply_line(s, seq![node] + v));
    }
}

proof fn lemma_nothing_gathered(c: CollectorView, s: StateView, node: NodeId)
    requires
        c.visited.len() == s.nodes.len(),
    ensures
        is_gathered(c, c, s, Seq::empty(), node),
{
    assert(c.inputs + Seq::<NodeId>::empty() =~= c.inputs);
}

proof fn lemma_inputs_gathered(
    c: CollectorView,
    s: StateView,
    node: NodeId,
    edge: EdgeId,
    k: int,
    depth: nat,
) -> (w: Seq<NodeId>)
    requires
        s.wf(),
        edge.0 < s.edges.len(),
        s.nodes[node.0 as int].in_edge == Some(edge),
        c.visited.len() == s.nodes.len(),
        unseen(c.visited) <= depth,
        0 <= k,
    ensures
        ({
            let inputs = s.edges[edge.0 as int].inputs;
            let d = inputs_visited(c, s, inputs, k, depth);
            &&& is_gathered(c, d, s, w, node)
            &&& forall|i: int|
                k <= i < inputs.len() ==> d.visited[(#[trigger] inputs[i]).0 as int]
        }),
    decreases depth, s.edges[edge.0 as int].inputs.len() - k,
{
    let inputs = s.edges[edge.0 as int].inputs;
    assert(s.edge_ok(s.edges[edge.0 as int]));
    lemma_nothing_gathered(c, s, node);
    if k < inputs.len() {
        let input = inputs[k];
        let n = input.0 as int;
        if c.visited[n] {
            let rest = lemma_inputs_gathered(c, s, node, edge, k + 1, depth);
            rest
        } else {
            lemma_unseen(c.visited, n);
            let c1 = CollectorView { visited: c.visited.update(n, true), ..c };
            let below = node_visited(c1, s, input, (depth - 1) as nat);
            assert(s.node_ok(s.nodes[n]));
            assert(inputs.contains(input));
            lemma_made_from_user(s, node, edge, input);
            let v = lemma_node_gathered(c1, s, input, (depth - 1) as nat);
            let d = if is_phony_output(s, input) {
                below
            } else {
                CollectorView { inputs: below.inputs.push(input), ..below }
            };
            let mine = if is_phony_output(s, input) {
                v
            } else {
                v.push(input)
            };
            assert(c1.visited[n]);
            assert(below.visited[n]);
            assert(!v.contains(input)) by {
                assert(input.0 == n);
            }
            assert(d.inputs =~= c.inputs + mine);
            assert forall|x: NodeId| #[trigger]
                mine.contains(x) <==> x.0 < s.nodes.len() && d.visited[x.0 as int]
                    && !c.visited[x.0 as int] && !is_phony_output(s, x) by {
                assert(v.contains(x) <==> x.0 < s.nodes.len() && below.visited[x.0 as int]
                    && !c1.visited[x.0 as int] && !is_phony_output(s, x));
                if !is_phony_output(s, input) {
                    if v.contains(x) {
                        let j = choose|j: int| 0 <= j < v.len() && v[j] == x;
                        assert(mine[j] == x);
                    }
                    if x == input {
                        assert(mine[v.len() as int] == x);
                    }
                    if mine.contains(x) && x != input {
                        let j = choose|j: int| 0 <= j < mine.len() && mine[j] == x;
                        assert(v[j] == x);
                    }
                }
                if x.0 == input.0 {
                    assert(x == input);
                }
            }
            assert(mine.no_duplicates()) by {
                assert forall|a: int, b: int|
                    0 <= a < mine.len() && 0 <= b < mine.len() && a != b implies mine[a]
                    != mine[b] by {
                    if a < v.len() {
                        assert(v.contains(v[a]));
                    }
                    if b < v.len() {
                        assert(v.contains(v[b]));
                    }
                }
            }
            assert forall|x: NodeId|
                x.0 < s.nodes.len() && d.visited[x.0 as int] && !c.visited[x.0 as int] implies (
            #[trigger] is_made_from(s, node, x)) && inputs_seen(s, d.visited, x.0 as int) by {
                if x.0 != n {
                    assert(is_made_from(s, input, x));
                } else {
                    assert(x == input);
                }
            }
            assert forall|x: int| 0 <= x < s.nodes.len() && #[trigger] c.visited[x] implies d.visited[x] by {
                assert(c1.visited[x]);
            }
            assert(is_gathered(c, d, s, mine, node));
            let rest = lemma_inputs_gathered(d, s, node, edge, k + 1, depth);
            let all = inputs_visited(c, s, inputs, k, depth);
            assert(all == inputs_visited(d, s, inputs, k + 1, depth));
            lemma_gathered_twice(c, d, all, s, mine, rest, node);
            assert(all.visited[n]);
            mine + rest
        }
    } else {
        Seq::empty()
    }
}

proof fn lemma_node_gathered(c: CollectorView, s: StateView, node: NodeId, depth: nat) -> (w: Seq<
    NodeId,
>)
    requires
        s.wf(),
        node.0 < s.nodes.len(),
        c.visited.len() == s.nodes.len(),
        unseen(c.visited) <= depth,
    ensures
        ({
            let d = node_visited(c, s, node, depth);
            &&& is_gathered(c, d, s, w, node)
            &&& inputs_seen(s, d.visited, node.0 as int)
        }),
    decreases depth, s.nodes.len() + s.edges.len() + 1 + inputs_bound(s, node),
{
    assert(s.node_ok(s.nodes[node.0 as int]));
    match s.nodes[node.0 as int].in_edge {
        None => {
            lemma_nothing_gathered(c, s, node);
            Seq::empty()
        },
        Some(e) => lemma_inputs_gathered(c, s, node, e, 0, depth),
    }
}

spec fn inputs_bound(s: StateView, node: NodeId) -> nat {
    match s.nodes[node.0 as int].in_edge {
        None => 0,
        Some(e) => s.edges[e.0 as int].inputs.len(),
    }
}

/// What is gathered for nodes is just what they are made from, at once or by way of
/// others, each once; names that stand for other files are left out, but what they
/// stand for is not.
pub proof fn law_all_inputs_are_gathered(s: StateView, nodes: Seq<NodeId>)
    requires
        s.wf(),
        s.nodes.len() <= usize::MAX,
        nodes_below(nodes, s.nodes.len()),
    ensures
        ({
            let v = all_visited(nothing_visited(), s, nodes, 0).inputs;
            &&& v.no_duplicates()
            &&& forall|n: NodeId| #[trigger]
                v.contains(n) <==> n.0 < s.nodes.len() && !is_phony_output(s, n) && exists|k: int|
                    0 <= k < nodes.len() && is_made_from(s, #[trigger] nodes[k], n)
        }),
{
    let c = nothing_visited();
    lemma_all_gathered(c, s, nodes, 0);
    let d = all_visited(c, s, nodes, 0);
    assert forall|n: NodeId| #[trigger]
        d.inputs.contains(n) <==> n.0 < s.nodes.len() && !is_phony_output(s, n) && exists|k: int|
            0 <= k < nodes.len() && is_made_from(s, #[trigger] nodes[k], n) by {
        if n.0 < s.nodes.len() && exists|k: int|
            0 <= k < nodes.len() && is_made_from(s, #[trigger] nodes[k], n) {
            let k = choose|k: int| 0 <= k < nodes.len() && is_made_from(s, #[trigger] nodes[k], n);
            let v = choose|v: Seq<NodeId>| #[trigger]
                crate::clean::is_supply_line(s, v) && v.len() > 1 && v[0] == nodes[k] && v.last()
                    == n;
            assert(inputs_seen(s, d.visited, nodes[k].0 as int));
            lemma_line_visited(s, d.visited, v, v.len() - 1);
        }
    }
}

proof fn lemma_line_visited(s: StateView, visited: Seq<bool>, v: Seq<NodeId>, j: int)
    requires
        s.wf(),
        visited.len() == s.nodes.len(),
        crate::clean::is_supply_line(s, v),
        0 <= j < v.len(),
        v[0].0 < s.nodes.len(),
        inputs_seen(s, visited, v[0].0 as int),
        forall|n: int|
            0 <= n < s.nodes.len() && #[trigger] visited[n] ==> inputs_seen(s, visited, n),
    ensures
        v[j].0 < s.nodes.len(),
        inputs_seen(s, visited, v[j].0 as int),
        j > 0 ==> visited[v[j].0 as int],
    decreases j,
{
    if j > 0 {
        lemma_line_visited(s, visited, v, j - 1);
        let n = v[j - 1].0 as int;
        assert(s.nodes[v[j - 1].0 as int].in_edge is Some);
        let e = s.nodes[n].in_edge->0;
        assert(s.node_ok(s.nodes[n]));
        assert(s.edge_ok(s.edges[e.0 as int]));
        let inputs = s.edges[e.0 as int].inputs;
        assert(inputs.contains(v[j - 1 + 1]));
        let i = choose|i: int| 0 <= i < inputs.len() && inputs[i] == v[j];
        assert(visited[s.edges[e.0 as int].inputs[i].0 as int]);
    }
}

/// Whether `c` holds what was gathered for nodes of a list, the first `k` of them done.
spec fn is_collected(c: CollectorView, s: StateView, nodes: Seq<NodeId>, k: int) -> bool {
    &&& c.inputs.no_duplicates()
    &&& forall|n: NodeId| #[trigger]
        c.inputs.contains(n) <==> n.0 < c.visited.len() && c.visited[n.0 as int]
            && !is_phony_output(s, n)
    &&& forall|n: int|
        0 <= n < c.visited.len() && #[trigger] c.visited[n] ==> inputs_seen(s, c.visited, n)
    &&& forall|n: NodeId|
        n.0 < c.visited.len() && #[trigger] c.visited[n.0 as int] ==> exists|j: int|
            0 <= j < nodes.len() && is_made_from(s, #[trigger] nodes[j], n)
    &&& forall|j: int| 0 <= j < k ==> inputs_seen(s, c.visited, (#[trigger] nodes[j]).0 as int)
}

proof fn lemma_listed_with_more(
    c: CollectorView,
    d: CollectorView,
    s: StateView,
    w: Seq<NodeId>,
    node: NodeId,
)
    requires
        is_gathered(c, d, s, w, node),
        c.inputs.no_duplicates(),
        forall|n: NodeId| #[trigger]
            c.inputs.contains(n) <==> n.0 < c.visited.len() && c.visited[n.0 as int]
                && !is_phony_output(s, n),
    ensures
        d.inputs.no_duplicates(),
        forall|n: NodeId| #[trigger]
            d.inputs.contains(n) <==> n.0 < d.visited.len() && d.visited[n.0 as int]
                && !is_phony_output(s, n),
{
    assert forall|n: NodeId| c.inputs.contains(n) implies !#[trigger] w.contains(n) by {
        assert(c.inputs.contains(n));
    }
    lemma_joined_lists(c.inputs, w);
    assert(d.inputs == c.inputs + w);
    assert forall|n: NodeId| #[trigger]
        d.inputs.contains(n) <==> n.0 < d.visited.len() && d.visited[n.0 as int]
            && !is_phony_output(s, n) by {
        assert((c.inputs + w).contains(n) <==> c.inputs.contains(n) || w.contains(n));
        if n.0 < s.nodes.len() {
            assert(c.visited[n.0 as int] ==> d.visited[n.0 as int]);
        }
    }
}

proof fn lemma_collected_more(
    c: CollectorView,
    d: CollectorView,
    s: StateView,
    w: Seq<NodeId>,
    nodes: Seq<NodeId>,
    k: int,
)
    requires
        s.wf(),
        s.nodes.len() <= usize::MAX,
        nodes_below(nodes, s.nodes.len()),
        0 <= k < nodes.len(),
        is_gathered(c, d, s, w, nodes[k]),
        is_collected(c, s, nodes, k),
        inputs_seen(s, d.visited, nodes[k].0 as int),
    ensures
        is_collected(d, s, nodes, k + 1),
{
    lemma_listed_with_more(c, d, s, w, nodes[k]);
    assert forall|n: int| 0 <= n < d.visited.len() && #[trigger] d.visited[n] implies inputs_seen(
        s,
        d.visited,
        n,
    ) by {
        if c.visited[n] {
            lemma_inputs_seen_later(s, c.visited, d.visited, n);
        } else {
            lemma_new_inputs_seen(c, d, s, w, nodes[k], n);
        }
    }
    assert forall|n: NodeId|
        n.0 < d.visited.len() && #[trigger] d.visited[n.0 as int] implies exists|j: int|
        0 <= j < nodes.len() && is_made_from(s, #[trigger] nodes[j], n) by {
        if !c.visited[n.0 as int] {
            assert(is_made_from(s, nodes[k], n));
        }
    }
    assert forall|j: int| 0 <= j < k + 1 implies inputs_seen(
        s,
        d.visited,
        (#[trigger] nodes[j]).0 as int,
    ) by {
        if j < k {
            lemma_inputs_seen_later(s, c.visited, d.visited, nodes[j].0 as int);
        }
    }
}

proof fn lemma_all_gathered(c: CollectorView, s: StateView, nodes: Seq<NodeId>, k: int)
    requires
        s.wf(),
        s.nodes.len() <= usize::MAX,
        nodes_below(nodes, s.nodes.len()),
        0 <= k <= nodes.len(),
        c.visited.len() == s.nodes.len() || (k == 0 && c == nothing_visited()),
        is_collected(c, s, nodes, k),
    ensures
        nodes.len() > 0 ==> all_visited(c, s, nodes, k).visited.len() == s.nodes.len(),
        is_collected(all_visited(c, s, nodes, k), s, nodes, nodes.len() as int),
    decreases nodes.len() - k,
{
    if k < nodes.len() {
        let b = CollectorView { visited: padded(c.visited, s.nodes.len()), ..c };
        assert(b.visited.len() == s.nodes.len());
        if c.visited.len() == s.nodes.len() {
            assert(b.visited =~= c.visited);
        }
        assert(is_collected(b, s, nodes, k));
        lemma_unseen_at_most(b.visited);
        let w = lemma_node_gathered(b, s, nodes[k], b.visited.len());
        let d = c.visit_of(s, nodes[k]);
        assert(d == node_visited(b, s, nodes[k], b.visited.len()));
        lemma_collected_more(b, d, s, w, nodes, k);
        lemma_all_gathered(d, s, nodes, k + 1);
    }
}

proof fn lemma_new_inputs_seen(
    b: CollectorView,
    d: CollectorView,
    s: StateView,
    w: Seq<NodeId>,
    node: NodeId,
    n: int,
)
    requires
        is_gathered(b, d, s, w, node),
        0 <= n < s.nodes.len() <= usize::MAX,
        d.visited[n],
        !b.visited[n],
    ensures
        inputs_seen(s, d.visited, n),
{
    let x = NodeId(n as usize);
    assert(x.0 == n);
    assert(is_made_from(s, node, x));
}

} // verus!
