//! Listing targets and rules (`-t targets`, `-t rules`).

use vstd::prelude::*;
use vstd::string::*;

use crate::error::Error;
use crate::state::{EdgeId, NodeId, State};
use crate::text::{insert_ascending, str_eq};

verus! {

use crate::error::ErrorView;
use crate::eval::{bound_value, root_scope, source_form, RuleId};
use crate::state::{nodes_below, path_of, StateView};
use crate::text::{in_ascending_order, lemma_lists_once, lists, texts};

/// `acc` indented by so many levels.
pub open spec fn indented(acc: Seq<char>, levels: nat) -> Seq<char>
    decreases levels,
{
    if levels == 0 {
        acc
    } else {
        indented(acc + "  "@, (levels - 1) as nat)
    }
}

/// Whether the inputs of what is listed are listed too: 0 or less stands for
/// any depth.
pub open spec fn goes_deeper(depth: i32) -> bool {
    depth > 1 || depth <= 0
}

/// The depth that is left a level deeper.
pub open spec fn depth_below(depth: i32) -> i32 {
    if depth > 0 {
        (depth - 1) as i32
    } else {
        depth
    }
}

/// `acc` with the tree of what the nodes from the `k`-th on are built from
/// behind it. At most `levels` nodes can be nested.
pub open spec fn with_tree(
    acc: Seq<char>,
    s: StateView,
    nodes: Seq<NodeId>,
    depth: i32,
    indent: nat,
    k: int,
    levels: nat,
) -> Seq<char>
    decreases levels, nodes.len() - k,
{
    if 0 <= k < nodes.len() {
        let named = indented(acc, indent) + path_of(s, nodes[k]);
        let text = match s.nodes[nodes[k].0 as int].in_edge {
            None => named + "\n"@,
            Some(e) => {
                let line = named + ": "@ + s.rule_of(e.0 as int).name + "\n"@;
                if goes_deeper(depth) && levels > 0 {
                    with_tree(
                        line,
                        s,
                        s.edges[e.0 as int].inputs,
                        depth_below(depth),
                        indent + 1,
                        0,
                        (levels - 1) as nat,
                    )
                } else {
                    line
                }
            },
        };
        with_tree(text, s, nodes, depth, indent, k + 1, levels)
    } else {
        acc
    }
}

/// How many levels of a tree can be told: as many as are asked for or, where
/// that is any number, as many as there are nodes.
pub open spec fn levels_told(s: StateView, depth: i32) -> nat {
    if depth > 0 {
        depth as nat
    } else {
        s.nodes.len()
    }
}

fn push_indent(out: &mut String, levels: usize)
    ensures
        final(out)@ == indented(old(out)@, levels as nat),
{
    let ghost want = indented(out@, levels as nat);
    let mut left: usize = levels;
    while left > 0
        invariant
            indented(out@, left as nat) == want,
        decreases left,
    {
        out.append("  ");
        left -= 1;
    }
}

fn targets_list(
    state: &State,
    nodes: &[NodeId],
    depth: i32,
    indent: usize,
    levels: usize,
    out: &mut String,
)
    requires
        state.wf(),
        nodes_below(nodes@, state@.nodes.len()),
        indent + levels <= usize::MAX,
    ensures
        final(out)@ == with_tree(
            old(out)@,
            state@,
            nodes@,
            depth,
            indent as nat,
            0,
            levels as nat,
        ),
    decreases levels,
{
    let ghost want = with_tree(out@, state@, nodes@, depth, indent as nat, 0, levels as nat);
    let mut k: usize = 0;
    while k < nodes.len()
        invariant
            k <= nodes@.len(),
            state.wf(),
            nodes_below(nodes@, state@.nodes.len()),
            indent + levels <= usize::MAX,
            with_tree(
                out@,
                state@,
                nodes@,
                depth,
                indent as nat,
                k as int,
                levels as nat,
            ) == want,
        decreases nodes@.len() - k,
    {
        let n = state.node(nodes[k]);
        proof {
            state.lemma_wf();
            assert(state@.node_ok(state@.nodes[nodes@[k as int].0 as int]));
        }
        push_indent(out, indent);
        out.append(n.path());
        match n.in_edge() {
            Some(edge) => {
                proof {
                    assert(state@.edge_ok(state@.edges[edge.0 as int]));
                }
                out.append(": ");
                out.append(state.edge_rule_name(edge));
                out.append("\n");
                if (depth > 1 || depth <= 0) && levels > 0 {
                    let below: i32 = if depth > 0 {
                        depth - 1
                    } else {
                        depth
                    };
                    targets_list(
                        state,
                        state.edge(edge).inputs(),
                        below,
                        indent + 1,
                        levels - 1,
                        out,
                    );
                }
            },
            None => {
                out.append("\n");
            },
        }
        k += 1;
    }
}

/// `-t targets` with no arguments, or `depth N`: targets by depth in the DAG.
pub fn targets_by_depth(state: &State, depth: i32) -> (r: Result<String, Error>)
    requires
        state.wf(),
    ensures
        match (r, state@.root_targets()) {
            (Ok(text), Ok(roots)) => text@ == with_tree(
                Seq::empty(),
                state@,
                roots,
                depth,
                0,
                0,
                levels_told(state@, depth),
            ),
            (Err(e), Err(m)) => e@ == ErrorView::Build(m),
            _ => false,
        },
{
    match state.root_nodes() {
        Err(m) => Err(Error::Build(m)),
        Ok(roots) => {
            let mut out = String::new();
            assert(out@ =~= Seq::empty());
            let levels: usize = if depth > 0 {
                depth as usize
            } else {
                state.node_count()
            };
            targets_list(state, roots.as_slice(), depth, 0, levels, &mut out);
            Ok(out)
        },
    }
}

/// `acc` with a line for each of the outputs from the `k`-th on behind it, with
/// the name of the rule that makes it.
pub open spec fn with_made(
    acc: Seq<char>,
    s: StateView,
    outputs: Seq<NodeId>,
    rule: Seq<char>,
    k: int,
) -> Seq<char>
    decreases outputs.len() - k,
{
    if 0 <= k < outputs.len() {
        with_made(
            acc + path_of(s, outputs[k]) + ": "@ + rule + "\n"@,
            s,
            outputs,
            rule,
            k + 1,
        )
    } else {
        acc
    }
}

/// The same for the edges from the `k`-th on.
pub open spec fn with_all_made(acc: Seq<char>, s: StateView, k: int) -> Seq<char>
    decreases s.edges.len() - k,
{
    if 0 <= k < s.edges.len() {
        with_all_made(
            with_made(acc, s, s.edges[k].outputs, s.rule_of(k).name, 0),
            s,
            k + 1,
        )
    } else {
        acc
    }
}

fn push_made(out: &mut String, state: &State, edge: EdgeId)
    requires
        state.wf(),
        edge.0 < state@.edges.len(),
    ensures
        final(out)@ == with_made(
            old(out)@,
            state@,
            state@.edges[edge.0 as int].outputs,
            state@.rule_of(edge.0 as int).name,
            0,
        ),
{
    let outputs = state.edge(edge).outputs();
    let rule = state.edge_rule_name(edge);
    let ghost want = with_made(out@, state@, outputs@, rule@, 0);
    proof {
        state.lemma_wf();
        assert(state@.edge_ok(state@.edges[edge.0 as int]));
    }
    let mut k: usize = 0;
    while k < outputs.len()
        invariant
            k <= outputs@.len(),
            nodes_below(outputs@, state@.nodes.len()),
            with_made(out@, state@, outputs@, rule@, k as int) == want,
        decreases outputs@.len() - k,
    {
        out.append(state.node(outputs[k]).path());
        out.append(": ");
        out.append(rule);
        out.append("\n");
        k += 1;
    }
}

/// `-t targets all`: every output and the rule that makes it.
pub fn targets_all(state: &State) -> (r: String)
    requires
        state.wf(),
    ensures
        r@ == with_all_made(Seq::empty(), state@, 0),
{
    let mut out = String::new();
    assert(out@ =~= Seq::empty());
    let ghost want = with_all_made(out@, state@, 0);
    let n: usize = state.edge_count();
    let mut k: usize = 0;
    while k < n
        invariant
            k <= n,
            n == state@.edges.len(),
            state.wf(),
            with_all_made(out@, state@, k as int) == want,
        decreases n - k,
    {
        push_made(&mut out, state, EdgeId(k));
        k += 1;
    }
    out
}

/// Whether `path` is an output of the edge at `e`.
pub open spec fn is_output(s: StateView, e: int, path: Seq<char>) -> bool {
    exists|i: int|
        0 <= i < s.edges[e].outputs.len() && path_of(s, #[trigger] s.edges[e].outputs[i]) == path
}

/// The outputs that a rule produces.
pub open spec fn rule_outputs(s: StateView, rule: Seq<char>) -> Set<Seq<char>> {
    rule_outputs_to(s, rule, s.edges.len() as int)
}

/// The same for the first `n` edges.
pub open spec fn rule_outputs_to(s: StateView, rule: Seq<char>, n: int) -> Set<Seq<char>> {
    Set::new(
        |p: Seq<char>|
            exists|e: int| 0 <= e < n && s.rule_of(e).name == rule && #[trigger] is_output(s, e, p),
    )
}

/// The lines of texts.
pub open spec fn lines_of(v: Seq<Seq<char>>) -> Seq<char> {
    lines_from(Seq::empty(), v, 0)
}

/// `acc` with the lines of the texts from the `k`-th on behind it.
pub open spec fn lines_from(acc: Seq<char>, v: Seq<Seq<char>>, k: int) -> Seq<char>
    decreases v.len() - k,
{
    if 0 <= k < v.len() {
        lines_from(acc + v[k] + "\n"@, v, k + 1)
    } else {
        acc
    }
}

fn lines(v: &Vec<String>) -> (r: String)
    ensures
        r@ == lines_of(texts(v@)),
{
    let ghost t = texts(v@);
    let mut out = String::new();
    assert(out@ =~= Seq::empty());
    let mut k: usize = 0;
    while k < v.len()
        invariant
            k <= v@.len(),
            t == texts(v@),
            lines_from(out@, t, k as int) == lines_of(t),
        decreases v@.len() - k,
    {
        assert(t[k as int] == v@[k as int]@);
        out.append(v[k].as_str());
        out.append("\n");
        k += 1;
    }
    out
}

fn insert_outputs(v: &mut Vec<String>, state: &State, edge: EdgeId, Ghost(set): Ghost<
    Set<Seq<char>>,
>)
    requires
        state.wf(),
        edge.0 < state@.edges.len(),
        lists(texts(old(v)@), set),
    ensures
        lists(
            texts(final(v)@),
            set.union(Set::new(|p: Seq<char>| is_output(state@, edge.0 as int, p))),
        ),
{
    let ghost e = edge.0 as int;
    let outputs = state.edge(edge).outputs();
    proof {
        state.lemma_wf();
        assert(state@.edge_ok(state@.edges[edge.0 as int]));
    }
    let mut i: usize = 0;
    let ghost mut now = set;
    while i < outputs.len()
        invariant
            i <= outputs@.len(),
            e == edge.0,
            outputs@ == state@.edges[e].outputs,
            nodes_below(outputs@, state@.nodes.len()),
            lists(texts(v@), now),
            forall|p: Seq<char>| #[trigger]
                now.contains(p) <==> (set.contains(p) || exists|j: int|
                    0 <= j < i && path_of(state@, #[trigger] outputs@[j]) == p),
        decreases outputs@.len() - i,
    {
        let ghost before = now;
        let path: String = state.node(outputs[i]).path().to_owned();
        let ghost added = path@;
        insert_ascending(v, path);
        proof {
            now = now.insert(added);
            assert(added == path_of(state@, outputs@[i as int]));
            assert forall|p: Seq<char>| #[trigger] now.contains(p) <==> (set.contains(p)
                || exists|j: int|
                0 <= j < i + 1 && path_of(state@, #[trigger] outputs@[j]) == p) by {
                if before.contains(p) && !set.contains(p) {
                    let j = choose|j: int|
                        0 <= j < i && path_of(state@, #[trigger] outputs@[j]) == p;
                    assert(path_of(state@, outputs@[j]) == p);
                }
            }
        }
        i += 1;
    }
    assert(now =~= set.union(Set::new(|p: Seq<char>| is_output(state@, e, p)))) by {
        assert forall|p: Seq<char>| now.contains(p) <==> (set.contains(p) || is_output(
            state@,
            e,
            p,
        )) by {}
    }
}

/// `-t targets rule NAME`: outputs produced by a given rule.
pub fn targets_by_rule(state: &State, rule_name: &str) -> (r: String)
    requires
        state.wf(),
    ensures
        r@ == lines_of(in_ascending_order(rule_outputs(state@, rule_name@))),
{
    let ghost s = state@;
    let ghost rule = rule_name@;
    let mut paths: Vec<String> = Vec::new();
    proof {
        assert(texts(paths@) =~= Seq::empty());
        assert(rule_outputs_to(s, rule, 0) =~= Set::empty());
    }
    let n: usize = state.edge_count();
    let mut k: usize = 0;
    while k < n
        invariant
            k <= n,
            s == state@,
            rule == rule_name@,
            n == s.edges.len(),
            state.wf(),
            lists(texts(paths@), rule_outputs_to(s, rule, k as int)),
        decreases n - k,
    {
        let edge = EdgeId(k);
        let ghost before = rule_outputs_to(s, rule, k as int);
        let ghost after = rule_outputs_to(s, rule, k + 1);
        if str_eq(state.edge_rule_name(edge), rule_name) {
            insert_outputs(&mut paths, state, edge, Ghost(before));
            proof {
                let own = Set::new(|p: Seq<char>| is_output(s, k as int, p));
                assert(after =~= before.union(own)) by {
                    assert forall|p: Seq<char>| after.contains(p) <==> (before.contains(p)
                        || own.contains(p)) by {
                        if own.contains(p) {
                            assert(is_output(s, k as int, p));
                        }
                        if before.contains(p) {
                            let e = choose|e: int|
                                0 <= e < k && s.rule_of(e).name == rule && #[trigger] is_output(
                                    s,
                                    e,
                                    p,
                                );
                            assert(is_output(s, e, p));
                        }
                    }
                }
            }
        } else {
            proof {
                assert(after =~= before) by {
                    assert forall|p: Seq<char>| after.contains(p) <==> before.contains(p) by {
                        if before.contains(p) {
                            let e = choose|e: int|
                                0 <= e < k && s.rule_of(e).name == rule && #[trigger] is_output(
                                    s,
                                    e,
                                    p,
                                );
                            assert(is_output(s, e, p));
                        }
                    }
                }
            }
        }
        k += 1;
    }
    proof {
        let set = rule_outputs(s, rule);
        lemma_lists_once(texts(paths@), in_ascending_order(set), set);
    }
    lines(&paths)
}

/// `acc` with a line for each of the nodes from the `k`-th on that nothing
/// produces behind it.
pub open spec fn with_sources(acc: Seq<char>, s: StateView, nodes: Seq<NodeId>, k: int) -> Seq<char>
    decreases nodes.len() - k,
{
    if 0 <= k < nodes.len() {
        with_sources(
            if s.nodes[nodes[k].0 as int].in_edge is None {
                acc + path_of(s, nodes[k]) + "\n"@
            } else {
                acc
            },
            s,
            nodes,
            k + 1,
        )
    } else {
        acc
    }
}

/// The same for the inputs of the edges from the `k`-th on.
pub open spec fn with_all_sources(acc: Seq<char>, s: StateView, k: int) -> Seq<char>
    decreases s.edges.len() - k,
{
    if 0 <= k < s.edges.len() {
        with_all_sources(with_sources(acc, s, s.edges[k].inputs, 0), s, k + 1)
    } else {
        acc
    }
}

fn push_sources(out: &mut String, state: &State, edge: EdgeId)
    requires
        state.wf(),
        edge.0 < state@.edges.len(),
    ensures
        final(out)@ == with_sources(old(out)@, state@, state@.edges[edge.0 as int].inputs, 0),
{
    let inputs = state.edge(edge).inputs();
    let ghost want = with_sources(out@, state@, inputs@, 0);
    proof {
        state.lemma_wf();
        assert(state@.edge_ok(state@.edges[edge.0 as int]));
    }
    let mut k: usize = 0;
    while k < inputs.len()
        invariant
            k <= inputs@.len(),
            nodes_below(inputs@, state@.nodes.len()),
            with_sources(out@, state@, inputs@, k as int) == want,
        decreases inputs@.len() - k,
    {
        let n = state.node(inputs[k]);
        if n.in_edge().is_none() {
            out.append(n.path());
            out.append("\n");
        }
        k += 1;
    }
}

/// `-t targets rule` with no rule: all source files.
pub fn targets_source_list(state: &State) -> (r: String)
    requires
        state.wf(),
    ensures
        r@ == with_all_sources(Seq::empty(), state@, 0),
{
    let mut out = String::new();
    assert(out@ =~= Seq::empty());
    let ghost want = with_all_sources(out@, state@, 0);
    let n: usize = state.edge_count();
    let mut k: usize = 0;
    while k < n
        invariant
            k <= n,
            n == state@.edges.len(),
            state.wf(),
            with_all_sources(out@, state@, k as int) == want,
        decreases n - k,
    {
        push_sources(&mut out, state, EdgeId(k));
        k += 1;
    }
    out
}

/// `acc` with a line for the rule `name` behind it.
pub open spec fn with_rule_line(acc: Seq<char>, s: StateView, name: Seq<char>, described: bool) -> Seq<
    char,
> {
    let id = s.scopes.scopes[0].rules[name];
    let named = acc + name;
    match bound_value(s.scopes.rules[id.0 as int].bindings, "description"@) {
        Some(d) => if described {
            named + ": "@ + source_form(d) + "\n"@
        } else {
            named + "\n"@
        },
        None => named + "\n"@,
    }
}

/// The same for the rules from the `k`-th on.
pub open spec fn with_rule_lines(
    acc: Seq<char>,
    s: StateView,
    names: Seq<Seq<char>>,
    described: bool,
    k: int,
) -> Seq<char>
    decreases names.len() - k,
{
    if 0 <= k < names.len() {
        with_rule_lines(with_rule_line(acc, s, names[k], described), s, names, described, k + 1)
    } else {
        acc
    }
}

/// The names of rules.
pub open spec fn names_of(v: Seq<(String, RuleId)>) -> Seq<Seq<char>> {
    Seq::new(v.len(), |i: int| v[i].0@)
}

/// `-t rules`: every rule name, optionally with its description.
pub fn rules(state: &State, with_description: bool) -> (r: String)
    requires
        state.wf(),
    ensures
        r@ == with_rule_lines(
            Seq::empty(),
            state@,
            in_ascending_order(state@.scopes.scopes[0].rules.dom()),
            with_description,
            0,
        ),
{
    proof {
        state.lemma_wf();
    }
    let scopes = state.scopes();
    let found = scopes.rules_in(root_scope());
    let ghost names = names_of(found@);
    let ghost set = state@.scopes.scopes[0].rules.dom();
    proof {
        assert forall|t: Seq<char>| #[trigger] names.contains(t) <==> set.contains(t) by {
            if names.contains(t) {
                let i = choose|i: int| 0 <= i < names.len() && names[i] == t;
                assert(found@[i].0@ == t);
            }
            if set.contains(t) {
                assert(state@.scopes.scopes[0].rules.contains_key(t));
                let i = choose|i: int| 0 <= i < found.len() && (#[trigger] found@[i]).0@ == t;
                assert(names[i] == t);
            }
        }
        assert(lists(names, set));
        lemma_lists_once(names, in_ascending_order(set), set);
    }
    let mut out = String::new();
    assert(out@ =~= Seq::empty());
    let ghost want = with_rule_lines(out@, state@, names, with_description, 0);
    let mut k: usize = 0;
    while k < found.len()
        invariant
            k <= found@.len(),
            names == names_of(found@),
            state.wf(),
            scopes.wf(),
            scopes@ == state@.scopes,
            state@.scopes.wf(),
            forall|i: int|
                0 <= i < found.len() ==> state@.scopes.scopes[0].rules.contains_key(
                    (#[trigger] found@[i]).0@,
                ) && state@.scopes.scopes[0].rules[found@[i].0@] == found@[i].1,
            with_rule_lines(out@, state@, names, with_description, k as int) == want,
        decreases found@.len() - k,
    {
        let ghost before = out@;
        assert(names[k as int] == found@[k as int].0@);
        assert(state@.scopes.scopes[0].rules.contains_key(names[k as int]));
        out.append(found[k].0.as_str());
        let id = found[k].1;
        if with_description {
            if let Some(d) = scopes.rule(id).binding("description") {
                out.append(": ");
                out.append(d.unparse().as_str());
            }
        }
        out.append("\n");
        assert(out@ == with_rule_line(before, state@, names[k as int], with_description));
        k += 1;
    }
    out
}

} // verus!
