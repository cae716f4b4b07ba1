//! Compilation databases (`-t compdb`, `-t compdb-targets`).

use vstd::prelude::*;
use vstd::string::*;

use crate::error::Error;
use crate::escape::encode_json_string;
use crate::state::{EdgeId, NodeId, State};
use crate::text::{chars_of, str_eq, string_of};
use crate::tools::walk::{none_seen, push_all};

verus! {

use crate::escape::json_spelling;
use crate::eval::phony_rule;
use crate::msvc::stands_at;
use crate::plan::{lemma_unseen, unseen};
use crate::state::{nodes_below, path_of, Escape, StateView};
use crate::text::{flat_map, texts};
use crate::tools::walk::none_of;

/// The first place from `k` on where `t` stands in `s`.
pub open spec fn first_place(s: Seq<char>, t: Seq<char>, k: int) -> Option<int>
    decreases s.len() - k,
{
    if 0 <= k && k + t.len() <= s.len() {
        if stands_at(s, k, t) {
            Some(k)
        } else if k < s.len() {
            first_place(s, t, k + 1)
        } else {
            None
        }
    } else {
        None
    }
}

/// How many characters in front of position `i` of a command belong to a
/// reference to the response file there, if it is one.
pub open spec fn reference_start(command: Seq<char>, i: int) -> Option<int> {
    let before = command.take(i);
    if stands_at(before, i - 1, "@"@) {
        Some(i - 1)
    } else if stands_at(before, i - "-f "@.len(), "-f "@) {
        Some(i - "-f "@.len())
    } else if stands_at(before, i - "--option-file="@.len(), "--option-file="@) {
        Some(i - "--option-file="@.len())
    } else {
        None
    }
}

/// A text with spaces for line ends.
pub open spec fn on_one_line(s: Seq<char>) -> Seq<char> {
    Seq::new(
        s.len(),
        |i: int|
            if s[i] == '\n' {
                ' '
            } else {
                s[i]
            },
    )
}

/// The command of an edge, with the content of the response file in place of
/// the reference to it.
pub open spec fn expanded_command(s: StateView, edge: EdgeId) -> Seq<char> {
    let e = edge.0 as int;
    let command = s.binding(e, "command"@, Escape::Shell);
    let rspfile = s.binding(e, "rspfile"@, Escape::Plain);
    let content = on_one_line(s.binding(e, "rspfile_content"@, Escape::Shell));
    match first_place(command, rspfile, 0) {
        None => command,
        Some(i) => if rspfile.len() == 0 || i == 0 {
            command
        } else {
            match reference_start(command, i) {
                None => command,
                Some(j) => command.take(j) + content + command.skip(i + rspfile.len()),
            }
        },
    }
}

fn text_at(v: &Vec<char>, i: usize, t: &Vec<char>) -> (r: bool)
    requires
        i <= v@.len(),
    ensures
        r == stands_at(v@, i as int, t@),
{
    if t.len() > v.len() - i {
        return false;
    }
    let mut k: usize = 0;
    let n: usize = v.len();
    while k < t.len()
        invariant
            k <= t@.len(),
            n == v@.len(),
            i + t@.len() <= n,
            forall|j: int| 0 <= j < k ==> v@[i + j] == t@[j],
        decreases t@.len() - k,
    {
        if v[i + k] != t[k] {
            assert(v@.subrange(i as int, i + t@.len())[k as int] != t@[k as int]);
            return false;
        }
        k += 1;
    }
    assert(v@.subrange(i as int, i + t@.len()) =~= t@);
    true
}

fn find_text(v: &Vec<char>, t: &Vec<char>) -> (r: Option<usize>)
    ensures
        match (r, first_place(v@, t@, 0)) {
            (Some(i), Some(j)) => i == j && i + t@.len() <= v@.len(),
            (None, None) => true,
            _ => false,
        },
{
    let mut k: usize = 0;
    while k <= v.len() && t.len() <= v.len() - k
        invariant
            k <= v@.len(),
            first_place(v@, t@, k as int) == first_place(v@, t@, 0),
        decreases v@.len() + 1 - k,
    {
        if text_at(v, k, t) {
            return Some(k);
        }
        if k == v.len() {
            return None;
        }
        k += 1;
    }
    None
}

/// Whether `t` stands directly in front of position `i`.
fn stands_before(v: &Vec<char>, i: usize, t: &str) -> (r: Option<usize>)
    requires
        i <= v@.len(),
    ensures
        match r {
            Some(j) => stands_at(v@.take(i as int), i - t@.len(), t@) && j == i - t@.len(),
            None => !stands_at(v@.take(i as int), i - t@.len(), t@),
        },
{
    let w = chars_of(t);
    if w.len() > i {
        return None;
    }
    let at: usize = i - w.len();
    proof {
        assert(v@.take(i as int).subrange(at as int, i as int) =~= v@.subrange(
            at as int,
            i as int,
        ));
    }
    if text_at(v, at, &w) {
        Some(at)
    } else {
        None
    }
}

fn find_reference(v: &Vec<char>, i: usize) -> (r: Option<usize>)
    requires
        i <= v@.len(),
    ensures
        match (r, reference_start(v@, i as int)) {
            (Some(a), Some(b)) => a == b && a <= i,
            (None, None) => true,
            _ => false,
        },
{
    proof {
        reveal_strlit("@");
    }
    if let Some(j) = stands_before(v, i, "@") {
        return Some(j);
    }
    if let Some(j) = stands_before(v, i, "-f ") {
        return Some(j);
    }
    stands_before(v, i, "--option-file=")
}

fn push_on_one_line(out: &mut String, text: &str)
    ensures
        final(out)@ == old(out)@ + on_one_line(text@),
{
    let v = chars_of(text);
    let ghost all = on_one_line(text@);
    let mut k: usize = 0;
    assert(out@ =~= old(out)@ + all.take(0));
    while k < v.len()
        invariant
            k <= v@.len(),
            v@ == text@,
            all == on_one_line(text@),
            out@ == old(out)@ + all.take(k as int),
        decreases v@.len() - k,
    {
        out.push(
            if v[k] == '\n' {
                ' '
            } else {
                v[k]
            },
        );
        k += 1;
        assert(out@ =~= old(out)@ + all.take(k as int));
    }
    assert(all.take(k as int) =~= all);
}

/// Replace an `@rspfile` reference in a command with the response file's
/// contents, as `-t compdb -x` does.
pub fn command_with_rspfile_expanded(state: &State, edge: EdgeId) -> (r: String)
    requires
        state.wf(),
        edge.0 < state@.edges.len(),
    ensures
        r@ == expanded_command(state@, edge),
{
    let command = state.edge_command(edge);
    let rspfile = state.edge_rspfile(edge);
    if rspfile.as_str().is_empty() {
        return command;
    }
    let v = chars_of(command.as_str());
    let t = chars_of(rspfile.as_str());
    let i: usize = match find_text(&v, &t) {
        None => {
            return command;
        },
        Some(i) => i,
    };
    if i == 0 {
        return command;
    }
    match find_reference(&v, i) {
        None => command,
        Some(j) => {
            let content = state.edge_binding(edge, "rspfile_content");
            let end: usize = v.len();
            let mut out = string_of(&v, 0, j);
            push_on_one_line(&mut out, content.as_str());
            out.append(string_of(&v, i + t.len(), end).as_str());
            proof {
                assert(v@.subrange(0, j as int) =~= command@.take(j as int));
                assert(v@.subrange(i + t@.len(), v@.len() as int) =~= command@.skip(
                    i + t@.len(),
                ));
            }
            out
        },
    }
}

/// A text as JSON.
pub open spec fn json(s: Seq<char>) -> Seq<char> {
    flat_map(s, json_spelling())
}

/// `acc` with the entry for an edge behind it.
pub open spec fn with_entry(
    acc: Seq<char>,
    s: StateView,
    edge: EdgeId,
    expand: bool,
    directory: Seq<char>,
) -> Seq<char> {
    let e = s.edges[edge.0 as int];
    let command = if expand {
        expanded_command(s, edge)
    } else {
        s.binding(edge.0 as int, "command"@, Escape::Shell)
    };
    acc + "\n  {\n    \"directory\": \""@ + json(directory) + "\",\n    \"command\": \""@ + json(
        command,
    ) + "\",\n    \"file\": \""@ + json(path_of(s, e.inputs[0])) + "\",\n    \"output\": \""@
        + json(path_of(s, e.outputs[0])) + "\"\n  }"@
}

/// `acc` with the entries for those of the edges from the `k`-th on that are
/// chosen behind it, separated by commas.
pub open spec fn with_entries(
    acc: Seq<char>,
    s: StateView,
    chosen: spec_fn(int) -> bool,
    expand: bool,
    directory: Seq<char>,
    first: bool,
    k: int,
) -> Seq<char>
    decreases s.edges.len() - k,
{
    if 0 <= k < s.edges.len() {
        if chosen(k) {
            with_entries(
                with_entry(
                    if first {
                        acc
                    } else {
                        acc.push(',')
                    },
                    s,
                    EdgeId(k as usize),
                    expand,
                    directory,
                ),
                s,
                chosen,
                expand,
                directory,
                false,
                k + 1,
            )
        } else {
            with_entries(acc, s, chosen, expand, directory, first, k + 1)
        }
    } else {
        acc
    }
}

/// The database with the chosen edges, in manifest order.
pub open spec fn database(
    s: StateView,
    chosen: spec_fn(int) -> bool,
    expand: bool,
    directory: Seq<char>,
) -> Seq<char> {
    with_entries("["@, s, chosen, expand, directory, true, 0) + "\n]\n"@
}

/// Chooses the edges with an input and an output that use one of the rules, or
/// any where no rule is given.
pub open spec fn uses_one_of(s: StateView, rules: Seq<Seq<char>>) -> spec_fn(int) -> bool {
    |k: int|
        s.edges[k].inputs.len() > 0 && s.edges[k].outputs.len() > 0 && (rules.len() == 0
            || rules.contains(s.rule_of(k).name))
}

fn push_entry(out: &mut String, state: &State, edge: EdgeId, expand: bool, directory: &str)
    requires
        state.wf(),
        edge.0 < state@.edges.len(),
        state@.edges[edge.0 as int].inputs.len() > 0,
        state@.edges[edge.0 as int].outputs.len() > 0,
    ensures
        final(out)@ == with_entry(old(out)@, state@, edge, expand, directory@),
{
    proof {
        state.lemma_wf();
        assert(state@.edge_ok(state@.edges[edge.0 as int]));
    }
    let command = if expand {
        command_with_rspfile_expanded(state, edge)
    } else {
        state.edge_command(edge)
    };
    let e = state.edge(edge);
    out.append("\n  {\n    \"directory\": \"");
    out.append(encode_json_string(directory).as_str());
    out.append("\",\n    \"command\": \"");
    out.append(encode_json_string(command.as_str()).as_str());
    out.append("\",\n    \"file\": \"");
    out.append(encode_json_string(state.node(e.inputs()[0]).path()).as_str());
    out.append("\",\n    \"output\": \"");
    out.append(encode_json_string(state.node(e.outputs()[0]).path()).as_str());
    out.append("\"\n  }");
}

fn holds_name(names: &[String], name: &str) -> (r: bool)
    ensures
        r == texts(names@).contains(name@),
{
    let ghost t = texts(names@);
    let mut k: usize = 0;
    while k < names.len()
        invariant
            k <= names@.len(),
            t == texts(names@),
            forall|j: int| 0 <= j < k ==> t[j] != name@,
        decreases names@.len() - k,
    {
        assert(t[k as int] == names@[k as int]@);
        if str_eq(names[k].as_str(), name) {
            return true;
        }
        k += 1;
    }
    false
}

/// `-t compdb`: a JSON compilation database.
///
/// With `rules` non-empty, only edges using those rules are included.
pub fn compdb(state: &State, rules: &[String], expand_rspfile: bool, directory: &str) -> (r: String)
    requires
        state.wf(),
    ensures
        r@ == database(
            state@,
            uses_one_of(state@, texts(rules@)),
            expand_rspfile,
            directory@,
        ),
{
    let ghost chosen = uses_one_of(state@, texts(rules@));
    let mut out: String = "[".to_owned();
    let mut first: bool = true;
    let ghost want = with_entries(
        out@,
        state@,
        chosen,
        expand_rspfile,
        directory@,
        true,
        0,
    );
    let n: usize = state.edge_count();
    let mut k: usize = 0;
    while k < n
        invariant
            k <= n,
            n == state@.edges.len(),
            state.wf(),
            chosen == uses_one_of(state@, texts(rules@)),
            with_entries(
                out@,
                state@,
                chosen,
                expand_rspfile,
                directory@,
                first,
                k as int,
            ) == want,
        decreases n - k,
    {
        let edge = EdgeId(k);
        let e = state.edge(edge);
        let taken: bool = e.inputs().len() > 0 && e.outputs().len() > 0 && (rules.len() == 0
            || holds_name(rules, state.edge_rule_name(edge)));
        assert(taken == chosen(k as int));
        if taken {
            if !first {
                out.push(',');
            }
            first = false;
            push_entry(&mut out, state, edge, expand_rspfile, directory);
        }
        k += 1;
    }
    out.append("\n]\n");
    out
}

/// The edges that can be reached from the nodes on the stack, besides those
/// that have been.
pub open spec fn reached(s: StateView, seen: Seq<bool>, stack: Seq<NodeId>) -> Seq<bool>
    decreases unseen(seen), stack.len(),
{
    if stack.len() == 0 {
        seen
    } else {
        let rest = stack.drop_last();
        match s.nodes[stack.last().0 as int].in_edge {
            None => reached(s, seen, rest),
            Some(edge) => {
                let e = edge.0 as int;
                if e >= seen.len() || seen[e] {
                    reached(s, seen, rest)
                } else {
                    proof {
                        lemma_unseen(seen, e);
                    }
                    reached(s, seen.update(e, true), rest + s.edges[e].inputs)
                }
            },
        }
    }
}

/// Chooses the edges with a command and an input that are reached.
pub open spec fn needed(s: StateView, seen: Seq<bool>) -> spec_fn(int) -> bool {
    |k: int| seen[k] && s.edges[k].rule != phony_rule() && s.edges[k].inputs.len() > 0
}

/// Whether every edge that has been seen makes something.
pub open spec fn seen_make(s: StateView, seen: Seq<bool>) -> bool {
    forall|k: int| 0 <= k < seen.len() && #[trigger] seen[k] ==> s.edges[k].outputs.len() > 0
}

fn reach(state: &State, targets: &[NodeId]) -> (r: Vec<bool>)
    requires
        state.wf(),
        nodes_below(targets@, state@.nodes.len()),
    ensures
        r@ == reached(state@, none_of(state@.edges.len()), targets@),
        r@.len() == state@.edges.len(),
        seen_make(state@, r@),
{
    let ghost s = state@;
    let mut seen = none_seen(state.edge_count());
    let mut stack: Vec<NodeId> = vstd::slice::slice_to_vec(targets);
    let ghost want = reached(s, seen@, stack@);
    while stack.len() > 0
        invariant
            s == state@,
            state.wf(),
            seen@.len() == s.edges.len(),
            nodes_below(stack@, s.nodes.len()),
            seen_make(s, seen@),
            reached(s, seen@, stack@) == want,
        decreases unseen(seen@), stack@.len(),
    {
        let ghost stack0 = stack@;
        let node = match stack.pop() {
            Some(n) => n,
            None => NodeId(0),
        };
        assert(node == stack0.last() && stack@ == stack0.drop_last());
        proof {
            state.lemma_wf();
            assert(s.node_ok(s.nodes[node.0 as int]));
        }
        if let Some(edge) = state.node(node).in_edge() {
            if !seen[edge.0] {
                proof {
                    lemma_unseen(seen@, edge.0 as int);
                    assert(s.edge_ok(s.edges[edge.0 as int]));
                    crate::graph::lemma_has_outputs(s, node, edge);
                }
                seen.set(edge.0, true);
                push_all(&mut stack, state.edge(edge).inputs());
            }
        }
    }
    seen
}

/// `-t compdb-targets`: a compilation database for the given targets only.
pub fn compdb_targets(
    state: &State,
    targets: &[NodeId],
    expand_rspfile: bool,
    directory: &str,
) -> (r: Result<String, Error>)
    requires
        state.wf(),
        nodes_below(targets@, state@.nodes.len()),
    ensures
        ({
            let seen = reached(state@, none_of(state@.edges.len()), targets@);
            r matches Ok(text) && text@ == database(
                state@,
                needed(state@, seen),
                expand_rspfile,
                directory@,
            )
        }),
{
    let seen = reach(state, targets);
    let ghost chosen = needed(state@, seen@);
    let mut out: String = "[".to_owned();
    let mut first: bool = true;
    let ghost want = with_entries(
        out@,
        state@,
        chosen,
        expand_rspfile,
        directory@,
        true,
        0,
    );
    let n: usize = state.edge_count();
    let mut k: usize = 0;
    while k < n
        invariant
            k <= n,
            n == state@.edges.len(),
            n == seen@.len(),
            state.wf(),
            chosen == needed(state@, seen@),
            seen_make(state@, seen@),
            with_entries(
                out@,
                state@,
                chosen,
                expand_rspfile,
                directory@,
                first,
                k as int,
            ) == want,
        decreases n - k,
    {
        let edge = EdgeId(k);
        let taken: bool = seen[k] && !state.edge_is_phony(edge) && state.edge(edge).inputs().len()
            > 0;
        assert(taken == chosen(k as int));
        if taken {
            if !first {
                out.push(',');
            }
            first = false;
            push_entry(&mut out, state, edge, expand_rspfile, directory);
        }
        k += 1;
    }
    out.append("\n]\n");
    Ok(out)
}

/// Whether one of the targets is made from what `edge` makes, at once or by way of
/// others, or is itself made by it.
pub open spec fn goes_into(s: StateView, targets: Seq<NodeId>, edge: EdgeId) -> bool {
    exists|v: Seq<NodeId>| #[trigger]
        crate::clean::is_supply_line(s, v) && v.len() > 0 && targets.contains(v[0])
            && s.nodes[v.last().0 as int].in_edge == Some(edge)
}

spec fn comes_into(s: StateView, targets: Seq<NodeId>, n: NodeId) -> bool {
    exists|v: Seq<NodeId>| #[trigger]
        crate::clean::is_supply_line(s, v) && v.len() > 0 && targets.contains(v[0]) && v.last() == n
}

spec fn is_handled(s: StateView, seen: Seq<bool>, stack: Seq<NodeId>, n: NodeId) -> bool {
    stack.contains(n) || match s.nodes[n.0 as int].in_edge {
        None => true,
        Some(e) => seen[e.0 as int],
    }
}

/// Whether a search has gone as far as its stack.
spec fn is_under_way(s: StateView, seen: Seq<bool>, stack: Seq<NodeId>, targets: Seq<NodeId>) -> bool {
    &&& seen.len() == s.edges.len()
    &&& nodes_below(stack, s.nodes.len())
    &&& forall|i: int| 0 <= i < stack.len() ==> comes_into(s, targets, #[trigger] stack[i])
    &&& forall|e: EdgeId|
        e.0 < seen.len() && #[trigger] seen[e.0 as int] ==> goes_into(s, targets, e)
    &&& forall|i: int| 0 <= i < targets.len() ==> is_handled(s, seen, stack, #[trigger] targets[i])
    &&& forall|e: int, i: int|
        #![trigger s.edges[e].inputs[i]]
        0 <= e < seen.len() && seen[e] && 0 <= i < s.edges[e].inputs.len() ==> is_handled(
            s,
            seen,
            stack,
            s.edges[e].inputs[i],
        )
}

proof fn lemma_comes_further(s: StateView, targets: Seq<NodeId>, n: NodeId, edge: EdgeId, m: NodeId)
    requires
        comes_into(s, targets, n),
        s.nodes[n.0 as int].in_edge == Some(edge),
        s.edges[edge.0 as int].inputs.contains(m),
    ensures
        comes_into(s, targets, m),
{
    let v = choose|v: Seq<NodeId>| #[trigger]
        crate::clean::is_supply_line(s, v) && v.len() > 0 && targets.contains(v[0]) && v.last() == n;
    let w = v.push(m);
    assert(crate::clean::is_supply_line(s, w)) by {
        assert forall|i: int| 0 <= i < w.len() - 1 implies (match s.nodes[(
        #[trigger] w[i]).0 as int].in_edge {
            Some(e) => s.edges[e.0 as int].inputs.contains(w[i + 1]),
            None => false,
        }) by {
            if i < v.len() - 1 {
                assert(w[i] == v[i]);
                assert(w[i + 1] == v[i + 1]);
                assert(s.nodes[v[i].0 as int].in_edge is Some);
            } else {
                assert(w[i] == n);
            }
        }
    }
    assert(w[0] == v[0]);
    assert(w.last() == m);
}

proof fn lemma_left_on_stack(stack: Seq<NodeId>, x: NodeId)
    requires
        stack.len() > 0,
    ensures
        stack.contains(x) && x != stack.last() ==> stack.drop_last().contains(x),
{
    if stack.contains(x) && x != stack.last() {
        let j = choose|j: int| 0 <= j < stack.len() && stack[j] == x;
        assert(stack.drop_last()[j] == x);
    }
}

proof fn lemma_nothing_new(s: StateView, seen: Seq<bool>, stack: Seq<NodeId>, targets: Seq<NodeId>)
    requires
        is_under_way(s, seen, stack, targets),
        stack.len() > 0,
        s.nodes[stack.last().0 as int].in_edge matches Some(e) ==> seen[e.0 as int],
    ensures
        is_under_way(s, seen, stack.drop_last(), targets),
{
    let rest = stack.drop_last();
    assert forall|x: NodeId| is_handled(s, seen, stack, x) implies #[trigger] is_handled(
        s,
        seen,
        rest,
        x,
    ) by {
        lemma_left_on_stack(stack, x);
    }
    assert forall|i: int| 0 <= i < rest.len() implies comes_into(s, targets, #[trigger] rest[i]) by {
        assert(rest[i] == stack[i]);
    }
    assert forall|i: int| 0 <= i < targets.len() implies is_handled(
        s,
        seen,
        rest,
        #[trigger] targets[i],
    ) by {
        assert(is_handled(s, seen, stack, targets[i]));
    }
    assert forall|e: int, i: int|
        #![trigger s.edges[e].inputs[i]]
        0 <= e < seen.len() && seen[e] && 0 <= i < s.edges[e].inputs.len() implies is_handled(
        s,
        seen,
        rest,
        s.edges[e].inputs[i],
    ) by {
        assert(is_handled(s, seen, stack, s.edges[e].inputs[i]));
    }
    assert(nodes_below(rest, s.nodes.len())) by {
        assert forall|i: int| 0 <= i < rest.len() implies (#[trigger] rest[i]).0 < s.nodes.len() by {
            assert(rest[i] == stack[i]);
        }
    }
}

proof fn lemma_goes_in(s: StateView, targets: Seq<NodeId>, n: NodeId, edge: EdgeId)
    requires
        comes_into(s, targets, n),
        s.nodes[n.0 as int].in_edge == Some(edge),
    ensures
        goes_into(s, targets, edge),
{
    let v = choose|v: Seq<NodeId>| #[trigger]
        crate::clean::is_supply_line(s, v) && v.len() > 0 && targets.contains(v[0]) && v.last() == n;
    assert(crate::clean::is_supply_line(s, v));
}

proof fn lemma_handled_later(
    s: StateView,
    seen: Seq<bool>,
    stack: Seq<NodeId>,
    edge: EdgeId,
    x: NodeId,
)
    requires
        stack.len() > 0,
        edge.0 < seen.len(),
        s.nodes[stack.last().0 as int].in_edge == Some(edge),
        is_handled(s, seen, stack, x) || s.edges[edge.0 as int].inputs.contains(x),
        s.nodes[x.0 as int].in_edge matches Some(e) ==> e.0 < seen.len(),
    ensures
        is_handled(
            s,
            seen.update(edge.0 as int, true),
            stack.drop_last() + s.edges[edge.0 as int].inputs,
            x,
        ),
{
    let rest = stack.drop_last();
    let inputs = s.edges[edge.0 as int].inputs;
    let more = rest + inputs;
    lemma_left_on_stack(stack, x);
    if inputs.contains(x) {
        let j = choose|j: int| 0 <= j < inputs.len() && inputs[j] == x;
        assert(more[rest.len() + j] == x);
    } else if rest.contains(x) {
        let j = choose|j: int| 0 <= j < rest.len() && rest[j] == x;
        assert(more[j] == x);
    }
}

proof fn lemma_one_edge_more(
    s: StateView,
    seen: Seq<bool>,
    stack: Seq<NodeId>,
    targets: Seq<NodeId>,
    edge: EdgeId,
)
    requires
        s.wf(),
        nodes_below(targets, s.nodes.len()),
        is_under_way(s, seen, stack, targets),
        stack.len() > 0,
        s.nodes[stack.last().0 as int].in_edge == Some(edge),
        edge.0 < s.edges.len(),
    ensures
        is_under_way(
            s,
            seen.update(edge.0 as int, true),
            stack.drop_last() + s.edges[edge.0 as int].inputs,
            targets,
        ),
{
    let rest = stack.drop_last();
    let inputs = s.edges[edge.0 as int].inputs;
    let more = rest + inputs;
    let then = seen.update(edge.0 as int, true);
    let n = stack.last();
    assert(n == stack[stack.len() - 1]);
    assert(comes_into(s, targets, n));
    assert(s.edge_ok(s.edges[edge.0 as int]));
    assert forall|i: int| 0 <= i < more.len() implies comes_into(s, targets, #[trigger] more[i]) && more[i].0 < s.nodes.len() by {
        if i < rest.len() {
            assert(more[i] == stack[i]);
        } else {
            assert(more[i] == inputs[i - rest.len()]);
            assert(inputs.contains(more[i]));
            lemma_comes_further(s, targets, n, edge, more[i]);
        }
    }
    assert forall|e: EdgeId| e.0 < then.len() && #[trigger] then[e.0 as int] implies goes_into(
        s,
        targets,
        e,
    ) by {
        if e.0 == edge.0 {
            assert(e == edge);
            lemma_goes_in(s, targets, n, edge);
        } else {
            assert(seen[e.0 as int]);
        }
    }
    assert forall|i: int| 0 <= i < targets.len() implies is_handled(
        s,
        then,
        more,
        #[trigger] targets[i],
    ) by {
        assert(is_handled(s, seen, stack, targets[i]));
        assert(s.node_ok(s.nodes[targets[i].0 as int]));
        lemma_handled_later(s, seen, stack, edge, targets[i]);
    }
    assert forall|e: int, i: int|
        #![trigger s.edges[e].inputs[i]]
        0 <= e < then.len() && then[e] && 0 <= i < s.edges[e].inputs.len() implies is_handled(
        s,
        then,
        more,
        s.edges[e].inputs[i],
    ) by {
        let x = s.edges[e].inputs[i];
        assert(s.edge_ok(s.edges[e]));
        assert(s.node_ok(s.nodes[x.0 as int]));
        if e == edge.0 {
            assert(inputs.contains(x));
        } else {
            assert(is_handled(s, seen, stack, x));
        }
        lemma_handled_later(s, seen, stack, edge, x);
    }
}

proof fn lemma_reached_right(s: StateView, seen: Seq<bool>, stack: Seq<NodeId>, targets: Seq<NodeId>)
    requires
        s.wf(),
        nodes_below(targets, s.nodes.len()),
        is_under_way(s, seen, stack, targets),
    ensures
        is_under_way(s, reached(s, seen, stack), Seq::empty(), targets),
    decreases unseen(seen), stack.len(),
{
    if stack.len() == 0 {
        assert(stack =~= Seq::empty());
    } else {
        let rest = stack.drop_last();
        let n = stack.last();
        assert(n == stack[stack.len() - 1]);
        assert(s.node_ok(s.nodes[n.0 as int]));
        match s.nodes[n.0 as int].in_edge {
            None => {
                lemma_nothing_new(s, seen, stack, targets);
                lemma_reached_right(s, seen, rest, targets);
            },
            Some(edge) => {
                if seen[edge.0 as int] {
                    lemma_nothing_new(s, seen, stack, targets);
                    lemma_reached_right(s, seen, rest, targets);
                } else {
                    lemma_unseen(seen, edge.0 as int);
                    lemma_one_edge_more(s, seen, stack, targets, edge);
                    lemma_reached_right(
                        s,
                        seen.update(edge.0 as int, true),
                        rest + s.edges[edge.0 as int].inputs,
                        targets,
                    );
                }
            },
        }
    }
}

proof fn lemma_line_reached(s: StateView, seen: Seq<bool>, targets: Seq<NodeId>, v: Seq<NodeId>, j: int)
    requires
        s.wf(),
        nodes_below(targets, s.nodes.len()),
        is_under_way(s, seen, Seq::empty(), targets),
        crate::clean::is_supply_line(s, v),
        0 <= j < v.len(),
        targets.contains(v[0]),
    ensures
        v[j].0 < s.nodes.len(),
        is_handled(s, seen, Seq::empty(), v[j]),
    decreases j,
{
    if j == 0 {
        let i = choose|i: int| 0 <= i < targets.len() && targets[i] == v[0];
        assert(is_handled(s, seen, Seq::empty(), targets[i]));
    } else {
        lemma_line_reached(s, seen, targets, v, j - 1);
        let n = v[j - 1].0 as int;
        assert(s.nodes[v[j - 1].0 as int].in_edge is Some);
        let e = s.nodes[n].in_edge->0;
        assert(s.node_ok(s.nodes[n]));
        assert(s.edge_ok(s.edges[e.0 as int]));
        let inputs = s.edges[e.0 as int].inputs;
        assert(inputs.contains(v[j - 1 + 1]));
        let i = choose|i: int| 0 <= i < inputs.len() && inputs[i] == v[j];
        assert(s.edges[e.0 as int].inputs[i] == v[j]);
        assert(!Seq::<NodeId>::empty().contains(v[j - 1]));
        assert(seen[e.0 as int]);
    }
}

/// A database for targets has just the edges from which the targets are made, at
/// once or by way of others.
pub proof fn law_all_makers_are_reached(s: StateView, targets: Seq<NodeId>)
    requires
        s.wf(),
        nodes_below(targets, s.nodes.len()),
    ensures
        ({
            let seen = reached(s, none_of(s.edges.len()), targets);
            forall|e: EdgeId|
                e.0 < s.edges.len() ==> (#[trigger] seen[e.0 as int] <==> goes_into(s, targets, e))
        }),
{
    let none = none_of(s.edges.len());
    assert forall|i: int| 0 <= i < targets.len() implies comes_into(
        s,
        targets,
        #[trigger] targets[i],
    ) by {
        let v = seq![targets[i]];
        assert(crate::clean::is_supply_line(s, v));
        assert(targets.contains(v[0]));
        assert(v.last() == targets[i]);
    }
    assert forall|i: int| 0 <= i < targets.len() implies is_handled(
        s,
        none,
        targets,
        #[trigger] targets[i],
    ) by {
        assert(targets.contains(targets[i]));
    }
    lemma_reached_right(s, none, targets, targets);
    let seen = reached(s, none, targets);
    assert forall|e: EdgeId| e.0 < s.edges.len() implies (
    #[trigger] seen[e.0 as int] <==> goes_into(s, targets, e)) by {
        if goes_into(s, targets, e) {
            let v = choose|v: Seq<NodeId>| #[trigger]
                crate::clean::is_supply_line(s, v) && v.len() > 0 && targets.contains(v[0])
                    && s.nodes[v.last().0 as int].in_edge == Some(e);
            lemma_line_reached(s, seen, targets, v, v.len() - 1);
            assert(!Seq::<NodeId>::empty().contains(v.last()));
        }
    }
}

proof fn lemma_first_place_is(s: Seq<char>, t: Seq<char>, k: int, i: int)
    requires
        0 <= k <= i,
        stands_at(s, i, t),
        forall|j: int| k <= j < i ==> !#[trigger] stands_at(s, j, t),
    ensures
        first_place(s, t, k) == Some(i),
    decreases i - k,
{
    if k < i {
        assert(!stands_at(s, k, t));
        lemma_first_place_is(s, t, k + 1, i);
    }
}

/// A reference to the response file, in any of the three ways in which it can be
/// written, gives way to the content of the file, on one line; the rest of the
/// command stays.
pub proof fn law_response_files_are_expanded(
    s: StateView,
    edge: EdgeId,
    before: Seq<char>,
    mark: Seq<char>,
    after: Seq<char>,
)
    requires
        ({
            let command = s.binding(edge.0 as int, "command"@, Escape::Shell);
            let rspfile = s.binding(edge.0 as int, "rspfile"@, Escape::Plain);
            &&& rspfile.len() > 0
            &&& mark == "@"@ || mark == "-f "@ || mark == "--option-file="@
            &&& command == before + mark + rspfile + after
            &&& forall|j: int|
                0 <= j < before.len() + mark.len() ==> !#[trigger] stands_at(command, j, rspfile)
        }),
    ensures
        expanded_command(s, edge) == before + on_one_line(
            s.binding(edge.0 as int, "rspfile_content"@, Escape::Shell),
        ) + after,
{
    let command = s.binding(edge.0 as int, "command"@, Escape::Shell);
    let rspfile = s.binding(edge.0 as int, "rspfile"@, Escape::Plain);
    reveal_strlit("@");
    reveal_strlit("-f ");
    reveal_strlit("--option-file=");
    let i = (before.len() + mark.len()) as int;
    assert(command.subrange(i, i + rspfile.len()) =~= rspfile);
    assert(stands_at(command, i, rspfile));
    lemma_first_place_is(command, rspfile, 0, i);
    let front = command.take(i);
    assert(front =~= before + mark);
    assert(front.subrange(before.len() as int, i) =~= mark);
    if mark != "@"@ {
        assert(front[i - 1] == mark.last());
        if stands_at(front, i - 1, "@"@) {
            assert(front.subrange(i - 1, i)[0] == front[i - 1]);
        }
    }
    if mark == "--option-file="@ && stands_at(front, i - 3, "-f "@) {
        assert(front.subrange(i - 3, i)[2] == front[i - 1]);
    }
    assert(reference_start(command, i) == Some(before.len() as int));
    assert(command.take(before.len() as int) =~= before);
    assert(command.skip(i + rspfile.len()) =~= after);
}

} // verus!
