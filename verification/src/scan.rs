//! What a scan of the graph finds out, stated of the graph that it leaves.

use vstd::prelude::*;

use crate::disk::DiskInterface;
use crate::state::{EdgeId, NodeId, VisitMark};

verus! {

use crate::build_log::Entries;
use crate::eval::phony_rule;
use crate::graph::{
    all_dirty, all_looked_at, deps_applied, deps_interned, depfile_applied, edge_checked, entered,
    finished, input_seen, inputs_visited, is_ready, lemma_sources_fit, log_applied, looked_at,
    output_checked, outputs_checked, outputs_visited, queue_visited, sources_fit, unvisited,
    visited, with_ready, Progress, Seen, Sources,
};
use crate::hash::rapidhash_of;
use crate::state::{
    law_bindings_are_fixed, nodes_below, says_same, EdgeView, Escape, Existence, NodeView,
    StateView,
};
use vstd::utf8::encode_utf8;

/// Whether the ids of a graph are in range, and outputs name their producers.
pub open spec fn linked(s: StateView) -> bool {
    &&& s.edges.len() <= usize::MAX
    &&& forall|e: int| 0 <= e < s.edges.len() ==> s.edge_ok(#[trigger] s.edges[e])
    &&& forall|e: int| 0 <= e < s.edges.len() ==> #[trigger] s.outputs_linked(e)
    &&& forall|n: int|
        0 <= n < s.nodes.len() ==> ((#[trigger] s.nodes[n]).in_edge matches Some(e) ==> e.0
            < s.edges.len())
}

/// Whether no dyndep file is left to load.
pub open spec fn nothing_pending(s: StateView) -> bool {
    forall|n: int| 0 <= n < s.nodes.len() ==> !(#[trigger] s.nodes[n]).dyndep_pending
}

/// Whether nothing is called dirty that has not been looked at.
pub open spec fn unvisited_clean(s: StateView) -> bool {
    forall|e: int, k: int|
        0 <= e < s.edges.len() && s.edges[e].mark == VisitMark::Unvisited && 0 <= k
            < s.edges[e].outputs.len() ==> !s.nodes[(
        #[trigger] s.edges[e].outputs[k]).0 as int].dirty
}

/// Whether it is known of a node what there is to know: what makes it has been
/// visited, or it has been looked at.
pub open spec fn is_known(s: StateView, n: NodeId) -> bool {
    match s.nodes[n.0 as int].in_edge {
        Some(e) => s.edges[e.0 as int].mark == VisitMark::Done,
        None => s.nodes[n.0 as int].exists != Existence::Unknown,
    }
}

/// Whether input `i` of edge `e` is more than order-only.
pub open spec fn matters(s: StateView, e: int, i: int) -> bool {
    0 <= i < s.edges[e].first_order_only()
}

/// Whether an input that matters is dirty.
pub open spec fn has_dirty_input(s: StateView, e: int) -> bool {
    exists|i: int|
        matters(s, e, i) && s.nodes[(#[trigger] s.edges[e].inputs[i]).0 as int].dirty
}

/// Whether an input that matters is newer than `t`.
pub open spec fn has_newer_input(s: StateView, e: int, t: i64) -> bool {
    exists|i: int|
        matters(s, e, i) && t < s.nodes[(#[trigger] s.edges[e].inputs[i]).0 as int].mtime
}

/// Whether output `o` of the command of edge `e` calls for the command to be run:
/// it does not exist; it is older than an input, unless the command may leave it
/// alone and has been recorded; or it was not recorded that this command made it
/// from inputs that are no newer.
pub open spec fn is_stale(log: Option<Entries>, s: StateView, e: int, o: NodeId) -> bool {
    let n = s.nodes[o.0 as int];
    let generator = s.binding(e, "generator"@, Escape::Shell).len() > 0;
    let recorded = log is Some && log->0.contains_key(n.path);
    ||| n.exists != Existence::Exists
    ||| has_newer_input(s, e, n.mtime) && !(s.restat(e) && recorded)
    ||| log is Some && !recorded && !generator
    ||| recorded && log->0[n.path].command_hash != rapidhash_of(encode_utf8(s.hashed_command(e)))
        && !generator
    ||| recorded && has_newer_input(s, e, log->0[n.path].mtime)
}

/// Whether there is a reason to run edge `e`: an input that matters is dirty, its
/// discovered dependencies are missing, or one of its outputs is stale; an edge
/// that runs nothing is only ever dirty of itself where it has no inputs either
/// and its output does not exist.
pub open spec fn must_run(log: Option<Entries>, s: StateView, e: int) -> bool {
    ||| has_dirty_input(s, e)
    ||| s.edges[e].deps_missing
    ||| exists|k: int|
        0 <= k < s.edges[e].outputs.len() && {
            let o = #[trigger] s.edges[e].outputs[k];
            if s.edges[e].rule == phony_rule() {
                s.edges[e].inputs.len() == 0 && s.nodes[o.0 as int].exists != Existence::Exists
            } else {
                is_stale(log, s, e, o)
            }
        }
}

/// Whether all outputs of an edge are dirty.
pub open spec fn outputs_dirty(s: StateView, e: int) -> bool {
    forall|k: int|
        0 <= k < s.edges[e].outputs.len() ==> s.nodes[(
        #[trigger] s.edges[e].outputs[k]).0 as int].dirty
}

/// Whether no output of an edge is dirty.
pub open spec fn outputs_clean(s: StateView, e: int) -> bool {
    forall|k: int|
        0 <= k < s.edges[e].outputs.len() ==> !s.nodes[(
        #[trigger] s.edges[e].outputs[k]).0 as int].dirty
}

/// Whether an edge that runs nothing stands for its inputs: an output that is no
/// file is no older than any input that matters.
pub open spec fn stands_for_inputs(s: StateView, e: int) -> bool {
    forall|k: int, i: int|
        #![trigger s.edges[e].outputs[k], s.edges[e].inputs[i]]
        0 <= k < s.edges[e].outputs.len() && matters(s, e, i) && s.nodes[s.edges[e].outputs[k].0 as int].exists
            != Existence::Exists ==> s.nodes[s.edges[e].inputs[i].0 as int].mtime
            <= s.nodes[s.edges[e].outputs[k].0 as int].mtime
}

/// Whether what a scan has found out of edge `e` is right: all that it is made
/// from is known; its outputs are dirty where it must be run, and, if nothing was
/// called dirty before (`fresh`), only there; where it runs nothing and is clean
/// it stands for its inputs; and it is ready just where it is clean, or has
/// nothing to wait for, and all its inputs are ready.
#[verifier::opaque]
pub open spec fn is_right(log: Option<Entries>, fresh: bool, s: StateView, e: int) -> bool {
    let edge = s.edges[e];
    let idle = edge.rule == phony_rule() && edge.inputs.len() == 0;
    &&& forall|i: int| 0 <= i < edge.inputs.len() ==> is_known(s, #[trigger] edge.inputs[i])
    &&& must_run(log, s, e) ==> outputs_dirty(s, e)
    &&& fresh && !must_run(log, s, e) ==> outputs_clean(s, e)
    &&& edge.rule == phony_rule() && !must_run(log, s, e) ==> stands_for_inputs(s, e)
    &&& edge.outputs_ready == ((!must_run(log, s, e) || idle) && forall|i: int|
        0 <= i < edge.inputs.len() ==> is_ready(s, #[trigger] edge.inputs[i]))
}

/// Whether all that has been found out is right.
pub open spec fn all_right(log: Option<Entries>, fresh: bool, s: StateView) -> bool {
    &&& linked(s)
    &&& nothing_pending(s)
    &&& fresh ==> unvisited_clean(s)
    &&& forall|e: int|
        0 <= e < s.edges.len() && (#[trigger] s.edges[e]).mark == VisitMark::Done ==> is_right(
            log,
            fresh,
            s,
            e,
        )
}

/// Whether nothing that is known has changed from one graph to the other, but for
/// edge `x`, which is being visited.
spec fn goes_on(s: StateView, t: StateView, x: int) -> bool {
    &&& s.nodes.len() <= t.nodes.len()
    &&& s.edges.len() == t.edges.len()
    &&& s.scopes == t.scopes
    &&& s.pools == t.pools
    &&& forall|n: int|
        0 <= n < s.nodes.len() ==> {
            &&& (#[trigger] t.nodes[n]).path == s.nodes[n].path
            &&& t.nodes[n].in_edge == s.nodes[n].in_edge
            &&& is_known(s, NodeId(n as usize)) && n <= usize::MAX ==> same_findings(
                s.nodes[n],
                t.nodes[n],
            )
            &&& s.nodes[n].in_edge matches Some(f) ==> f.0 != x && t.edges[f.0 as int].mark
                != VisitMark::Done ==> t.nodes[n].dirty == s.nodes[n].dirty
        }
    &&& forall|e: int|
        0 <= e < s.edges.len() ==> {
            &&& e != x && s.edges[e].mark != VisitMark::Unvisited ==> #[trigger] t.edges[e]
                == s.edges[e]
            &&& t.edges[e].rule == s.edges[e].rule
            &&& t.edges[e].scope == s.edges[e].scope
            &&& t.edges[e].outputs == s.edges[e].outputs
            &&& t.edges[e].dyndep == s.edges[e].dyndep
            &&& e != x ==> t.edges[e].mark == s.edges[e].mark || (s.edges[e].mark
                == VisitMark::Unvisited && t.edges[e].mark == VisitMark::Done)
        }
}

spec fn same_findings(a: NodeView, b: NodeView) -> bool {
    a.dirty == b.dirty && a.mtime == b.mtime && a.exists == b.exists
}

proof fn lemma_still_known(s: StateView, t: StateView, x: int, n: NodeId)
    requires
        goes_on(s, t, x),
        linked(s),
        n.0 < s.nodes.len(),
        is_known(s, n),
        0 <= x < s.edges.len() ==> s.edges[x].mark != VisitMark::Done,
    ensures
        is_known(t, n),
        same_findings(s.nodes[n.0 as int], t.nodes[n.0 as int]),
        t.nodes[n.0 as int].path == s.nodes[n.0 as int].path,
        is_ready(t, n) == is_ready(s, n),
{
    assert(NodeId(n.0 as int as usize) == n);
    assert(t.nodes[n.0 as int].in_edge == s.nodes[n.0 as int].in_edge);
    if let Some(e) = s.nodes[n.0 as int].in_edge {
        assert(t.edges[e.0 as int] == s.edges[e.0 as int]);
    }
}

proof fn lemma_goes_on_twice(s: StateView, t: StateView, u: StateView, x: int)
    requires
        goes_on(s, t, x),
        goes_on(t, u, x),
        linked(s),
        0 <= x < s.edges.len() ==> s.edges[x].mark != VisitMark::Done,
    ensures
        goes_on(s, u, x),
{
    assert forall|n: int| 0 <= n < s.nodes.len() implies {
        &&& (#[trigger] u.nodes[n]).path == s.nodes[n].path
        &&& u.nodes[n].in_edge == s.nodes[n].in_edge
        &&& is_known(s, NodeId(n as usize)) && n <= usize::MAX ==> same_findings(
            s.nodes[n],
            u.nodes[n],
        )
        &&& s.nodes[n].in_edge matches Some(f) ==> f.0 != x && u.edges[f.0 as int].mark
            != VisitMark::Done ==> u.nodes[n].dirty == s.nodes[n].dirty
    } by {
        assert(t.nodes[n].path == s.nodes[n].path);
        if is_known(s, NodeId(n as usize)) && n <= usize::MAX {
            lemma_still_known(s, t, x, NodeId(n as usize));
        }
        if let Some(f) = s.nodes[n].in_edge {
            if f.0 != x && u.edges[f.0 as int].mark != VisitMark::Done {
                assert(u.edges[f.0 as int].rule == t.edges[f.0 as int].rule);
                assert(t.edges[f.0 as int].mark != VisitMark::Done);
            }
        }
    }
    assert forall|e: int| 0 <= e < s.edges.len() implies {
        &&& e != x && s.edges[e].mark != VisitMark::Unvisited ==> #[trigger] u.edges[e]
            == s.edges[e]
        &&& u.edges[e].rule == s.edges[e].rule
        &&& u.edges[e].scope == s.edges[e].scope
        &&& u.edges[e].outputs == s.edges[e].outputs
        &&& u.edges[e].dyndep == s.edges[e].dyndep
        &&& e != x ==> u.edges[e].mark == s.edges[e].mark || (s.edges[e].mark
            == VisitMark::Unvisited && u.edges[e].mark == VisitMark::Done)
    } by {
        assert(t.edges[e].rule == s.edges[e].rule);
    }
}

proof fn lemma_says_same(s: StateView, t: StateView, e: int)
    requires
        linked(s),
        0 <= e < s.edges.len(),
        s.edges.len() == t.edges.len(),
        s.nodes.len() <= t.nodes.len(),
        s.scopes == t.scopes,
        t.edges[e] == s.edges[e],
        forall|n: int| 0 <= n < s.nodes.len() ==> (#[trigger] t.nodes[n]).path == s.nodes[n].path,
    ensures
        t.binding(e, "generator"@, Escape::Shell) == s.binding(e, "generator"@, Escape::Shell),
        t.restat(e) == s.restat(e),
        t.hashed_command(e) == s.hashed_command(e),
{
    assert(s.edge_ok(s.edges[e]));
    assert(says_same(s, t, e));
    law_bindings_are_fixed(s, t, e, "generator"@, Escape::Shell);
    law_bindings_are_fixed(s, t, e, "restat"@, Escape::Shell);
}

proof fn lemma_must_run_same(log: Option<Entries>, s: StateView, t: StateView, e: int)
    requires
        linked(s),
        0 <= e < s.edges.len(),
        s.edges.len() == t.edges.len(),
        s.nodes.len() <= t.nodes.len(),
        s.scopes == t.scopes,
        t.edges[e] == s.edges[e],
        forall|n: int| 0 <= n < s.nodes.len() ==> (#[trigger] t.nodes[n]).path == s.nodes[n].path,
        forall|i: int|
            0 <= i < s.edges[e].inputs.len() ==> same_findings(
                s.nodes[(#[trigger] s.edges[e].inputs[i]).0 as int],
                t.nodes[s.edges[e].inputs[i].0 as int],
            ),
        forall|k: int|
            0 <= k < s.edges[e].outputs.len() ==> s.nodes[(
            #[trigger] s.edges[e].outputs[k]).0 as int].exists
                == t.nodes[s.edges[e].outputs[k].0 as int].exists && (s.edges[e].rule
                != phony_rule() ==> s.nodes[s.edges[e].outputs[k].0 as int].mtime
                == t.nodes[s.edges[e].outputs[k].0 as int].mtime),
    ensures
        must_run(log, t, e) == must_run(log, s, e),
{
    lemma_says_same(s, t, e);
    assert(s.edge_ok(s.edges[e]));
    assert(has_dirty_input(t, e) == has_dirty_input(s, e)) by {
        if has_dirty_input(s, e) {
            let i = choose|i: int|
                matters(s, e, i) && s.nodes[(#[trigger] s.edges[e].inputs[i]).0 as int].dirty;
            assert(matters(t, e, i) && t.nodes[t.edges[e].inputs[i].0 as int].dirty);
        }
        if has_dirty_input(t, e) {
            let i = choose|i: int|
                matters(t, e, i) && t.nodes[(#[trigger] t.edges[e].inputs[i]).0 as int].dirty;
            assert(matters(s, e, i) && s.nodes[s.edges[e].inputs[i].0 as int].dirty);
        }
    }
    assert forall|x: i64| #[trigger] has_newer_input(t, e, x) == has_newer_input(s, e, x) by {
        if has_newer_input(s, e, x) {
            let i = choose|i: int|
                matters(s, e, i) && x < s.nodes[(#[trigger] s.edges[e].inputs[i]).0 as int].mtime;
            assert(matters(t, e, i) && x < t.nodes[t.edges[e].inputs[i].0 as int].mtime);
        }
        if has_newer_input(t, e, x) {
            let i = choose|i: int|
                matters(t, e, i) && x < t.nodes[(#[trigger] t.edges[e].inputs[i]).0 as int].mtime;
            assert(matters(s, e, i) && x < s.nodes[s.edges[e].inputs[i].0 as int].mtime);
        }
    }
    assert forall|k: int|
        0 <= k < s.edges[e].outputs.len() && s.edges[e].rule != phony_rule() implies is_stale(
        log,
        t,
        e,
        #[trigger] s.edges[e].outputs[k],
    ) == is_stale(log, s, e, s.edges[e].outputs[k]) by {
        let o = s.edges[e].outputs[k];
        assert(t.nodes[o.0 as int].path == s.nodes[o.0 as int].path);
    }
    if must_run(log, s, e) && !has_dirty_input(s, e) && !s.edges[e].deps_missing {
        let k = choose|k: int|
            0 <= k < s.edges[e].outputs.len() && {
                let o = #[trigger] s.edges[e].outputs[k];
                if s.edges[e].rule == phony_rule() {
                    s.edges[e].inputs.len() == 0 && s.nodes[o.0 as int].exists != Existence::Exists
                } else {
                    is_stale(log, s, e, o)
                }
            };
        assert(t.edges[e].outputs[k] == s.edges[e].outputs[k]);
    }
    if must_run(log, t, e) && !has_dirty_input(t, e) && !t.edges[e].deps_missing {
        let k = choose|k: int|
            0 <= k < t.edges[e].outputs.len() && {
                let o = #[trigger] t.edges[e].outputs[k];
                if t.edges[e].rule == phony_rule() {
                    t.edges[e].inputs.len() == 0 && t.nodes[o.0 as int].exists != Existence::Exists
                } else {
                    is_stale(log, t, e, o)
                }
            };
        assert(t.edges[e].outputs[k] == s.edges[e].outputs[k]);
    }
}

proof fn lemma_still_right(
    log: Option<Entries>,
    fresh: bool,
    s: StateView,
    t: StateView,
    x: int,
    e: int,
)
    requires
        goes_on(s, t, x),
        linked(s),
        0 <= x < s.edges.len() ==> s.edges[x].mark != VisitMark::Done,
        0 <= e < s.edges.len(),
        s.edges[e].mark == VisitMark::Done,
        is_right(log, fresh, s, e),
    ensures
        t.edges[e] == s.edges[e],
        is_right(log, fresh, t, e),
{
    reveal(is_right);
    let edge = s.edges[e];
    assert(t.edges[e] == edge);
    assert(s.edge_ok(edge));
    assert(s.outputs_linked(e));
    assert forall|i: int| 0 <= i < edge.inputs.len() implies is_known(t, #[trigger] edge.inputs[i])
        && same_findings(s.nodes[edge.inputs[i].0 as int], t.nodes[edge.inputs[i].0 as int])
        && is_ready(t, edge.inputs[i]) == is_ready(s, edge.inputs[i]) by {
        lemma_still_known(s, t, x, edge.inputs[i]);
    }
    assert forall|k: int| 0 <= k < edge.outputs.len() implies same_findings(
        s.nodes[(#[trigger] edge.outputs[k]).0 as int],
        t.nodes[edge.outputs[k].0 as int],
    ) by {
        assert(s.nodes[s.edges[e].outputs[k].0 as int].in_edge == Some(EdgeId(e as usize)));
        assert(is_known(s, edge.outputs[k]));
        lemma_still_known(s, t, x, edge.outputs[k]);
    }
    lemma_must_run_same(log, s, t, e);
    if must_run(log, s, e) {
        assert(outputs_dirty(t, e)) by {
            assert forall|k: int| 0 <= k < t.edges[e].outputs.len() implies t.nodes[(
            #[trigger] t.edges[e].outputs[k]).0 as int].dirty by {
                assert(s.nodes[s.edges[e].outputs[k].0 as int].dirty);
            }
        }
    } else {
        if fresh {
            assert forall|k: int| 0 <= k < t.edges[e].outputs.len() implies !t.nodes[(
            #[trigger] t.edges[e].outputs[k]).0 as int].dirty by {
                assert(!s.nodes[s.edges[e].outputs[k].0 as int].dirty);
            }
        }
        if edge.rule == phony_rule() {
            assert forall|k: int, i: int|
                #![trigger t.edges[e].outputs[k], t.edges[e].inputs[i]]
                0 <= k < t.edges[e].outputs.len() && matters(t, e, i)
                    && t.nodes[t.edges[e].outputs[k].0 as int].exists
                    != Existence::Exists implies t.nodes[t.edges[e].inputs[i].0 as int].mtime
                <= t.nodes[t.edges[e].outputs[k].0 as int].mtime by {
                assert(matters(s, e, i));
                assert(s.edges[e].outputs[k] == t.edges[e].outputs[k]);
                assert(s.edges[e].inputs[i] == t.edges[e].inputs[i]);
            }
        }
    }
}

proof fn lemma_all_still_right(log: Option<Entries>, fresh: bool, s: StateView, t: StateView, x: int)
    requires
        all_right(log, fresh, s),
        goes_on(s, t, x),
        linked(t),
        nothing_pending(t),
        0 <= x < s.edges.len() ==> s.edges[x].mark != VisitMark::Done,
        0 <= x < s.edges.len() ==> t.edges[x].mark == VisitMark::InStack,
        forall|e: int|
            0 <= e < s.edges.len() && e != x && (#[trigger] t.edges[e]).mark == VisitMark::Done
                ==> s.edges[e].mark == VisitMark::Done,
    ensures
        all_right(log, fresh, t),
{
    assert forall|e: int|
        0 <= e < t.edges.len() && (#[trigger] t.edges[e]).mark == VisitMark::Done implies is_right(
        log,
        fresh,
        t,
        e,
    ) by {
        lemma_still_right(log, fresh, s, t, x, e);
    }
    if fresh {
        lemma_unvisited_clean(s, t, x);
    }
}

proof fn lemma_unvisited_clean(s: StateView, t: StateView, x: int)
    requires
        unvisited_clean(s),
        goes_on(s, t, x),
        linked(s),
        0 <= x < s.edges.len() ==> t.edges[x].mark != VisitMark::Unvisited,
    ensures
        unvisited_clean(t),
{
    assert forall|e: int, k: int|
        0 <= e < t.edges.len() && t.edges[e].mark == VisitMark::Unvisited && 0 <= k
            < t.edges[e].outputs.len() implies !t.nodes[(
    #[trigger] t.edges[e].outputs[k]).0 as int].dirty by {
        assert(t.edges[e].outputs == s.edges[e].outputs);
        assert(s.edges[e].mark == VisitMark::Unvisited);
        assert(s.edge_ok(s.edges[e]));
        assert(s.outputs_linked(e));
        let o = s.edges[e].outputs[k];
        assert(s.nodes[s.edges[e].outputs[k].0 as int].in_edge == Some(EdgeId(e as usize)));
        assert(!s.nodes[s.edges[e].outputs[k].0 as int].dirty);
        assert(t.nodes[o.0 as int].path == s.nodes[o.0 as int].path);
    }
}

/// Whether what is known of files is what the disk says: what exists has the time
/// that it has there, and what nothing makes is dirty just where it is missing.
pub open spec fn is_true<D: DiskInterface>(m: D::Model, s: StateView) -> bool {
    forall|n: int| 0 <= n < s.nodes.len() ==> is_found::<D>(m, #[trigger] s.nodes[n])
}

/// Whether what is known of a file is what the disk says.
pub open spec fn is_found<D: DiskInterface>(m: D::Model, n: NodeView) -> bool {
    &&& n.exists == Existence::Exists ==> n.mtime != 0 && D::mtime_of(m, n.path) == Ok::<
        i64,
        crate::error::ErrorView,
    >(n.mtime)
    &&& n.exists == Existence::Missing ==> D::mtime_of(m, n.path) == Ok::<
        i64,
        crate::error::ErrorView,
    >(0)
    &&& n.in_edge is None && n.exists != Existence::Unknown ==> n.dirty == (n.exists
        == Existence::Missing)
}

/// What visiting part of what edge `x` needs keeps.
spec fn step<D: DiskInterface>(
    c: Sources<D::Model>,
    fresh: bool,
    s: StateView,
    t: StateView,
    x: int,
) -> bool {
    &&& goes_on(s, t, x)
    &&& all_right(c.log, fresh, t)
    &&& sources_fit(c, t.nodes.len())
    &&& t.edges[x].mark == VisitMark::InStack
    &&& is_true::<D>(c.disk, s) ==> is_true::<D>(c.disk, t)
    &&& forall|n: int|
        0 <= n < s.nodes.len() && (#[trigger] s.nodes[n]).in_edge == Some(EdgeId(x as usize))
            ==> t.nodes[n].dirty == s.nodes[n].dirty
}

proof fn lemma_step_twice<D: DiskInterface>(
    c: Sources<D::Model>,
    fresh: bool,
    s: StateView,
    t: StateView,
    u: StateView,
    x: int,
)
    requires
        linked(s),
        0 <= x < s.edges.len(),
        s.edges[x].mark != VisitMark::Done,
        step::<D>(c, fresh, s, t, x),
        step::<D>(c, fresh, t, u, x),
    ensures
        step::<D>(c, fresh, s, u, x),
{
    lemma_goes_on_twice(s, t, u, x);
    assert forall|n: int|
        0 <= n < s.nodes.len() && (#[trigger] s.nodes[n]).in_edge == Some(
            EdgeId(x as usize),
        ) implies u.nodes[n].dirty == s.nodes[n].dirty by {
        assert(t.nodes[n].in_edge == s.nodes[n].in_edge);
    }
}

/// A change to nodes that edge `x` makes, and to that edge.
proof fn lemma_own_step<D: DiskInterface>(
    c: Sources<D::Model>,
    fresh: bool,
    s: StateView,
    t: StateView,
    x: int,
)
    requires
        all_right(c.log, fresh, s),
        sources_fit(c, s.nodes.len()),
        0 <= x < s.edges.len(),
        s.edges[x].mark != VisitMark::Done,
        t.edges[x].mark == VisitMark::InStack,
        s.nodes.len() == t.nodes.len(),
        s.edges.len() == t.edges.len(),
        s.scopes == t.scopes,
        s.pools == t.pools,
        s.edge_ok(t.edges[x]),
        t.edges[x].rule == s.edges[x].rule,
        t.edges[x].scope == s.edges[x].scope,
        t.edges[x].outputs == s.edges[x].outputs,
        t.edges[x].dyndep == s.edges[x].dyndep,
        forall|e: int| 0 <= e < s.edges.len() && e != x ==> #[trigger] t.edges[e] == s.edges[e],
        forall|n: int|
            0 <= n < s.nodes.len() ==> {
                &&& (#[trigger] t.nodes[n]).path == s.nodes[n].path
                &&& t.nodes[n].in_edge == s.nodes[n].in_edge
                &&& t.nodes[n].dyndep_pending == s.nodes[n].dyndep_pending
                &&& t.nodes[n].dirty == s.nodes[n].dirty
                &&& same_findings(s.nodes[n], t.nodes[n]) || s.nodes[n].in_edge == Some(
                    EdgeId(x as usize),
                )
            },
        is_true::<D>(c.disk, s) ==> is_true::<D>(c.disk, t),
    ensures
        step::<D>(c, fresh, s, t, x),
{
    assert(linked(t)) by {
        assert forall|e: int| 0 <= e < t.edges.len() implies t.edge_ok(#[trigger] t.edges[e]) by {
            assert(s.edge_ok(s.edges[e]));
        }
        assert forall|e: int| 0 <= e < t.edges.len() implies #[trigger] t.outputs_linked(e) by {
            assert(s.outputs_linked(e));
            assert(s.edge_ok(s.edges[e]));
            assert(t.edges[e].outputs == s.edges[e].outputs);
            assert forall|k: int| 0 <= k < t.edges[e].outputs.len() implies t.nodes[(
            #[trigger] t.edges[e].outputs[k]).0 as int].in_edge == Some(EdgeId(e as usize)) by {
                let o = s.edges[e].outputs[k];
                assert(s.nodes[s.edges[e].outputs[k].0 as int].in_edge == Some(
                    EdgeId(e as usize),
                ));
                assert(t.nodes[o.0 as int].path == s.nodes[o.0 as int].path);
            }
        }
        assert forall|n: int| 0 <= n < t.nodes.len() implies ((
        #[trigger] t.nodes[n]).in_edge matches Some(e) ==> e.0 < t.edges.len()) by {
            assert(s.nodes[n].in_edge == t.nodes[n].in_edge);
        }
    }
    assert(goes_on(s, t, x)) by {
        assert forall|n: int| 0 <= n < s.nodes.len() implies {
            &&& (#[trigger] t.nodes[n]).path == s.nodes[n].path
            &&& t.nodes[n].in_edge == s.nodes[n].in_edge
            &&& is_known(s, NodeId(n as usize)) && n <= usize::MAX ==> same_findings(
                s.nodes[n],
                t.nodes[n],
            )
            &&& s.nodes[n].in_edge matches Some(f) ==> f.0 != x && t.edges[f.0 as int].mark
                != VisitMark::Done ==> t.nodes[n].dirty == s.nodes[n].dirty
        } by {
            if s.nodes[n].in_edge == Some(EdgeId(x as usize)) {
                assert(EdgeId(x as usize).0 == x);
            }
        }
    }
    assert(nothing_pending(t));
    lemma_all_still_right(c.log, fresh, s, t, x);
}

proof fn lemma_entered<D: DiskInterface>(
    c: Sources<D::Model>,
    fresh: bool,
    p: Progress,
    node: NodeId,
    edge: EdgeId,
)
    requires
        all_right(c.log, fresh, p.state),
        sources_fit(c, p.state.nodes.len()),
        edge.0 < p.state.edges.len(),
        p.state.edges[edge.0 as int].mark == VisitMark::Unvisited,
    ensures
        step::<D>(c, fresh, p.state, entered(p, node, edge).state, edge.0 as int),
{
    let x = edge.0 as int;
    let s = p.state;
    let t = entered(p, node, edge).state;
    assert(s.edge_ok(s.edges[x]));
    assert(t.nodes == s.nodes);
    lemma_own_step::<D>(c, fresh, s, t, x);
}

proof fn lemma_looked_at<D: DiskInterface>(
    c: Sources<D::Model>,
    fresh: bool,
    s: StateView,
    x: int,
    k: int,
)
    requires
        all_right(c.log, fresh, s),
        sources_fit(c, s.nodes.len()),
        0 <= x < s.edges.len(),
        s.edges[x].mark == VisitMark::InStack,
        0 <= k,
    ensures
        all_looked_at::<D>(c.disk, s, s.edges[x].outputs, k) matches Ok(t) ==> step::<D>(
            c,
            fresh,
            s,
            t,
            x,
        ) && t.edges == s.edges,
    decreases s.edges[x].outputs.len() - k,
{
    let outputs = s.edges[x].outputs;
    assert(s.edge_ok(s.edges[x]));
    assert(s.outputs_linked(x));
    if k < outputs.len() {
        let o = outputs[k].0 as int;
        assert(s.nodes[s.edges[x].outputs[k].0 as int].in_edge == Some(EdgeId(x as usize)));
        if let Ok(t) = looked_at::<D>(c.disk, s, outputs[k]) {
            lemma_own_step::<D>(c, fresh, s, t, x);
            lemma_looked_at::<D>(c, fresh, t, x, k + 1);
            if let Ok(u) = all_looked_at::<D>(c.disk, t, outputs, k + 1) {
                lemma_step_twice::<D>(c, fresh, s, t, u, x);
            }
        }
    } else {
        lemma_own_step::<D>(c, fresh, s, s, x);
    }
}

proof fn lemma_spliced<D: DiskInterface>(
    c: Sources<D::Model>,
    fresh: bool,
    s: StateView,
    edge: EdgeId,
    nodes: Seq<NodeId>,
    k: int,
)
    requires
        all_right(c.log, fresh, s),
        sources_fit(c, s.nodes.len()),
        edge.0 < s.edges.len(),
        s.edges[edge.0 as int].mark == VisitMark::InStack,
        nodes_below(nodes, s.nodes.len()),
        0 <= k,
    ensures
        ({
            let t = s.inputs_spliced(edge, nodes, k);
            let x = edge.0 as int;
            &&& step::<D>(c, fresh, s, t, x)
            &&& t.edges[x].outputs_ready == s.edges[x].outputs_ready
            &&& t.edges[x].deps_missing == s.edges[x].deps_missing
            &&& t.edges[x].deps_loaded == s.edges[x].deps_loaded
        }),
    decreases nodes.len() - k,
{
    let x = edge.0 as int;
    assert(s.edge_ok(s.edges[x]));
    if k < nodes.len() {
        let t = s.input_spliced(edge, nodes[k]);
        let f = t.edges[x];
        assert forall|i: int| 0 <= i < f.inputs.len() implies (#[trigger] f.inputs[i]).0
            < s.nodes.len() by {
            let at = s.edges[x].first_order_only();
            let ins = s.edges[x].inputs;
            if i < at {
                assert(f.inputs[i] == ins[i]);
            } else if i > at {
                assert(f.inputs[i] == ins[i - 1]);
            }
        }
        lemma_own_step::<D>(c, fresh, s, t, x);
        lemma_spliced::<D>(c, fresh, t, edge, nodes, k + 1);
        lemma_step_twice::<D>(c, fresh, s, t, t.inputs_spliced(edge, nodes, k + 1), x);
    } else {
        lemma_own_step::<D>(c, fresh, s, s, x);
    }
}

proof fn lemma_interned<D: DiskInterface>(
    c: Sources<D::Model>,
    fresh: bool,
    s: StateView,
    path: Seq<char>,
    x: int,
)
    requires
        all_right(c.log, fresh, s),
        sources_fit(c, s.nodes.len()),
        0 <= x < s.edges.len(),
        s.edges[x].mark == VisitMark::InStack,
    ensures
        step::<D>(c, fresh, s, s.interned(path, 0), x),
        s.interned(path, 0).edges == s.edges,
        s.id_of(path).0 < s.interned(path, 0).nodes.len(),
{
    crate::state::lemma_node_index(s.nodes, path, 0);
    let t = s.interned(path, 0);
    if s.find_node(path) is None {
        assert forall|n: int| 0 <= n < s.nodes.len() implies #[trigger] t.nodes[n] == s.nodes[n] by {}
        assert(linked(t)) by {
            assert forall|e: int| 0 <= e < t.edges.len() implies t.edge_ok(#[trigger] t.edges[e]) by {
                assert(s.edge_ok(s.edges[e]));
            }
            assert forall|e: int| 0 <= e < t.edges.len() implies #[trigger] t.outputs_linked(e) by {
                assert(s.outputs_linked(e));
                assert(s.edge_ok(s.edges[e]));
                assert forall|k: int| 0 <= k < t.edges[e].outputs.len() implies t.nodes[(
                #[trigger] t.edges[e].outputs[k]).0 as int].in_edge == Some(EdgeId(e as usize)) by {
                    assert(s.nodes[s.edges[e].outputs[k].0 as int].in_edge == Some(
                        EdgeId(e as usize),
                    ));
                }
            }
            assert forall|n: int| 0 <= n < t.nodes.len() implies ((
            #[trigger] t.nodes[n]).in_edge matches Some(e) ==> e.0 < t.edges.len()) by {
                if n < s.nodes.len() {
                    assert(t.nodes[n] == s.nodes[n]);
                }
            }
        }
        assert(goes_on(s, t, x));
        assert(nothing_pending(t));
        lemma_sources_fit(c, s.nodes.len(), t.nodes.len());
        lemma_all_still_right(c.log, fresh, s, t, x);
        if is_true::<D>(c.disk, s) {
            assert forall|n: int| 0 <= n < t.nodes.len() implies is_found::<D>(
                c.disk,
                #[trigger] t.nodes[n],
            ) by {
                if n < s.nodes.len() {
                    assert(t.nodes[n] == s.nodes[n]);
                }
            }
        }
    } else {
        assert(s.edge_ok(s.edges[x]));
        lemma_own_step::<D>(c, fresh, s, s, x);
    }
}

proof fn lemma_deps_interned<D: DiskInterface>(
    c: Sources<D::Model>,
    fresh: bool,
    s: StateView,
    paths: Seq<Seq<char>>,
    k: int,
    acc: Seq<NodeId>,
    x: int,
)
    requires
        all_right(c.log, fresh, s),
        sources_fit(c, s.nodes.len()),
        0 <= x < s.edges.len(),
        s.edges[x].mark == VisitMark::InStack,
        nodes_below(acc, s.nodes.len()),
        0 <= k,
    ensures
        ({
            let (t, nodes) = deps_interned(s, paths, k, acc);
            &&& step::<D>(c, fresh, s, t, x)
            &&& t.edges == s.edges
            &&& nodes_below(nodes, t.nodes.len())
        }),
    decreases paths.len() - k,
{
    if k < paths.len() {
        let path = crate::canon::canonical(paths[k]);
        let t = s.interned(path, 0);
        lemma_interned::<D>(c, fresh, s, path, x);
        let more = acc.push(s.id_of(path));
        assert(nodes_below(more, t.nodes.len()));
        lemma_deps_interned::<D>(c, fresh, t, paths, k + 1, more, x);
        lemma_step_twice::<D>(c, fresh, s, t, deps_interned(t, paths, k + 1, more).0, x);
    } else {
        assert(s.edge_ok(s.edges[x]));
        lemma_own_step::<D>(c, fresh, s, s, x);
    }
}

proof fn lemma_deps_applied<D: DiskInterface>(
    c: Sources<D::Model>,
    fresh: bool,
    p: Progress,
    edge: EdgeId,
)
    requires
        all_right(c.log, fresh, p.state),
        sources_fit(c, p.state.nodes.len()),
        edge.0 < p.state.edges.len(),
        p.state.edges[edge.0 as int].mark == VisitMark::InStack,
    ensures
        deps_applied::<D>(c, p, edge) matches Ok((q, there)) ==> {
            let x = edge.0 as int;
            &&& q.validations == p.validations
            &&& step::<D>(c, fresh, p.state, q.state, x)
            &&& q.state.edges[x].outputs_ready == p.state.edges[x].outputs_ready
            &&& q.state.edges[x].deps_missing == p.state.edges[x].deps_missing
        },
{
    reveal(deps_applied);
    let x = edge.0 as int;
    let s = p.state;
    assert(s.edge_ok(s.edges[x]));
    lemma_own_step::<D>(c, fresh, s, s, x);
    if s.binding(x, "deps"@, Escape::Shell).len() > 0 {
        let out = s.edges[x].outputs[0];
        if let Some(l) = c.deps {
            if let Some(d) = l.deps_of(s, out) {
                let id = s.nodes[out.0 as int].deps_log_id as int;
                assert(crate::deps_log::deps_fit(l.deps[id], s.nodes.len()));
                lemma_spliced::<D>(c, fresh, s, edge, d.nodes, 0);
            }
        }
    } else {
        let depfile = s.binding(x, "depfile"@, Escape::Plain);
        if let Ok(content) = D::content_of(c.disk, depfile) {
            let bytes = crate::graph::or_empty(content);
            if let Ok((outs, ins)) = crate::depfile::depfile_of(bytes) {
                lemma_deps_interned::<D>(c, fresh, s, ins, 0, Seq::empty(), x);
                let (t, nodes) = deps_interned(s, ins, 0, Seq::empty());
                lemma_spliced::<D>(c, fresh, t, edge, nodes, 0);
                lemma_step_twice::<D>(c, fresh, s, t, t.inputs_spliced(edge, nodes, 0), x);
            }
        }
    }
}

proof fn lemma_outputs_visited<D: DiskInterface>(
    c: Sources<D::Model>,
    fresh: bool,
    p: Progress,
    edge: EdgeId,
)
    requires
        all_right(c.log, fresh, p.state),
        sources_fit(c, p.state.nodes.len()),
        edge.0 < p.state.edges.len(),
        p.state.edges[edge.0 as int].mark == VisitMark::InStack,
        p.state.edges[edge.0 as int].outputs_ready,
        !p.state.edges[edge.0 as int].deps_missing,
    ensures
        outputs_visited::<D>(c, p, edge) matches Ok((q, missing)) ==> {
            let x = edge.0 as int;
            &&& q.validations == p.validations
            &&& step::<D>(c, fresh, p.state, q.state, x)
            &&& q.state.edges[x].outputs_ready
            &&& q.state.edges[x].deps_missing == missing
        },
{
    reveal(outputs_visited);
    let x = edge.0 as int;
    lemma_looked_at::<D>(c, fresh, p.state, x, 0);
    if let Ok(s) = all_looked_at::<D>(c.disk, p.state, p.state.edges[x].outputs, 0) {
        if !s.edges[x].deps_loaded {
            let t = s.with_edge(x, EdgeView { deps_loaded: true, ..s.edges[x] });
            assert(s.edge_ok(s.edges[x]));
            assert(t.nodes == s.nodes);
            lemma_own_step::<D>(c, fresh, s, t, x);
            lemma_step_twice::<D>(c, fresh, p.state, s, t, x);
            lemma_deps_applied::<D>(c, fresh, p.at(t), edge);
            if let Ok((q, there)) = deps_applied::<D>(c, p.at(t), edge) {
                lemma_step_twice::<D>(c, fresh, p.state, t, q.state, x);
                if !there {
                    let u = q.state.with_edge(
                        x,
                        EdgeView { deps_missing: true, ..q.state.edges[x] },
                    );
                    assert(q.state.edge_ok(q.state.edges[x]));
                    assert(u.nodes == q.state.nodes);
                    lemma_own_step::<D>(c, fresh, q.state, u, x);
                    lemma_step_twice::<D>(c, fresh, p.state, q.state, u, x);
                }
            }
        }
    }
}

/// Whether `seen` tells of the first `i` inputs of edge `x` what there is to
/// tell.
#[verifier::opaque]
spec fn seen_right(s: StateView, x: int, i: int, missing: bool, seen: Seen) -> bool {
    let e = s.edges[x];
    let solid = e.first_order_only();
    &&& 0 <= i <= e.inputs.len()
    &&& forall|j: int| 0 <= j < i ==> is_known(s, #[trigger] e.inputs[j])
    &&& seen.dirty == (missing || exists|j: int|
        0 <= j < i && j < solid && s.nodes[(#[trigger] e.inputs[j]).0 as int].dirty)
    &&& seen.newest matches Some(m) ==> exists|j: int|
        0 <= j < i && j < solid && (#[trigger] e.inputs[j]) == m && !s.nodes[m.0 as int].dirty
    &&& forall|j: int|
        0 <= j < i && j < solid && !s.nodes[(#[trigger] e.inputs[j]).0 as int].dirty
            ==> seen.newest is Some && s.nodes[e.inputs[j].0 as int].mtime <= s.nodes[(
        seen.newest->0).0 as int].mtime
    &&& e.outputs_ready == forall|j: int| 0 <= j < i ==> is_ready(s, #[trigger] e.inputs[j])
}

proof fn lemma_still_seen(
    s: StateView,
    t: StateView,
    x: int,
    i: int,
    missing: bool,
    seen: Seen,
)
    requires
        linked(s),
        0 <= x < s.edges.len(),
        s.edges[x].mark == VisitMark::InStack,
        goes_on(s, t, x),
        t.edges[x] == s.edges[x],
        seen_right(s, x, i, missing, seen),
    ensures
        seen_right(t, x, i, missing, seen),
{
    reveal(seen_right);
    let e = s.edges[x];
    assert(s.edge_ok(e));
    assert forall|j: int| 0 <= j < i implies is_known(t, #[trigger] e.inputs[j]) && same_findings(
        s.nodes[e.inputs[j].0 as int],
        t.nodes[e.inputs[j].0 as int],
    ) && is_ready(t, e.inputs[j]) == is_ready(s, e.inputs[j]) by {
        lemma_still_known(s, t, x, e.inputs[j]);
    }
    if seen.dirty && !missing {
        let j = choose|j: int|
            0 <= j < i && j < e.first_order_only() && s.nodes[(
            #[trigger] e.inputs[j]).0 as int].dirty;
        assert(t.nodes[e.inputs[j].0 as int].dirty);
    }
    if let Some(m) = seen.newest {
        let j = choose|j: int|
            0 <= j < i && j < e.first_order_only() && (#[trigger] e.inputs[j]) == m
                && !s.nodes[m.0 as int].dirty;
        assert(e.inputs[j] == m && !t.nodes[m.0 as int].dirty);
    }
}

proof fn lemma_input_seen<D: DiskInterface>(
    c: Sources<D::Model>,
    fresh: bool,
    p: Progress,
    node: NodeId,
    edge: EdgeId,
    i: int,
    missing: bool,
    seen: Seen,
)
    requires
        all_right(c.log, fresh, p.state),
        sources_fit(c, p.state.nodes.len()),
        edge.0 < p.state.edges.len(),
        p.state.edges[edge.0 as int].mark == VisitMark::InStack,
        0 <= i < p.state.edges[edge.0 as int].inputs.len(),
        seen_right(p.state, edge.0 as int, i, missing, seen),
        is_known(p.state, p.state.edges[edge.0 as int].inputs[i]),
    ensures
        ({
            let x = edge.0 as int;
            let solid = p.state.edges[x].first_order_only();
            let (q, now) = input_seen(p, node, edge, i, solid, seen);
            &&& q.validations == p.validations
            &&& step::<D>(c, fresh, p.state, q.state, x)
            &&& q.state.edges[x] == (EdgeView {
                outputs_ready: q.state.edges[x].outputs_ready,
                ..p.state.edges[x]
            })
            &&& seen_right(q.state, x, i + 1, missing, now)
        }),
{
    let x = edge.0 as int;
    let s = p.state;
    let e = s.edges[x];
    let solid = e.first_order_only();
    let t = input_seen(p, node, edge, i, solid, seen).0.state;
    assert(s.edge_ok(e));
    assert(t.nodes == s.nodes);
    lemma_own_step::<D>(c, fresh, s, t, x);
    assert forall|j: int| 0 <= j <= i && is_known(s, #[trigger] e.inputs[j]) implies is_known(
        t,
        e.inputs[j],
    ) && is_ready(t, e.inputs[j]) == is_ready(s, e.inputs[j]) by {
        lemma_still_known(s, t, x, e.inputs[j]);
    }
    lemma_one_more_seen(p, node, edge, i, missing, seen);
}

proof fn lemma_one_more_seen(
    p: Progress,
    node: NodeId,
    edge: EdgeId,
    i: int,
    missing: bool,
    seen: Seen,
)
    requires
        edge.0 < p.state.edges.len(),
        0 <= i < p.state.edges[edge.0 as int].inputs.len(),
        seen_right(p.state, edge.0 as int, i, missing, seen),
        ({
            let e = p.state.edges[edge.0 as int];
            let t = input_seen(p, node, edge, i, e.first_order_only(), seen).0.state;
            &&& is_known(p.state, e.inputs[i])
            &&& forall|j: int|
                0 <= j <= i && is_known(p.state, #[trigger] e.inputs[j]) ==> is_known(
                    t,
                    e.inputs[j],
                ) && is_ready(t, e.inputs[j]) == is_ready(p.state, e.inputs[j])
        }),
    ensures
        ({
            let x = edge.0 as int;
            let solid = p.state.edges[x].first_order_only();
            let (q, now) = input_seen(p, node, edge, i, solid, seen);
            seen_right(q.state, x, i + 1, missing, now)
        }),
{
    reveal(seen_right);
    let x = edge.0 as int;
    let s = p.state;
    let e = s.edges[x];
    let solid = e.first_order_only();
    let (q, now) = input_seen(p, node, edge, i, solid, seen);
    let t = q.state;
    let f = t.edges[x];
    let input = e.inputs[i];
    assert(f.inputs == e.inputs && f.first_order_only() == solid && t.nodes == s.nodes);
    if seen.dirty && !missing {
        let j = choose|j: int|
            0 <= j < i && j < solid && s.nodes[(#[trigger] e.inputs[j]).0 as int].dirty;
        assert(0 <= j < i + 1 && t.nodes[f.inputs[j].0 as int].dirty);
    }
    if i < solid && s.nodes[input.0 as int].dirty {
        assert(t.nodes[f.inputs[i].0 as int].dirty);
    }
    if let Some(m) = seen.newest {
        let j = choose|j: int|
            0 <= j < i && j < solid && (#[trigger] e.inputs[j]) == m && !s.nodes[m.0 as int].dirty;
        assert(0 <= j < i + 1 && f.inputs[j] == m);
    }
    if now.newest == Some(input) {
        assert(f.inputs[i] == input);
    }
    assert(f.outputs_ready == (e.outputs_ready && is_ready(s, input)));
    assert(is_ready(t, f.inputs[i]) == is_ready(s, input));
}

proof fn lemma_inputs_visited<D: DiskInterface>(
    c: Sources<D::Model>,
    fresh: bool,
    p: Progress,
    node: NodeId,
    edge: EdgeId,
    i: nat,
    missing: bool,
    seen: Seen,
    depth: nat,
)
    requires
        all_right(c.log, fresh, p.state),
        sources_fit(c, p.state.nodes.len()),
        edge.0 < p.state.edges.len(),
        p.state.edges[edge.0 as int].mark == VisitMark::InStack,
        nodes_below(p.validations, p.state.nodes.len()),
        i <= p.state.edges[edge.0 as int].inputs.len(),
        seen_right(p.state, edge.0 as int, i as int, missing, seen),
    ensures
        ({
            let x = edge.0 as int;
            let e = p.state.edges[x];
            inputs_visited::<D>(
                c,
                p,
                node,
                edge,
                i,
                e.inputs.len(),
                e.first_order_only(),
                seen,
                depth,
            ) matches Ok((q, now)) ==> {
                &&& nodes_below(q.validations, q.state.nodes.len())
                &&& step::<D>(c, fresh, p.state, q.state, x)
                &&& q.state.edges[x] == (EdgeView {
                    outputs_ready: q.state.edges[x].outputs_ready,
                    ..e
                })
                &&& seen_right(q.state, x, e.inputs.len() as int, missing, now)
            }
        }),
    decreases depth, 3nat, p.state.edges[edge.0 as int].inputs.len() - i,
{
    let x = edge.0 as int;
    let s = p.state;
    let e = s.edges[x];
    assert(s.edge_ok(e));
    lemma_own_step::<D>(c, fresh, s, s, x);
    if i < e.inputs.len() {
        lemma_visited::<D>(c, fresh, p, e.inputs[i as int], depth);
        if let Ok(q) = visited::<D>(c, p, e.inputs[i as int], depth) {
            let t = q.state;
            assert(t.edges[x] == e);
            lemma_any_but(s, t, x);
            assert(step::<D>(c, fresh, s, t, x));
            lemma_still_seen(s, t, x, i as int, missing, seen);
            lemma_input_seen::<D>(c, fresh, q, node, edge, i as int, missing, seen);
            let (r, now) = input_seen(q, node, edge, i as int, e.first_order_only(), seen);
            lemma_step_twice::<D>(c, fresh, s, t, r.state, x);
            lemma_inputs_visited::<D>(c, fresh, r, node, edge, i + 1, missing, now, depth);
            if let Ok((u, last)) = inputs_visited::<D>(
                c,
                r,
                node,
                edge,
                i + 1,
                e.inputs.len(),
                e.first_order_only(),
                now,
                depth,
            ) {
                lemma_step_twice::<D>(c, fresh, s, r.state, u.state, x);
            }
        }
    }
}

proof fn lemma_any_but(s: StateView, t: StateView, x: int)
    requires
        goes_on(s, t, -1),
        linked(s),
    ensures
        goes_on(s, t, x),
{
}

proof fn lemma_newest_input(s: StateView, x: int, seen: Seen, t: i64)
    requires
        0 <= x < s.edges.len(),
        seen_right(s, x, s.edges[x].inputs.len() as int, false, seen),
        !seen.dirty,
    ensures
        !has_dirty_input(s, x),
        has_newer_input(s, x, t) == (seen.newest is Some && t < s.nodes[(
        seen.newest->0).0 as int].mtime),
{
    reveal(seen_right);
    let e = s.edges[x];
    if has_dirty_input(s, x) {
        let i = choose|i: int|
            matters(s, x, i) && s.nodes[(#[trigger] s.edges[x].inputs[i]).0 as int].dirty;
        assert(s.nodes[e.inputs[i].0 as int].dirty);
    }
    if has_newer_input(s, x, t) {
        let i = choose|i: int|
            matters(s, x, i) && t < s.nodes[(#[trigger] s.edges[x].inputs[i]).0 as int].mtime;
        assert(!s.nodes[e.inputs[i].0 as int].dirty);
    }
    if let Some(m) = seen.newest {
        if t < s.nodes[m.0 as int].mtime {
            let j = choose|j: int|
                0 <= j < e.inputs.len() && j < e.first_order_only() && (#[trigger] e.inputs[j])
                    == m && !s.nodes[m.0 as int].dirty;
            assert(matters(s, x, j) && t < s.nodes[s.edges[x].inputs[j].0 as int].mtime);
        }
    }
}

proof fn lemma_real_outputs_checked(
    log: Option<Entries>,
    p: Progress,
    edge: EdgeId,
    seen: Seen,
    k: int,
)
    requires
        edge.0 < p.state.edges.len(),
        p.state.edges[edge.0 as int].rule != phony_rule(),
        seen_right(
            p.state,
            edge.0 as int,
            p.state.edges[edge.0 as int].inputs.len() as int,
            false,
            seen,
        ),
        !seen.dirty,
        0 <= k,
    ensures
        ({
            let x = edge.0 as int;
            let outputs = p.state.edges[x].outputs;
            let (q, dirty) = outputs_checked(
                log,
                p,
                edge,
                seen.newest,
                p.state.hashed_command(x),
                outputs,
                k,
            );
            &&& q.state == p.state
            &&& q.validations == p.validations
            &&& q.stack == p.stack
            &&& dirty == exists|j: int|
                k <= j < outputs.len() && is_stale(log, p.state, x, #[trigger] outputs[j])
        }),
    decreases p.state.edges[edge.0 as int].outputs.len() - k,
{
    let x = edge.0 as int;
    let s = p.state;
    let outputs = s.edges[x].outputs;
    let command = s.hashed_command(x);
    if k < outputs.len() {
        let o = outputs[k];
        let n = s.nodes[o.0 as int];
        let (q, dirty) = output_checked(log, p, edge, seen.newest, command, o);
        lemma_newest_input(s, x, seen, n.mtime);
        if log is Some && log->0.contains_key(n.path) {
            lemma_newest_input(s, x, seen, log->0[n.path].mtime);
        }
        assert(dirty == is_stale(log, s, x, o) && q.state == s && q.stack == p.stack
            && q.validations == p.validations) by {
            reveal(output_checked);
        }
        if !dirty {
            lemma_real_outputs_checked(log, q, edge, seen, k + 1);
            let rest = outputs_checked(log, q, edge, seen.newest, command, outputs, k + 1).1;
            if rest {
                let j = choose|j: int|
                    k + 1 <= j < outputs.len() && is_stale(log, q.state, x, #[trigger] outputs[j]);
                assert(is_stale(log, s, x, outputs[j]));
            }
        } else {
            assert(is_stale(log, s, x, outputs[k]));
        }
    }
}

/// Whether nothing but the times of what edge `x` makes has risen.
spec fn only_raised(s: StateView, t: StateView, x: int) -> bool {
    &&& t == (StateView { nodes: t.nodes, ..s })
    &&& t.nodes.len() == s.nodes.len()
    &&& forall|n: int|
        0 <= n < s.nodes.len() ==> {
            &&& (#[trigger] t.nodes[n]) == (NodeView { mtime: t.nodes[n].mtime, ..s.nodes[n] })
            &&& s.nodes[n].mtime <= t.nodes[n].mtime
            &&& t.nodes[n].mtime == s.nodes[n].mtime || (s.nodes[n].in_edge == Some(
                EdgeId(x as usize),
            ) && s.nodes[n].exists != Existence::Exists)
        }
}

proof fn lemma_phony_outputs_checked(
    log: Option<Entries>,
    p: Progress,
    edge: EdgeId,
    newest: Option<NodeId>,
    command: Seq<char>,
    k: int,
)
    requires
        linked(p.state),
        edge.0 < p.state.edges.len(),
        p.state.edges[edge.0 as int].rule == phony_rule(),
        newest matches Some(m) ==> m.0 < p.state.nodes.len() && p.state.nodes[m.0 as int].in_edge
            != Some(edge),
        0 <= k,
    ensures
        ({
            let x = edge.0 as int;
            let e = p.state.edges[x];
            let (q, dirty) = outputs_checked(log, p, edge, newest, command, e.outputs, k);
            &&& only_raised(p.state, q.state, x)
            &&& q.validations == p.validations
            &&& q.stack == p.stack
            &&& dirty == exists|j: int|
                k <= j < e.outputs.len() && e.inputs.len() == 0 && p.state.nodes[(
                #[trigger] e.outputs[j]).0 as int].exists != Existence::Exists
            &&& !dirty && newest is Some ==> forall|j: int|
                k <= j < e.outputs.len() && q.state.nodes[(
                #[trigger] e.outputs[j]).0 as int].exists != Existence::Exists
                    ==> p.state.nodes[(newest->0).0 as int].mtime
                    <= q.state.nodes[e.outputs[j].0 as int].mtime
        }),
    decreases p.state.edges[edge.0 as int].outputs.len() - k,
{
    let x = edge.0 as int;
    let s = p.state;
    let e = s.edges[x];
    assert(s.edge_ok(e));
    assert(s.outputs_linked(x));
    if k < e.outputs.len() {
        let o = e.outputs[k];
        assert(s.nodes[s.edges[x].outputs[k].0 as int].in_edge == Some(EdgeId(x as usize)));
        let (r, dirty) = output_checked(log, p, edge, newest, command, o);
        assert(dirty == (e.inputs.len() == 0 && s.nodes[o.0 as int].exists != Existence::Exists)
            && r.stack == p.stack && r.validations == p.validations && only_raised(s, r.state, x) && (!dirty && newest is Some
            && s.nodes[o.0 as int].exists != Existence::Exists ==> s.nodes[(
        newest->0).0 as int].mtime <= r.state.nodes[o.0 as int].mtime)) by {
            reveal(output_checked);
        }
        if dirty {
            assert(s.nodes[e.outputs[k].0 as int].exists != Existence::Exists);
        } else {
            lemma_linked_raised(s, r.state, x);
            if let Some(m) = newest {
                assert(r.state.nodes[m.0 as int].mtime == s.nodes[m.0 as int].mtime);
            }
            lemma_phony_outputs_checked(log, r, edge, newest, command, k + 1);
            let (q, rest) = outputs_checked(log, r, edge, newest, command, e.outputs, k + 1);
            assert(only_raised(s, q.state, x)) by {
                assert forall|n: int| 0 <= n < s.nodes.len() implies {
                    &&& (#[trigger] q.state.nodes[n]) == (NodeView {
                        mtime: q.state.nodes[n].mtime,
                        ..s.nodes[n]
                    })
                    &&& s.nodes[n].mtime <= q.state.nodes[n].mtime
                    &&& q.state.nodes[n].mtime == s.nodes[n].mtime || (s.nodes[n].in_edge == Some(
                        EdgeId(x as usize),
                    ) && s.nodes[n].exists != Existence::Exists)
                } by {
                    assert(r.state.nodes[n].exists == s.nodes[n].exists);
                }
            }
            if rest {
                let j = choose|j: int|
                    k + 1 <= j < e.outputs.len() && e.inputs.len() == 0 && r.state.nodes[(
                    #[trigger] e.outputs[j]).0 as int].exists != Existence::Exists;
                assert(s.nodes[e.outputs[j].0 as int].exists
                    == r.state.nodes[e.outputs[j].0 as int].exists);
            } else {
                assert forall|j: int|
                    k <= j < e.outputs.len() && e.inputs.len() == 0 && s.nodes[(
                    #[trigger] e.outputs[j]).0 as int].exists
                        != Existence::Exists implies false by {
                    assert(s.nodes[e.outputs[j].0 as int].exists
                        == r.state.nodes[e.outputs[j].0 as int].exists);
                }
                if newest is Some {
                    assert forall|j: int|
                        k <= j < e.outputs.len() && q.state.nodes[(
                        #[trigger] e.outputs[j]).0 as int].exists
                            != Existence::Exists implies s.nodes[(newest->0).0 as int].mtime
                        <= q.state.nodes[e.outputs[j].0 as int].mtime by {
                        if j == k {
                            assert(r.state.nodes[o.0 as int].mtime
                                <= q.state.nodes[o.0 as int].mtime);
                            assert(q.state.nodes[o.0 as int].exists == s.nodes[o.0 as int].exists);
                        }
                    }
                }
            }
        }
    }
}

proof fn lemma_linked_raised(s: StateView, t: StateView, x: int)
    requires
        linked(s),
        only_raised(s, t, x),
    ensures
        linked(t),
{
    assert forall|e: int| 0 <= e < t.edges.len() implies t.edge_ok(#[trigger] t.edges[e]) by {
        assert(s.edge_ok(s.edges[e]));
    }
    assert forall|e: int| 0 <= e < t.edges.len() implies #[trigger] t.outputs_linked(e) by {
        assert(s.outputs_linked(e));
        assert(s.edge_ok(s.edges[e]));
        assert forall|k: int| 0 <= k < t.edges[e].outputs.len() implies t.nodes[(
        #[trigger] t.edges[e].outputs[k]).0 as int].in_edge == Some(EdgeId(e as usize)) by {
            assert(s.nodes[s.edges[e].outputs[k].0 as int].in_edge == Some(EdgeId(e as usize)));
        }
    }
    assert forall|n: int| 0 <= n < t.nodes.len() implies ((
    #[trigger] t.nodes[n]).in_edge matches Some(e) ==> e.0 < t.edges.len()) by {
        assert(s.nodes[n].in_edge == t.nodes[n].in_edge);
    }
}

proof fn lemma_all_dirty(s: StateView, nodes: Seq<NodeId>, k: int)
    requires
        nodes_below(nodes, s.nodes.len()),
        0 <= k,
    ensures
        ({
            let t = all_dirty(s, nodes, k);
            &&& t == (StateView { nodes: t.nodes, ..s })
            &&& t.nodes.len() == s.nodes.len()
            &&& forall|n: int|
                0 <= n < s.nodes.len() ==> (#[trigger] t.nodes[n]) == (NodeView {
                    dirty: t.nodes[n].dirty,
                    ..s.nodes[n]
                }) && (s.nodes[n].dirty ==> t.nodes[n].dirty) && (t.nodes[n].dirty
                    ==> s.nodes[n].dirty || exists|j: int|
                    k <= j < nodes.len() && (#[trigger] nodes[j]).0 == n)
            &&& forall|j: int|
                k <= j < nodes.len() ==> t.nodes[(#[trigger] nodes[j]).0 as int].dirty
        }),
    decreases nodes.len() - k,
{
    if k < nodes.len() {
        let i = nodes[k].0 as int;
        let u = s.with_node(i, NodeView { dirty: true, ..s.nodes[i] });
        lemma_all_dirty(u, nodes, k + 1);
        let t = all_dirty(s, nodes, k);
        assert(u.nodes[i].dirty);
        assert forall|n: int| 0 <= n < s.nodes.len() implies (#[trigger] t.nodes[n]) == (NodeView {
            dirty: t.nodes[n].dirty,
            ..s.nodes[n]
        }) && (s.nodes[n].dirty ==> t.nodes[n].dirty) && (t.nodes[n].dirty ==> s.nodes[n].dirty
            || exists|j: int| k <= j < nodes.len() && (#[trigger] nodes[j]).0 == n) by {
            if n == i {
                assert(nodes[k].0 == n);
            } else {
                assert(u.nodes[n] == s.nodes[n]);
            }
        }
    }
}

/// Whether nothing but the findings about what edge `x` makes, and that edge, has
/// changed.
spec fn only_own(s: StateView, t: StateView, x: int) -> bool {
    &&& t == (StateView { nodes: t.nodes, edges: t.edges, ..s })
    &&& t.nodes.len() == s.nodes.len()
    &&& t.edges.len() == s.edges.len()
    &&& forall|e: int| 0 <= e < s.edges.len() && e != x ==> #[trigger] t.edges[e] == s.edges[e]
    &&& t.edges[x] == (EdgeView {
        mark: VisitMark::Done,
        outputs_ready: t.edges[x].outputs_ready,
        ..s.edges[x]
    })
    &&& forall|n: int|
        0 <= n < s.nodes.len() ==> {
            &&& (#[trigger] t.nodes[n]) == (NodeView {
                mtime: t.nodes[n].mtime,
                dirty: t.nodes[n].dirty,
                ..s.nodes[n]
            })
            &&& s.nodes[n].in_edge == Some(EdgeId(x as usize)) || t.nodes[n] == s.nodes[n]
            &&& s.nodes[n].exists == Existence::Exists ==> t.nodes[n].mtime == s.nodes[n].mtime
        }
}

proof fn lemma_finished_linked(s: StateView, u: StateView, x: int)
    requires
        linked(s),
        0 <= x < s.edges.len(),
        only_own(s, u, x),
    ensures
        linked(u),
{
    assert forall|g: int| 0 <= g < u.edges.len() implies u.edge_ok(#[trigger] u.edges[g]) by {
        assert(s.edge_ok(s.edges[g]));
    }
    assert forall|g: int| 0 <= g < u.edges.len() implies #[trigger] u.outputs_linked(g) by {
        assert(s.outputs_linked(g));
        assert(s.edge_ok(s.edges[g]));
        assert(u.edges[g].outputs == s.edges[g].outputs);
        assert forall|k: int| 0 <= k < u.edges[g].outputs.len() implies u.nodes[(
        #[trigger] u.edges[g].outputs[k]).0 as int].in_edge == Some(EdgeId(g as usize)) by {
            assert(s.nodes[s.edges[g].outputs[k].0 as int].in_edge == Some(EdgeId(g as usize)));
        }
    }
    assert forall|n: int| 0 <= n < u.nodes.len() implies ((
    #[trigger] u.nodes[n]).in_edge matches Some(g) ==> g.0 < u.edges.len()) by {
        assert(s.nodes[n].in_edge == u.nodes[n].in_edge);
    }
}

/// Whether the outputs of edge `x` call for it to be dirty of itself.
spec fn is_dirty_itself(log: Option<Entries>, s: StateView, x: int) -> bool {
    exists|j: int|
        0 <= j < s.edges[x].outputs.len() && {
            let o = #[trigger] s.edges[x].outputs[j];
            if s.edges[x].rule == phony_rule() {
                s.edges[x].inputs.len() == 0 && s.nodes[o.0 as int].exists != Existence::Exists
            } else {
                is_stale(log, s, x, o)
            }
        }
}

proof fn lemma_checked(log: Option<Entries>, p: Progress, edge: EdgeId, seen: Seen)
    requires
        linked(p.state),
        edge.0 < p.state.edges.len(),
        p.state.edges[edge.0 as int].mark == VisitMark::InStack,
        seen_right(
            p.state,
            edge.0 as int,
            p.state.edges[edge.0 as int].inputs.len() as int,
            p.state.edges[edge.0 as int].deps_missing,
            seen,
        ),
        !seen.dirty,
    ensures
        ({
            let s = p.state;
            let x = edge.0 as int;
            let e = s.edges[x];
            let (q, dirty) = edge_checked(log, p, edge, seen.newest);
            &&& q.validations == p.validations
            &&& only_raised(s, q.state, x)
            &&& e.rule != phony_rule() ==> q.state == s
            &&& dirty == is_dirty_itself(log, s, x)
            &&& !dirty && e.rule == phony_rule() && seen.newest is Some ==> forall|j: int|
                0 <= j < e.outputs.len() && q.state.nodes[(
                #[trigger] e.outputs[j]).0 as int].exists != Existence::Exists ==> s.nodes[(
                seen.newest->0).0 as int].mtime <= q.state.nodes[e.outputs[j].0 as int].mtime
        }),
{
    let x = edge.0 as int;
    let s = p.state;
    let e = s.edges[x];
    let command = s.hashed_command(x);
    let dirty = edge_checked(log, p, edge, seen.newest).1;
    assert(s.edge_ok(e));
    assert(!e.deps_missing) by {
        reveal(seen_right);
    }
    if e.rule == phony_rule() {
        if let Some(m) = seen.newest {
            assert(m.0 < s.nodes.len() && s.nodes[m.0 as int].in_edge != Some(edge)) by {
                reveal(seen_right);
                let j = choose|j: int|
                    0 <= j < e.inputs.len() && j < e.first_order_only() && (#[trigger] e.inputs[j])
                        == m && !s.nodes[m.0 as int].dirty;
                assert(is_known(s, e.inputs[j]));
            }
        }
        lemma_phony_outputs_checked(log, p, edge, seen.newest, command, 0);
        if dirty {
            let j = choose|j: int|
                0 <= j < e.outputs.len() && e.inputs.len() == 0 && s.nodes[(
                #[trigger] e.outputs[j]).0 as int].exists != Existence::Exists;
            assert(s.edges[x].outputs[j] == e.outputs[j]);
        }
    } else {
        lemma_real_outputs_checked(log, p, edge, seen, 0);
        if dirty {
            let j = choose|j: int|
                0 <= j < e.outputs.len() && is_stale(log, s, x, #[trigger] e.outputs[j]);
            assert(s.edges[x].outputs[j] == e.outputs[j]);
        }
    }
}

#[verifier::spinoff_prover]
#[verifier::rlimit(60)]
proof fn lemma_finished_shape(
    log: Option<Entries>,
    p: Progress,
    node: NodeId,
    edge: EdgeId,
    seen: Seen,
)
    requires
        linked(p.state),
        edge.0 < p.state.edges.len(),
        p.state.edges[edge.0 as int].mark == VisitMark::InStack,
        seen_right(
            p.state,
            edge.0 as int,
            p.state.edges[edge.0 as int].inputs.len() as int,
            p.state.edges[edge.0 as int].deps_missing,
            seen,
        ),
    ensures
        ({
            let s = p.state;
            let x = edge.0 as int;
            let e = s.edges[x];
            let u = finished(log, p, node, edge, seen).state;
            let dirty = seen.dirty || is_dirty_itself(log, s, x);
            let idle = e.rule == phony_rule() && e.inputs.len() == 0;
            &&& finished(log, p, node, edge, seen).validations == p.validations
            &&& only_own(s, u, x)
            &&& e.rule != phony_rule() ==> forall|n: int|
                0 <= n < s.nodes.len() ==> (#[trigger] u.nodes[n]).mtime == s.nodes[n].mtime
            &&& u.edges[x].outputs_ready == (e.outputs_ready && (!dirty || idle))
            &&& dirty ==> outputs_dirty(u, x)
            &&& !dirty ==> forall|n: int|
                0 <= n < s.nodes.len() ==> (#[trigger] u.nodes[n]).dirty == s.nodes[n].dirty
            &&& !dirty && e.rule == phony_rule() && seen.newest is Some ==> forall|j: int|
                0 <= j < e.outputs.len() && u.nodes[(#[trigger] e.outputs[j]).0 as int].exists
                    != Existence::Exists ==> s.nodes[(seen.newest->0).0 as int].mtime
                    <= u.nodes[e.outputs[j].0 as int].mtime
        }),
{
    reveal(finished);
    let x = edge.0 as int;
    let s = p.state;
    let e = s.edges[x];
    assert(EdgeId(x as usize) == edge);
    assert(s.edge_ok(e));
    assert(s.outputs_linked(x));
    let (q, dirty) = if seen.dirty {
        (p, true)
    } else {
        edge_checked(log, p, edge, seen.newest)
    };
    if !seen.dirty {
        lemma_checked(log, p, edge, seen);
    }
    let r = q.state;
    assert(only_raised(s, r, x));
    assert(r.edges == s.edges);
    lemma_all_dirty(r, e.outputs, 0);
    let s1 = if dirty {
        all_dirty(r, e.outputs, 0)
    } else {
        r
    };
    let u = finished(log, p, node, edge, seen).state;
    assert(u.nodes == s1.nodes);
    assert forall|n: int| 0 <= n < s.nodes.len() implies {
        &&& (#[trigger] u.nodes[n]) == (NodeView {
            mtime: u.nodes[n].mtime,
            dirty: u.nodes[n].dirty,
            ..s.nodes[n]
        })
        &&& s.nodes[n].in_edge == Some(EdgeId(x as usize)) || u.nodes[n] == s.nodes[n]
        &&& s.nodes[n].exists == Existence::Exists ==> u.nodes[n].mtime == s.nodes[n].mtime
    } by {
        assert(r.nodes[n].in_edge == s.nodes[n].in_edge);
        if s1.nodes[n].dirty != r.nodes[n].dirty {
            let j = choose|j: int| 0 <= j < e.outputs.len() && (#[trigger] e.outputs[j]).0 == n;
            assert(s.nodes[s.edges[x].outputs[j].0 as int].in_edge == Some(EdgeId(x as usize)));
        }
    }
}

proof fn lemma_finished_right(
    log: Option<Entries>,
    fresh: bool,
    p: Progress,
    node: NodeId,
    edge: EdgeId,
    seen: Seen,
)
    requires
        linked(p.state),
        edge.0 < p.state.edges.len(),
        p.state.edges[edge.0 as int].mark == VisitMark::InStack,
        seen_right(
            p.state,
            edge.0 as int,
            p.state.edges[edge.0 as int].inputs.len() as int,
            p.state.edges[edge.0 as int].deps_missing,
            seen,
        ),
        fresh ==> outputs_clean(p.state, edge.0 as int),
        goes_on(p.state, finished(log, p, node, edge, seen).state, edge.0 as int),
    ensures
        is_right(log, fresh, finished(log, p, node, edge, seen).state, edge.0 as int),
{
    reveal(is_right);
    let x = edge.0 as int;
    let s = p.state;
    let e = s.edges[x];
    let u = finished(log, p, node, edge, seen).state;
    let f = u.edges[x];
    lemma_finished_shape(log, p, node, edge, seen);
    lemma_finished_linked(s, u, x);
    assert(s.edge_ok(e));
    assert(s.outputs_linked(x));
    assert forall|i: int| 0 <= i < e.inputs.len() implies is_known(s, #[trigger] e.inputs[i]) by {
        reveal(seen_right);
    }
    assert forall|i: int| 0 <= i < e.inputs.len() implies is_known(u, #[trigger] e.inputs[i])
        && is_ready(u, e.inputs[i]) == is_ready(s, e.inputs[i]) && u.nodes[e.inputs[i].0 as int]
        == s.nodes[e.inputs[i].0 as int] by {
        assert(is_known(s, e.inputs[i]));
        lemma_still_known(s, u, x, e.inputs[i]);
        assert(EdgeId(x as usize) == edge);
        assert(s.nodes[e.inputs[i].0 as int].in_edge != Some(edge));
    }
    let v = s.with_edge(x, f);
    assert(linked(v)) by {
        assert forall|g: int| 0 <= g < v.edges.len() implies v.edge_ok(#[trigger] v.edges[g]) by {
            assert(s.edge_ok(s.edges[g]));
        }
        assert forall|g: int| 0 <= g < v.edges.len() implies #[trigger] v.outputs_linked(g) by {
            assert(s.outputs_linked(g));
            assert(v.edges[g].outputs == s.edges[g].outputs);
            assert forall|k: int| 0 <= k < v.edges[g].outputs.len() implies v.nodes[(
            #[trigger] v.edges[g].outputs[k]).0 as int].in_edge == Some(EdgeId(g as usize)) by {
                assert(s.nodes[s.edges[g].outputs[k].0 as int].in_edge == Some(
                    EdgeId(g as usize),
                ));
            }
        }
    }
    let dirty = seen.dirty || is_dirty_itself(log, s, x);
    assert(dirty == must_run(log, v, x)) by {
        lemma_must_run_found(log, s, v, x, seen, dirty);
    }
    lemma_must_run_same(log, v, u, x);
    assert(e.outputs_ready == forall|j: int|
        0 <= j < e.inputs.len() ==> is_ready(s, #[trigger] e.inputs[j])) by {
        reveal(seen_right);
    }
    if !dirty {
        if fresh {
            assert forall|k: int| 0 <= k < u.edges[x].outputs.len() implies !u.nodes[(
            #[trigger] u.edges[x].outputs[k]).0 as int].dirty by {
                assert(!s.nodes[s.edges[x].outputs[k].0 as int].dirty);
            }
        }
        if e.rule == phony_rule() {
            assert forall|k: int, i: int|
                #![trigger u.edges[x].outputs[k], u.edges[x].inputs[i]]
                0 <= k < u.edges[x].outputs.len() && matters(u, x, i)
                    && u.nodes[u.edges[x].outputs[k].0 as int].exists
                    != Existence::Exists implies u.nodes[u.edges[x].inputs[i].0 as int].mtime
                <= u.nodes[u.edges[x].outputs[k].0 as int].mtime by {
                assert(0 <= i < e.first_order_only());
                assert(u.edges[x].inputs[i] == e.inputs[i]);
                assert(seen.newest is Some && s.nodes[e.inputs[i].0 as int].mtime <= s.nodes[(
                seen.newest->0).0 as int].mtime) by {
                    reveal(seen_right);
                    assert(!s.nodes[e.inputs[i].0 as int].dirty);
                }
                assert(u.edges[x].outputs[k] == e.outputs[k]);
            }
        }
    }
}

proof fn lemma_finished<D: DiskInterface>(
    c: Sources<D::Model>,
    fresh: bool,
    p: Progress,
    node: NodeId,
    edge: EdgeId,
    seen: Seen,
)
    requires
        all_right(c.log, fresh, p.state),
        sources_fit(c, p.state.nodes.len()),
        edge.0 < p.state.edges.len(),
        p.state.edges[edge.0 as int].mark == VisitMark::InStack,
        seen_right(
            p.state,
            edge.0 as int,
            p.state.edges[edge.0 as int].inputs.len() as int,
            p.state.edges[edge.0 as int].deps_missing,
            seen,
        ),
        fresh ==> outputs_clean(p.state, edge.0 as int),
    ensures
        ({
            let q = finished(c.log, p, node, edge, seen);
            let x = edge.0 as int;
            &&& q.validations == p.validations
            &&& goes_on(p.state, q.state, x)
            &&& all_right(c.log, fresh, q.state)
            &&& sources_fit(c, q.state.nodes.len())
            &&& q.state.edges[x].mark == VisitMark::Done
            &&& is_true::<D>(c.disk, p.state) ==> is_true::<D>(c.disk, q.state)
        }),
{
    let log = c.log;
    let x = edge.0 as int;
    let s = p.state;
    assert(EdgeId(x as usize) == edge);
    lemma_finished_shape(log, p, node, edge, seen);
    let u = finished(log, p, node, edge, seen).state;
    lemma_finished_linked(s, u, x);
    assert(goes_on(s, u, x));
    lemma_finished_right(log, fresh, p, node, edge, seen);
    assert forall|g: int|
        0 <= g < u.edges.len() && (#[trigger] u.edges[g]).mark == VisitMark::Done implies is_right(
        log,
        fresh,
        u,
        g,
    ) by {
        if g != x {
            lemma_still_right(log, fresh, s, u, x, g);
        }
    }
    if fresh {
        lemma_unvisited_clean(s, u, x);
    }
    assert(nothing_pending(u));
    if is_true::<D>(c.disk, s) {
        assert forall|n: int| 0 <= n < u.nodes.len() implies is_found::<D>(
            c.disk,
            #[trigger] u.nodes[n],
        ) by {
            assert(is_found::<D>(c.disk, s.nodes[n]));
        }
    }
}

proof fn lemma_must_run_found(
    log: Option<Entries>,
    s: StateView,
    v: StateView,
    x: int,
    seen: Seen,
    dirty: bool,
)
    requires
        linked(s),
        0 <= x < s.edges.len(),
        seen_right(
            s,
            x,
            s.edges[x].inputs.len() as int,
            s.edges[x].deps_missing,
            seen,
        ),
        v == s.with_edge(
            x,
            EdgeView {
                mark: v.edges[x].mark,
                outputs_ready: v.edges[x].outputs_ready,
                ..s.edges[x]
            },
        ),
        seen.dirty ==> dirty,
        !seen.dirty ==> dirty == exists|j: int|
            0 <= j < s.edges[x].outputs.len() && {
                let o = #[trigger] s.edges[x].outputs[j];
                if s.edges[x].rule == phony_rule() {
                    s.edges[x].inputs.len() == 0 && s.nodes[o.0 as int].exists != Existence::Exists
                } else {
                    is_stale(log, s, x, o)
                }
            },
    ensures
        must_run(log, v, x) == dirty,
{
    reveal(seen_right);
    let e = s.edges[x];
    assert(s.edge_ok(e));
    assert(says_same(s, v, x));
    law_bindings_are_fixed(s, v, x, "generator"@, Escape::Shell);
    law_bindings_are_fixed(s, v, x, "restat"@, Escape::Shell);
    assert(has_dirty_input(v, x) == has_dirty_input(s, x)) by {
        if has_dirty_input(s, x) {
            let i = choose|i: int|
                matters(s, x, i) && s.nodes[(#[trigger] s.edges[x].inputs[i]).0 as int].dirty;
            assert(matters(v, x, i) && v.nodes[v.edges[x].inputs[i].0 as int].dirty);
        }
        if has_dirty_input(v, x) {
            let i = choose|i: int|
                matters(v, x, i) && v.nodes[(#[trigger] v.edges[x].inputs[i]).0 as int].dirty;
            assert(matters(s, x, i) && s.nodes[s.edges[x].inputs[i].0 as int].dirty);
        }
    }
    assert forall|t: i64| #[trigger] has_newer_input(v, x, t) == has_newer_input(s, x, t) by {
        if has_newer_input(s, x, t) {
            let i = choose|i: int|
                matters(s, x, i) && t < s.nodes[(#[trigger] s.edges[x].inputs[i]).0 as int].mtime;
            assert(matters(v, x, i) && t < v.nodes[v.edges[x].inputs[i].0 as int].mtime);
        }
        if has_newer_input(v, x, t) {
            let i = choose|i: int|
                matters(v, x, i) && t < v.nodes[(#[trigger] v.edges[x].inputs[i]).0 as int].mtime;
            assert(matters(s, x, i) && t < s.nodes[s.edges[x].inputs[i].0 as int].mtime);
        }
    }
    assert forall|k: int| 0 <= k < e.outputs.len() implies is_stale(
        log,
        v,
        x,
        #[trigger] e.outputs[k],
    ) == is_stale(log, s, x, e.outputs[k]) by {}
    assert(seen.dirty == (e.deps_missing || has_dirty_input(s, x))) by {
        if has_dirty_input(s, x) {
            let i = choose|i: int|
                matters(s, x, i) && s.nodes[(#[trigger] s.edges[x].inputs[i]).0 as int].dirty;
            assert(s.nodes[e.inputs[i].0 as int].dirty);
        }
        if seen.dirty && !e.deps_missing {
            let j = choose|j: int|
                0 <= j < e.inputs.len() && j < e.first_order_only() && s.nodes[(
                #[trigger] e.inputs[j]).0 as int].dirty;
            assert(matters(s, x, j) && s.nodes[s.edges[x].inputs[j].0 as int].dirty);
        }
    }
    if !seen.dirty {
        if dirty {
            let j = choose|j: int|
                0 <= j < s.edges[x].outputs.len() && {
                    let o = #[trigger] s.edges[x].outputs[j];
                    if s.edges[x].rule == phony_rule() {
                        s.edges[x].inputs.len() == 0 && s.nodes[o.0 as int].exists
                            != Existence::Exists
                    } else {
                        is_stale(log, s, x, o)
                    }
                };
            assert(v.edges[x].outputs[j] == e.outputs[j]);
        }
        if must_run(log, v, x) {
            let j = choose|j: int|
                0 <= j < v.edges[x].outputs.len() && {
                    let o = #[trigger] v.edges[x].outputs[j];
                    if v.edges[x].rule == phony_rule() {
                        v.edges[x].inputs.len() == 0 && v.nodes[o.0 as int].exists
                            != Existence::Exists
                    } else {
                        is_stale(log, v, x, o)
                    }
                };
            assert(s.edges[x].outputs[j] == v.edges[x].outputs[j]);
        }
    }
}

proof fn lemma_visited<D: DiskInterface>(
    c: Sources<D::Model>,
    fresh: bool,
    p: Progress,
    node: NodeId,
    depth: nat,
)
    requires
        all_right(c.log, fresh, p.state),
        sources_fit(c, p.state.nodes.len()),
        node.0 < p.state.nodes.len(),
        nodes_below(p.validations, p.state.nodes.len()),
    ensures
        visited::<D>(c, p, node, depth) matches Ok(q) ==> {
            &&& goes_on(p.state, q.state, -1)
            &&& all_right(c.log, fresh, q.state)
            &&& sources_fit(c, q.state.nodes.len())
            &&& is_known(q.state, node)
            &&& nodes_below(q.validations, q.state.nodes.len())
            &&& is_true::<D>(c.disk, p.state) ==> is_true::<D>(c.disk, q.state)
        },
    decreases depth, 2nat, 0nat,
{
    let s = p.state;
    match s.nodes[node.0 as int].in_edge {
        None => {
            lemma_leaf_visited::<D>(c, fresh, p, node);
        },
        Some(edge) => {
            let x = edge.0 as int;
            let mark = s.edges[x].mark;
            assert(s.edge_ok(s.edges[x]));
            if mark == VisitMark::Unvisited && depth > 0 {
                let p1 = entered(p, node, edge);
                let d = (depth - 1) as nat;
                lemma_entered::<D>(c, fresh, p, node, edge);
                assert(crate::graph::dyndep_visited::<D>(c, p1, edge, d) == Ok::<
                    Progress,
                    crate::state::Cut<Progress>,
                >(p1)) by {
                    if let Some(n) = p1.state.edges[x].dyndep {
                        assert(p1.state.edge_ok(p1.state.edges[x]));
                        assert(!p1.state.nodes[n.0 as int].dyndep_pending);
                    }
                }
                lemma_outputs_visited::<D>(c, fresh, p1, edge);
                if let Ok((r, missing)) = outputs_visited::<D>(c, p1, edge) {
                    lemma_step_twice::<D>(c, fresh, s, p1.state, r.state, x);
                    let e = r.state.edges[x];
                    let t = Progress { validations: r.validations + e.validations, ..r };
                    let seen = Seen { dirty: missing, newest: None };
                    assert(r.state.edge_ok(e));
                    assert(nodes_below(t.validations, t.state.nodes.len()));
                    assert(seen_right(t.state, x, 0, missing, seen)) by {
                        reveal(seen_right);
                    }
                    lemma_inputs_visited::<D>(c, fresh, t, node, edge, 0, missing, seen, d);
                    if let Ok((u, now)) = inputs_visited::<D>(
                        c,
                        t,
                        node,
                        edge,
                        0,
                        e.inputs.len(),
                        e.first_order_only(),
                        seen,
                        d,
                    ) {
                        lemma_step_twice::<D>(c, fresh, s, r.state, u.state, x);
                        if fresh {
                            assert(s.outputs_linked(x));
                            assert forall|k: int|
                                0 <= k < u.state.edges[x].outputs.len() implies !u.state.nodes[(
                            #[trigger] u.state.edges[x].outputs[k]).0 as int].dirty by {
                                assert(u.state.edges[x].outputs == s.edges[x].outputs);
                                assert(s.nodes[s.edges[x].outputs[k].0 as int].in_edge == Some(
                                    EdgeId(x as usize),
                                ));
                                assert(!s.nodes[s.edges[x].outputs[k].0 as int].dirty);
                            }
                        }
                        lemma_finished::<D>(c, fresh, u, node, edge, now);
                        let q = finished(c.log, u, node, edge, now);
                        lemma_goes_on_twice(s, u.state, q.state, x);
                        assert(q.state.nodes[node.0 as int].in_edge == Some(edge));
                        assert(goes_on(s, q.state, -1)) by {
                            assert forall|n: int| 0 <= n < s.nodes.len() implies {
                                &&& (#[trigger] q.state.nodes[n]).path == s.nodes[n].path
                                &&& q.state.nodes[n].in_edge == s.nodes[n].in_edge
                                &&& is_known(s, NodeId(n as usize)) && n <= usize::MAX
                                    ==> same_findings(s.nodes[n], q.state.nodes[n])
                                &&& s.nodes[n].in_edge matches Some(f) ==> f.0 != -1
                                    && q.state.edges[f.0 as int].mark != VisitMark::Done
                                    ==> q.state.nodes[n].dirty == s.nodes[n].dirty
                            } by {}
                        }
                    }
                }
            } else if mark == VisitMark::Done {
                lemma_nothing_changed(s);
            }
        },
    }
}

proof fn lemma_nothing_changed(s: StateView)
    ensures
        goes_on(s, s, -1),
{
}

proof fn lemma_leaf_visited<D: DiskInterface>(
    c: Sources<D::Model>,
    fresh: bool,
    p: Progress,
    node: NodeId,
)
    requires
        all_right(c.log, fresh, p.state),
        sources_fit(c, p.state.nodes.len()),
        node.0 < p.state.nodes.len(),
        p.state.nodes[node.0 as int].in_edge is None,
    ensures
        crate::graph::leaf_visited::<D>(c.disk, p, node) matches Ok(q) ==> {
            &&& goes_on(p.state, q.state, -1)
            &&& all_right(c.log, fresh, q.state)
            &&& sources_fit(c, q.state.nodes.len())
            &&& q.validations == p.validations
            &&& is_known(q.state, node)
            &&& is_true::<D>(c.disk, p.state) ==> is_true::<D>(c.disk, q.state)
        },
{
    let s = p.state;
    let i = node.0 as int;
    lemma_nothing_changed(s);
    if let Ok(q) = crate::graph::leaf_visited::<D>(c.disk, p, node) {
        let t = q.state;
        if s.nodes[i].exists == Existence::Unknown {
            assert(t.edges == s.edges);
            assert forall|n: int| 0 <= n < s.nodes.len() && n != i implies #[trigger] t.nodes[n]
                == s.nodes[n] by {}
            assert(NodeId(i as usize) == node);
            assert(goes_on(s, t, -1));
            assert(linked(t)) by {
                assert forall|e: int| 0 <= e < t.edges.len() implies t.edge_ok(
                    #[trigger] t.edges[e],
                ) by {
                    assert(s.edge_ok(s.edges[e]));
                }
                assert forall|e: int| 0 <= e < t.edges.len() implies #[trigger] t.outputs_linked(
                    e,
                ) by {
                    assert(s.outputs_linked(e));
                    assert(s.edge_ok(s.edges[e]));
                    assert forall|k: int| 0 <= k < t.edges[e].outputs.len() implies t.nodes[(
                    #[trigger] t.edges[e].outputs[k]).0 as int].in_edge == Some(
                        EdgeId(e as usize),
                    ) by {
                        assert(s.nodes[s.edges[e].outputs[k].0 as int].in_edge == Some(
                            EdgeId(e as usize),
                        ));
                    }
                }
                assert forall|n: int| 0 <= n < t.nodes.len() implies ((
                #[trigger] t.nodes[n]).in_edge matches Some(e) ==> e.0 < t.edges.len()) by {
                    assert(s.nodes[n].in_edge == t.nodes[n].in_edge);
                }
            }
            assert(nothing_pending(t));
            lemma_all_still_right(c.log, fresh, s, t, -1);
        }
    }
}

/// Whether a graph has not been scanned: no edge has been visited, and nothing is
/// known of any file.
pub open spec fn is_unscanned(s: StateView) -> bool {
    &&& forall|e: int|
        0 <= e < s.edges.len() ==> (#[trigger] s.edges[e]).mark == VisitMark::Unvisited
    &&& forall|n: int|
        0 <= n < s.nodes.len() ==> (#[trigger] s.nodes[n]).exists == Existence::Unknown
            && !s.nodes[n].dirty
}

proof fn lemma_unscanned<D: DiskInterface>(m: D::Model, log: Option<Entries>, s: StateView)
    requires
        s.wf(),
        s.edges.len() <= usize::MAX,
        nothing_pending(s),
        is_unscanned(s),
    ensures
        all_right(log, true, s),
        is_true::<D>(m, s),
{
    assert(linked(s)) by {
        assert forall|n: int| 0 <= n < s.nodes.len() implies ((
        #[trigger] s.nodes[n]).in_edge matches Some(e) ==> e.0 < s.edges.len()) by {
            assert(s.node_ok(s.nodes[n]));
        }
    }
    assert(unvisited_clean(s)) by {
        assert forall|e: int, k: int|
            0 <= e < s.edges.len() && s.edges[e].mark == VisitMark::Unvisited && 0 <= k
                < s.edges[e].outputs.len() implies !s.nodes[(
        #[trigger] s.edges[e].outputs[k]).0 as int].dirty by {
            assert(s.edge_ok(s.edges[e]));
        }
    }
}

/// A scan keeps right what has been found out, and finds out about what it is
/// asked for, wherever no dyndep file is left to load.
pub proof fn law_scans_stay_right<D: DiskInterface>(
    c: Sources<D::Model>,
    fresh: bool,
    p: Progress,
    queue: Seq<NodeId>,
)
    requires
        all_right(c.log, fresh, p.state),
        sources_fit(c, p.state.nodes.len()),
        nodes_below(p.validations, p.state.nodes.len()),
        nodes_below(queue, p.state.nodes.len()),
    ensures
        queue_visited::<D>(c, p, queue) matches Ok(q) ==> {
            &&& all_right(c.log, fresh, q.state)
            &&& is_true::<D>(c.disk, p.state) ==> is_true::<D>(c.disk, q.state)
            &&& queue.len() > 0 ==> is_known(q.state, queue[0])
            &&& forall|n: NodeId|
                n.0 < p.state.nodes.len() && is_known(p.state, n) ==> #[trigger] is_known(
                    q.state,
                    n,
                )
        },
    decreases unvisited(p.state.edges), queue.len(),
{
    if queue.len() > 0 {
        let start = Progress { validations: Seq::empty(), stack: Seq::empty(), ..p };
        let s = p.state;
        lemma_visited::<D>(c, fresh, start, queue[0], s.edges.len());
        if let Ok(q) = visited::<D>(c, start, queue[0], s.edges.len()) {
            let t = q.state;
            let rest = queue.drop_first() + q.validations;
            let n = Progress {
                validations: p.validations + q.validations,
                stack: p.stack,
                ..q
            };
            assert forall|k: int| 0 <= k < rest.len() implies (#[trigger] rest[k]).0
                < t.nodes.len() by {
                if k < queue.len() - 1 {
                    assert(rest[k] == queue[k + 1]);
                } else {
                    assert(rest[k] == q.validations[k - (queue.len() - 1)]);
                }
            }
            assert(nodes_below(n.validations, t.nodes.len()));
            assert forall|x: NodeId| x.0 < s.nodes.len() && is_known(s, x) implies #[trigger] is_known(
                t,
                x,
            ) by {
                lemma_still_known(s, t, -1, x);
            }
            let a = unvisited(t.edges);
            let b = unvisited(s.edges);
            if a < b || (a == b && rest.len() < queue.len()) {
                law_scans_stay_right::<D>(c, fresh, n, rest);
            }
        }
    }
}

/// A scan of a graph finds out what is out of date: of the target, and of every
/// edge that was visited on the way, it is known whether it must run, and every
/// file that was looked at is what it is on the disk.
pub proof fn law_scans_find_what_is_stale<D: DiskInterface>(
    c: Sources<D::Model>,
    s: StateView,
    notes: Option<crate::graph::Notes>,
    target: NodeId,
)
    requires
        s.wf(),
        s.edges.len() <= usize::MAX,
        nothing_pending(s),
        is_unscanned(s),
        sources_fit(c, s.nodes.len()),
        target.0 < s.nodes.len(),
    ensures
        queue_visited::<D>(
            c,
            Progress { state: s, notes, validations: Seq::empty(), stack: Seq::empty() },
            seq![target],
        ) matches Ok(q) ==> {
            &&& is_known(q.state, target)
            &&& is_true::<D>(c.disk, q.state)
            &&& forall|e: int|
                0 <= e < q.state.edges.len() && (#[trigger] q.state.edges[e]).mark
                    == VisitMark::Done ==> is_right(c.log, true, q.state, e)
        },
{
    lemma_unscanned::<D>(c.disk, c.log, s);
    let p = Progress { state: s, notes, validations: Seq::empty(), stack: Seq::empty() };
    assert(seq![target][0] == target);
    law_scans_stay_right::<D>(c, true, p, seq![target]);
}

/// Whether `v` leads from an input of edge `e` that matters through edges that run
/// nothing, by inputs that matter, and through names of no files.
pub open spec fn is_alias_chain(s: StateView, e: int, v: Seq<NodeId>) -> bool {
    &&& v.len() > 0
    &&& exists|i: int| matters(s, e, i) && #[trigger] s.edges[e].inputs[i] == v[0]
    &&& forall|k: int| 0 <= k < v.len() - 1 ==> #[trigger] stands_for(s, v[k], v[k + 1])
}

/// Whether `a` is the name of no file that stands for `b`.
pub open spec fn stands_for(s: StateView, a: NodeId, b: NodeId) -> bool {
    match s.nodes[a.0 as int].in_edge {
        None => false,
        Some(f) => {
            &&& s.edges[f.0 as int].rule == phony_rule()
            &&& s.edges[f.0 as int].outputs.contains(a)
            &&& s.nodes[a.0 as int].exists != Existence::Exists
            &&& exists|i: int|
                matters(s, f.0 as int, i) && #[trigger] s.edges[f.0 as int].inputs[i] == b
        },
    }
}

proof fn lemma_alias_chain(
    log: Option<Entries>,
    fresh: bool,
    s: StateView,
    v: Seq<NodeId>,
    k: int,
)
    requires
        all_right(log, fresh, s),
        0 <= k < v.len(),
        v[k].0 < s.nodes.len(),
        is_known(s, v[k]),
        forall|j: int| 0 <= j < v.len() - 1 ==> #[trigger] stands_for(s, v[j], v[j + 1]),
    ensures
        s.nodes[v[k].0 as int].dirty || s.nodes[v.last().0 as int].mtime
            <= s.nodes[v[k].0 as int].mtime,
    decreases v.len() - k,
{
    if k < v.len() - 1 {
        reveal(is_right);
        assert(stands_for(s, v[k], v[k + 1]));
        let maker = s.nodes[v[k].0 as int].in_edge->0;
        let f = maker.0 as int;
        let outs = s.edges[f].outputs;
        let j = choose|j: int| 0 <= j < outs.len() && outs[j] == v[k];
        let i = choose|i: int| matters(s, f, i) && #[trigger] s.edges[f].inputs[i] == v[k + 1];
        assert(s.edge_ok(s.edges[f]));
        assert(is_right(log, fresh, s, f));
        assert(is_known(s, s.edges[f].inputs[i]));
        lemma_alias_chain(log, fresh, s, v, k + 1);
        if must_run(log, s, f) {
            assert(s.nodes[s.edges[f].outputs[j].0 as int].dirty);
        } else {
            if s.nodes[v[k + 1].0 as int].dirty {
                assert(matters(s, f, i) && s.nodes[s.edges[f].inputs[i].0 as int].dirty);
                assert(has_dirty_input(s, f));
            }
            assert(s.edges[f].outputs[j] == v[k] && s.edges[f].inputs[i] == v[k + 1]);
            assert(stands_for_inputs(s, f));
        }
    }
}

/// A change shows through names that stand for other files: where it is right
/// what has been found out, an output of a command that is older than a file that
/// the command needs by way of such names is dirty, unless the command may leave
/// the output alone and has been recorded.
pub proof fn law_changes_show_through_names(
    log: Option<Entries>,
    fresh: bool,
    s: StateView,
    e: int,
    k: int,
    v: Seq<NodeId>,
)
    requires
        all_right(log, fresh, s),
        0 <= e < s.edges.len(),
        s.edges[e].mark == VisitMark::Done,
        s.edges[e].rule != phony_rule(),
        0 <= k < s.edges[e].outputs.len(),
        is_alias_chain(s, e, v),
        s.nodes[s.edges[e].outputs[k].0 as int].mtime < s.nodes[v.last().0 as int].mtime,
        !s.restat(e) || log is None || !log->0.contains_key(
            s.nodes[s.edges[e].outputs[k].0 as int].path,
        ),
    ensures
        outputs_dirty(s, e),
{
    reveal(is_right);
    let o = s.edges[e].outputs[k];
    let i = choose|i: int| matters(s, e, i) && #[trigger] s.edges[e].inputs[i] == v[0];
    assert(s.edge_ok(s.edges[e]));
    assert(is_right(log, fresh, s, e));
    assert(is_known(s, s.edges[e].inputs[i]));
    lemma_alias_chain(log, fresh, s, v, 0);
    if s.nodes[v[0].0 as int].dirty {
        assert(matters(s, e, i) && s.nodes[s.edges[e].inputs[i].0 as int].dirty);
        assert(has_dirty_input(s, e));
    } else {
        assert(matters(s, e, i) && s.nodes[o.0 as int].mtime < s.nodes[s.edges[e].inputs[i].0 as int].mtime);
        assert(has_newer_input(s, e, s.nodes[o.0 as int].mtime));
        assert(is_stale(log, s, e, o));
        assert(s.edges[e].outputs[k] == o);
    }
    assert(must_run(log, s, e));
}

/// Spliced inputs stand behind those that matter, before those that order.
pub proof fn lemma_spliced_in(s: StateView, edge: EdgeId, nodes: Seq<NodeId>, k: int)
    requires
        edge.0 < s.edges.len(),
        nodes_below(nodes, s.nodes.len()),
        s.edges[edge.0 as int].order_only_deps <= s.edges[edge.0 as int].inputs.len(),
        0 <= k <= nodes.len(),
    ensures
        ({
            let a = s.edges[edge.0 as int];
            let t = s.inputs_spliced(edge, nodes, k);
            let b = t.edges[edge.0 as int];
            &&& b.inputs.take(b.first_order_only()) == a.inputs.take(a.first_order_only())
                + nodes.skip(k)
            &&& b.inputs.skip(b.first_order_only()) == a.inputs.skip(a.first_order_only())
            &&& t.nodes.len() == s.nodes.len()
            &&& forall|n: int|
                0 <= n < s.nodes.len() ==> (#[trigger] t.nodes[n]).path == s.nodes[n].path
        }),
    decreases nodes.len() - k,
{
    let a = s.edges[edge.0 as int];
    if k < nodes.len() {
        crate::graph::law_discovered_inputs_precede_order_only(s, edge, nodes[k]);
        let u = s.input_spliced(edge, nodes[k]);
        lemma_spliced_in(u, edge, nodes, k + 1);
        let t = s.inputs_spliced(edge, nodes, k);
        let b = t.edges[edge.0 as int];
        assert(a.inputs.take(a.first_order_only()).push(nodes[k]) + nodes.skip(k + 1)
            =~= a.inputs.take(a.first_order_only()) + nodes.skip(k));
    } else {
        assert(a.inputs.take(a.first_order_only()) + nodes.skip(k) =~= a.inputs.take(
            a.first_order_only(),
        ));
    }
}

/// The nodes of discovered dependencies have their paths.
pub proof fn lemma_deps_named(s: StateView, paths: Seq<Seq<char>>, k: int, acc: Seq<NodeId>)
    requires
        0 <= k <= paths.len(),
        nodes_below(acc, s.nodes.len()),
        s.nodes.len() + (paths.len() - k) <= usize::MAX,
    ensures
        ({
            let (t, v) = deps_interned(s, paths, k, acc);
            &&& t.edges == s.edges
            &&& s.nodes.len() <= t.nodes.len()
            &&& forall|n: int| 0 <= n < s.nodes.len() ==> #[trigger] t.nodes[n] == s.nodes[n]
            &&& nodes_below(v, t.nodes.len())
            &&& v.len() == acc.len() + (paths.len() - k)
            &&& v.take(acc.len() as int) == acc
            &&& forall|j: int|
                k <= j < paths.len() ==> t.nodes[v[acc.len() + (j - k)].0 as int].path
                    == crate::canon::canonical(#[trigger] paths[j])
        }),
    decreases paths.len() - k,
{
    if k < paths.len() {
        let path = crate::canon::canonical(paths[k]);
        crate::state::lemma_node_index(s.nodes, path, 0);
        let u = s.interned(path, 0);
        let id = s.id_of(path);
        let more = acc.push(id);
        assert(u.nodes[id.0 as int].path == path);
        assert(nodes_below(more, u.nodes.len()));
        lemma_deps_named(u, paths, k + 1, more);
        let (t, v) = deps_interned(s, paths, k, acc);
        assert(v.take(acc.len() as int) =~= acc) by {
            assert(v.take(more.len() as int) == more);
            assert forall|i: int| 0 <= i < acc.len() implies v[i] == acc[i] by {
                assert(v.take(more.len() as int)[i] == more[i]);
            }
        }
        assert(v[acc.len() as int] == id) by {
            assert(v.take(more.len() as int)[acc.len() as int] == more[acc.len() as int]);
        }
        assert forall|n: int| 0 <= n < s.nodes.len() implies #[trigger] t.nodes[n] == s.nodes[n] by {
            assert(u.nodes[n] == s.nodes[n]);
        }
        assert(t.nodes[id.0 as int] == u.nodes[id.0 as int]);
    } else {
        assert(acc.take(acc.len() as int) =~= acc);
    }
}

/// What the discovered dependencies of an edge come to, by where they are kept:
/// in the deps log, in a depfile, or nowhere. Where they are known and not older
/// than the output, all of them become inputs that matter, behind those that were
/// there; the order-only inputs stay last. Where they are not known, they are
/// missing, and the inputs stay what they are.
pub proof fn law_discovered_dependencies_matter<D: DiskInterface>(
    c: Sources<D::Model>,
    p: Progress,
    edge: EdgeId,
)
    requires
        edge.0 < p.state.edges.len(),
        p.state.edges[edge.0 as int].outputs.len() > 0,
        p.state.edges[edge.0 as int].order_only_deps <= p.state.edges[edge.0 as int].inputs.len(),
        sources_fit(c, p.state.nodes.len()),
    ensures
        deps_applied::<D>(c, p, edge) matches Ok((q, there)) ==> {
            let e = edge.0 as int;
            let s = p.state;
            let a = s.edges[e];
            let b = q.state.edges[e];
            let out = s.nodes[a.outputs[0].0 as int];
            let depfile = s.binding(e, "depfile"@, Escape::Plain);
            let found = b.inputs.subrange(a.first_order_only(), b.first_order_only());
            &&& b.inputs.take(a.first_order_only()) == a.inputs.take(a.first_order_only())
            &&& b.inputs.skip(b.first_order_only()) == a.inputs.skip(a.first_order_only())
            &&& !there ==> b.inputs == a.inputs
            &&& if s.binding(e, "deps"@, Escape::Shell).len() > 0 {
                let known = match c.deps {
                    Some(l) => l.deps_of(s, a.outputs[0]),
                    None => None,
                };
                &&& there == (known matches Some(d) && out.mtime <= d.mtime)
                &&& there ==> found == known->0.nodes
            } else if depfile.len() > 0 {
                let content = D::content_of(c.disk, depfile);
                &&& there ==> content is Ok && content->Ok_0 is Some && ({
                    let names = crate::depfile::depfile_of(content->Ok_0->0);
                    &&& names is Ok
                    &&& s.nodes.len() + names->Ok_0.1.len() <= usize::MAX ==> found.len()
                        == names->Ok_0.1.len() && forall|j: int|
                        0 <= j < found.len() ==> q.state.nodes[(#[trigger] found[j]).0 as int].path
                            == crate::canon::canonical(names->Ok_0.1[j])
                })
            } else {
                there && b.inputs == a.inputs
            }
        },
{
    reveal(deps_applied);
    let e = edge.0 as int;
    let s = p.state;
    let a = s.edges[e];
    assert(a.inputs.subrange(a.first_order_only(), a.first_order_only()) =~= Seq::empty());
    if let Ok((q, there)) = deps_applied::<D>(c, p, edge) {
        let b = q.state.edges[e];
        if s.binding(e, "deps"@, Escape::Shell).len() > 0 {
            if there {
                let l = c.deps->0;
                let d = l.deps_of(s, a.outputs[0])->0;
                let id = s.nodes[a.outputs[0].0 as int].deps_log_id as int;
                assert(crate::deps_log::deps_fit(l.deps[id], s.nodes.len()));
                lemma_spliced_in(s, edge, d.nodes, 0);
                lemma_found(a.inputs, b.inputs, a.first_order_only(), b.first_order_only(), d.nodes);
            }
        } else {
            let depfile = s.binding(e, "depfile"@, Escape::Plain);
            if depfile.len() > 0 && there {
                let content = crate::graph::or_empty(D::content_of(c.disk, depfile)->Ok_0);
                let ins = crate::depfile::depfile_of(content)->Ok_0.1;
                let (t, v) = deps_interned(s, ins, 0, Seq::empty());
                lemma_deps_edges(s, ins, 0, Seq::empty());
                lemma_spliced_in(t, edge, v, 0);
                lemma_found(a.inputs, b.inputs, a.first_order_only(), b.first_order_only(), v);
                if s.nodes.len() + ins.len() <= usize::MAX {
                    lemma_deps_named(s, ins, 0, Seq::empty());
                    let found = b.inputs.subrange(a.first_order_only(), b.first_order_only());
                    assert forall|j: int| 0 <= j < found.len() implies q.state.nodes[(
                    #[trigger] found[j]).0 as int].path == crate::canon::canonical(ins[j]) by {
                        assert(found[j] == v[j]);
                        assert(t.nodes[v[0 + (j - 0)].0 as int].path == crate::canon::canonical(
                            ins[j],
                        ));
                    }
                }
            }
        }
    }
}

proof fn lemma_deps_edges(s: StateView, paths: Seq<Seq<char>>, k: int, acc: Seq<NodeId>)
    requires
        0 <= k,
        nodes_below(acc, s.nodes.len()),
    ensures
        deps_interned(s, paths, k, acc).0.edges == s.edges,
        nodes_below(
            deps_interned(s, paths, k, acc).1,
            deps_interned(s, paths, k, acc).0.nodes.len(),
        ),
    decreases paths.len() - k,
{
    if k < paths.len() {
        let path = crate::canon::canonical(paths[k]);
        crate::state::lemma_node_index(s.nodes, path, 0);
        let u = s.interned(path, 0);
        assert(nodes_below(acc.push(s.id_of(path)), u.nodes.len()));
        lemma_deps_edges(u, paths, k + 1, acc.push(s.id_of(path)));
    }
}

proof fn lemma_found(
    a: Seq<NodeId>,
    b: Seq<NodeId>,
    i: int,
    j: int,
    v: Seq<NodeId>,
)
    requires
        0 <= i <= a.len(),
        0 <= j <= b.len(),
        b.take(j) == a.take(i) + v.skip(0),
    ensures
        j == i + v.len(),
        b.subrange(i, j) == v,
        b.take(i) == a.take(i),
{
    assert(v.skip(0) =~= v);
    assert(b.take(j).len() == j);
    assert(b.subrange(i, j) =~= v) by {
        assert forall|k: int| 0 <= k < v.len() implies b[i + k] == v[k] by {
            assert(b.take(j)[i + k] == (a.take(i) + v)[i + k]);
        }
    }
    assert(b.take(i) =~= a.take(i)) by {
        assert forall|k: int| 0 <= k < i implies b[k] == a[k] by {
            assert(b.take(j)[k] == (a.take(i) + v)[k]);
        }
    }
}

} // verus!
