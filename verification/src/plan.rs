//! The build plan: which edges we intend to run, and in what order.

use vstd::prelude::*;
use vstd::string::*;

use crate::disk::DiskInterface;
use crate::dyndep::DyndepFile;
use crate::error::Error;
use crate::eval::phony_rule;
use crate::graph::{DependencyScan, Explanations};
use crate::state::{EdgeId, NodeId, PoolId, State, VisitMark};
use crate::text::push_decimal;

verus! {

use crate::dyndep::{dyndeps_loaded, entries_ok, Entries};
use crate::error::ErrorView;
use crate::graph::{
    advanced, at_rest, edge_checked, is_ready, lemma_sources_fit, lemma_unvisited_kept,
    lemma_unvisited_less, notes_of, output_checked, outputs_checked, progress, queue_visited,
    sources_fit, unvisited, Notes, Progress, Sources,
};
use crate::state::{
    cut, edge_dump, edges_below, nodes_below, Cut, EdgeView, NodeView, StateView,
};
use crate::text::decimal;

/// What we intend to do with an edge.
#[derive(Copy, Clone, PartialEq, Eq, Structural, Debug)]
pub enum Want {
    /// We do not want to build this edge, but we may want a dependent of it.
    Nothing,
    /// We want to build it and have not scheduled it yet.
    ToStart,
    /// It has been scheduled and we are waiting for it.
    ToFinish,
}

/// How an edge ended.
#[derive(Copy, Clone, PartialEq, Eq, Structural, Debug)]
pub enum EdgeResult {
    /// The command failed.
    Failed,
    /// The command succeeded.
    Succeeded,
}

/// A change in the number of commands to run, for whoever shows the progress.
#[derive(Copy, Clone, PartialEq, Eq, Structural, Debug)]
pub enum PlanChange {
    /// A command has been added to the plan.
    Added(EdgeId),
    /// A command has turned out not to be needed.
    Removed(EdgeId),
}

/// An edge that is ready to run, with its priority.
#[derive(Copy, Clone, PartialEq, Eq, Structural, Debug)]
pub struct ReadyEdge {
    pub weight: i64,
    pub edge: EdgeId,
}

/// An edge that waits for its pool, with its priority.
#[derive(Copy, Clone, PartialEq, Eq, Structural, Debug)]
pub struct DelayedEdge {
    pub pool: PoolId,
    pub weight: i64,
    pub edge: EdgeId,
}

/// Whether `a` runs sooner than `b`: the highest weight comes first, then the
/// lowest edge id, which is manifest order.
pub open spec fn runs_before(a: ReadyEdge, b: ReadyEdge) -> bool {
    a.weight > b.weight || (a.weight == b.weight && a.edge.0 < b.edge.0)
}

/// Whether `a` stands before `b` among the edges that wait: by pool, then as
/// among those that are ready.
pub open spec fn waits_before(a: DelayedEdge, b: DelayedEdge) -> bool {
    a.pool.0 < b.pool.0 || (a.pool.0 == b.pool.0 && (a.weight > b.weight || (a.weight == b.weight
        && a.edge.0 < b.edge.0)))
}

/// The first place from the `k`-th on whose edge runs after `x`.
pub open spec fn ready_place(v: Seq<ReadyEdge>, x: ReadyEdge, k: int) -> int
    decreases v.len() - k,
{
    if 0 <= k < v.len() && !runs_before(x, v[k]) {
        ready_place(v, x, k + 1)
    } else {
        k
    }
}

/// The queue with one more edge.
pub open spec fn ready_with(v: Seq<ReadyEdge>, x: ReadyEdge) -> Seq<ReadyEdge> {
    v.insert(ready_place(v, x, 0), x)
}

/// The first place from the `k`-th on whose edge does not stand before `x`.
pub open spec fn delayed_place(v: Seq<DelayedEdge>, x: DelayedEdge, k: int) -> int
    decreases v.len() - k,
{
    if 0 <= k < v.len() && waits_before(v[k], x) {
        delayed_place(v, x, k + 1)
    } else {
        k
    }
}

/// The waiting edges with `x` among them.
pub open spec fn delayed_with(v: Seq<DelayedEdge>, x: DelayedEdge) -> Seq<DelayedEdge> {
    let k = delayed_place(v, x, 0);
    if k < v.len() && v[k] == x {
        v
    } else {
        v.insert(k, x)
    }
}

/// Accepts every waiting edge but `x`.
pub open spec fn other_than(x: DelayedEdge) -> spec_fn(DelayedEdge) -> bool {
    |d: DelayedEdge| d != x
}

/// Accepts the waiting edges of a pool.
pub open spec fn of_pool(pool: PoolId) -> spec_fn(DelayedEdge) -> bool {
    |d: DelayedEdge| d.pool == pool
}

/// The waiting edges without `x`.
pub open spec fn delayed_without(v: Seq<DelayedEdge>, x: DelayedEdge) -> Seq<DelayedEdge> {
    v.filter(other_than(x))
}

/// The waiting edges of a pool.
pub open spec fn waiting_in(v: Seq<DelayedEdge>, pool: PoolId) -> Seq<DelayedEdge> {
    v.filter(of_pool(pool))
}

/// What is intended with `edge`.
pub open spec fn want_of(v: Seq<Option<Want>>, edge: EdgeId) -> Option<Want> {
    if edge.0 < v.len() {
        v[edge.0 as int]
    } else {
        None
    }
}

/// The intentions with that for `edge` replaced.
pub open spec fn with_want(v: Seq<Option<Want>>, edge: EdgeId, w: Option<Want>) -> Seq<Option<Want>> {
    Seq::new(
        if edge.0 < v.len() {
            v.len()
        } else {
            (edge.0 + 1) as nat
        },
        |i: int|
            if i == edge.0 {
                w
            } else if i < v.len() {
                v[i]
            } else {
                None
            },
    )
}

/// The number of edges in the plan.
pub open spec fn planned(v: Seq<Option<Want>>) -> nat
    decreases v.len(),
{
    if v.len() == 0 {
        0
    } else {
        planned(v.drop_last()) + if v.last() is Some {
            1nat
        } else {
            0nat
        }
    }
}

/// A plan by what it holds.
#[verifier::ext_equal]
pub struct PlanView {
    /// What is intended with each edge of the plan.
    pub want: Seq<Option<Want>>,
    /// The edges that are ready to run, the next one first.
    pub ready: Seq<ReadyEdge>,
    /// The edges that wait for their pools.
    pub delayed: Seq<DelayedEdge>,
    pub targets: Seq<NodeId>,
    pub command_edges: i64,
    pub wanted_edges: i64,
    /// The changes that nobody has been told of yet.
    pub changes: Seq<PlanChange>,
}

/// The plan to do nothing.
pub open spec fn empty_plan() -> PlanView {
    PlanView {
        want: Seq::empty(),
        ready: Seq::empty(),
        delayed: Seq::empty(),
        targets: Seq::empty(),
        command_edges: 0,
        wanted_edges: 0,
        changes: Seq::empty(),
    }
}

impl PlanView {
    /// Whether all ids are ids of the graph.
    pub open spec fn fits(self, s: StateView) -> bool {
        &&& self.want.len() <= s.edges.len()
        &&& forall|i: int| 0 <= i < self.ready.len() ==> (#[trigger] self.ready[i]).edge.0 < s.edges.len()
        &&& forall|i: int|
            0 <= i < self.delayed.len() ==> (#[trigger] self.delayed[i]).edge.0 < s.edges.len()
                && self.delayed[i].pool.0 < s.pools.len()
        &&& nodes_below(self.targets, s.nodes.len())
    }

    /// What is intended with `edge`.
    pub open spec fn wants(self, edge: EdgeId) -> Option<Want> {
        want_of(self.want, edge)
    }

    /// The plan with another intention for `edge`.
    pub open spec fn with_want(self, edge: EdgeId, w: Option<Want>) -> PlanView {
        PlanView { want: with_want(self.want, edge, w), ..self }
    }

    /// The plan with `edge` ready to run.
    pub open spec fn with_ready(self, s: StateView, edge: EdgeId) -> PlanView {
        PlanView {
            ready: ready_with(
                self.ready,
                ReadyEdge { weight: s.edges[edge.0 as int].critical_path_weight, edge },
            ),
            ..self
        }
    }

    /// The plan with `edge` waiting for its pool.
    pub open spec fn with_delayed(self, s: StateView, edge: EdgeId) -> PlanView {
        PlanView { delayed: delayed_with(self.delayed, delayed_edge(s, edge)), ..self }
    }

    /// The plan with one more edge to run.
    pub open spec fn edge_wanted(self, s: StateView, edge: EdgeId) -> PlanView {
        let phony = s.edges[edge.0 as int].rule == phony_rule();
        PlanView {
            wanted_edges: self.wanted_edges.wrapping_add(1),
            command_edges: if phony {
                self.command_edges
            } else {
                self.command_edges.wrapping_add(1)
            },
            changes: if phony {
                self.changes
            } else {
                self.changes.push(PlanChange::Added(edge))
            },
            ..self
        }
    }
}

/// `edge` as one that waits for its pool.
pub open spec fn delayed_edge(s: StateView, edge: EdgeId) -> DelayedEdge {
    let e = s.edges[edge.0 as int];
    DelayedEdge { pool: e.pool, weight: e.critical_path_weight, edge }
}

/// A plan together with its graph.
#[verifier::ext_equal]
pub struct Work {
    pub plan: PlanView,
    pub state: StateView,
    /// The dyndep files that are to be loaded.
    pub pending: Seq<NodeId>,
}

/// A plan together with its graph.
pub open spec fn work(plan: PlanView, state: StateView, pending: Seq<NodeId>) -> Work {
    Work { plan, state, pending }
}

/// How many more edges fit into a pool.
pub open spec fn room_in(s: StateView, pool: PoolId) -> nat {
    let p = s.pools[pool.0 as int];
    if p.current_use < p.depth {
        (p.depth - p.current_use) as nat
    } else {
        0
    }
}

/// The waiting edges of a pool that fit into it.
pub open spec fn promoted(plan: PlanView, s: StateView, pool: PoolId) -> Seq<DelayedEdge> {
    let v = waiting_in(plan.delayed, pool);
    v.take(
        if room_in(s, pool) < v.len() {
            room_in(s, pool) as int
        } else {
            v.len() as int
        },
    )
}

/// The waiting edges without the first `k` of `edges`.
pub open spec fn without_promoted(
    v: Seq<DelayedEdge>,
    s: StateView,
    pool: PoolId,
    edges: Seq<DelayedEdge>,
    k: int,
) -> Seq<DelayedEdge>
    decreases k,
{
    if k <= 0 {
        v
    } else {
        let e = edges[k - 1].edge;
        delayed_without(
            without_promoted(v, s, pool, edges, k - 1),
            DelayedEdge { pool, weight: s.edges[e.0 as int].critical_path_weight, edge: e },
        )
    }
}

/// The edges from the `k`-th on ready to run, and counted in their pool.
pub open spec fn made_ready(w: Work, pool: PoolId, edges: Seq<DelayedEdge>, k: int) -> Work
    decreases edges.len() - k,
{
    if 0 <= k < edges.len() {
        made_ready(
            Work {
                plan: w.plan.with_ready(w.state, edges[k].edge),
                state: w.state.pool_taken(pool),
                ..w
            },
            pool,
            edges,
            k + 1,
        )
    } else {
        w
    }
}

/// As many waiting edges of a pool as fit into it ready to run.
#[verifier::opaque]
pub open spec fn retrieved(w: Work, pool: PoolId) -> Work {
    let edges = promoted(w.plan, w.state, pool);
    made_ready(
        Work {
            plan: PlanView {
                delayed: without_promoted(
                    w.plan.delayed,
                    w.state,
                    pool,
                    edges,
                    edges.len() as int,
                ),
                ..w.plan
            },
            ..w
        },
        pool,
        edges,
        0,
    )
}

/// `edge`, whose inputs are ready, scheduled.
pub open spec fn scheduled(w: Work, edge: EdgeId) -> Work {
    let pool = w.state.edges[edge.0 as int].pool;
    let p = w.plan.with_want(edge, Some(Want::ToFinish));
    if w.plan.wants(edge) == Some(Want::ToFinish) {
        w
    } else if w.state.pools[pool.0 as int].depth != 0 {
        retrieved(Work { plan: p.with_delayed(w.state, edge), ..w }, pool)
    } else {
        Work { plan: p.with_ready(w.state, edge), state: w.state.pool_taken(pool), ..w }
    }
}

/// The graph with the outputs of `edge` up to date.
pub open spec fn with_outputs_ready(s: StateView, edge: EdgeId) -> StateView {
    s.with_edge(edge.0 as int, EdgeView { outputs_ready: true, ..s.edges[edge.0 as int] })
}

/// What the end of `edge`, which is in the plan, comes to.
pub open spec fn edge_ended(w: Work, edge: EdgeId, result: EdgeResult, depth: nat) -> Work
    decreases depth, 0nat, 0nat,
{
    if depth == 0 {
        w
    } else {
        let pool = w.state.edges[edge.0 as int].pool;
        let wanted = w.plan.wants(edge) != Some(Want::Nothing);
        let freed = if wanted {
            Work { state: w.state.pool_freed(pool), ..w }
        } else {
            w
        };
        let x = retrieved(freed, pool);
        if result != EdgeResult::Succeeded {
            x
        } else {
            let y = Work {
                plan: PlanView {
                    wanted_edges: if wanted {
                        x.plan.wanted_edges.wrapping_sub(1)
                    } else {
                        x.plan.wanted_edges
                    },
                    ..x.plan.with_want(edge, None)
                },
                state: with_outputs_ready(x.state, edge),
                ..x
            };
            nodes_ended(y, y.state.edges[edge.0 as int].outputs, 0, (depth - 1) as nat)
        }
    }
}

/// What the nodes from the `k`-th on being up to date comes to.
pub open spec fn nodes_ended(w: Work, nodes: Seq<NodeId>, k: int, depth: nat) -> Work
    decreases depth, 3nat, nodes.len() - k,
{
    if 0 <= k < nodes.len() {
        let n = w.state.nodes[nodes[k].0 as int];
        let x = if n.dyndep_pending {
            Work { pending: w.pending.push(nodes[k]), ..w }
        } else {
            edges_maybe_ready(w, n.out_edges, 0, depth)
        };
        nodes_ended(x, nodes, k + 1, depth)
    } else {
        w
    }
}

/// The edges from the `k`-th on, where they are in the plan, scheduled if they
/// are ready.
pub open spec fn edges_maybe_ready(w: Work, edges: Seq<EdgeId>, k: int, depth: nat) -> Work
    decreases depth, 2nat, edges.len() - k,
{
    if 0 <= k < edges.len() {
        let x = maybe_ready(w, edges[k], depth);
        edges_maybe_ready(x, edges, k + 1, depth)
    } else {
        w
    }
}

/// `edge`, if it is in the plan and its inputs are ready, scheduled; if it need
/// not run itself, done.
pub open spec fn maybe_ready(w: Work, edge: EdgeId, depth: nat) -> Work
    decreases depth, 1nat, 0nat,
{
    match w.plan.wants(edge) {
        None => w,
        Some(want) => if !w.state.inputs_ready(edge.0 as int) {
            w
        } else if want == Want::Nothing {
            edge_ended(w, edge, EdgeResult::Succeeded, depth)
        } else {
            scheduled(w, edge)
        },
    }
}

/// The set of edges we want to build, and the queue of those ready to run.
pub struct Plan {
    want: Vec<Option<Want>>,
    ready: Vec<ReadyEdge>,
    delayed: Vec<DelayedEdge>,
    targets: Vec<NodeId>,
    command_edges: i64,
    wanted_edges: i64,
    changes: Vec<PlanChange>,
}

impl View for Plan {
    type V = PlanView;

    closed spec fn view(&self) -> PlanView {
        PlanView {
            want: self.want@,
            ready: self.ready@,
            delayed: self.delayed@,
            targets: self.targets@,
            command_edges: self.command_edges,
            wanted_edges: self.wanted_edges,
            changes: self.changes@,
        }
    }
}

impl Plan {
    /// An empty plan.
    pub fn new() -> (r: Plan)
        ensures
            r@ == empty_plan(),
    {
        let r = Plan {
            want: Vec::new(),
            ready: Vec::new(),
            delayed: Vec::new(),
            targets: Vec::new(),
            command_edges: 0,
            wanted_edges: 0,
            changes: Vec::new(),
        };
        assert(r@ =~= empty_plan());
        r
    }

    /// Forget everything but the changes that nobody has been told of yet.
    pub fn reset(&mut self)
        ensures
            final(self)@ == (PlanView { changes: old(self)@.changes, ..empty_plan() }),
    {
        self.command_edges = 0;
        self.wanted_edges = 0;
        self.ready = Vec::new();
        self.want = Vec::new();
        self.delayed = Vec::new();
        self.targets = Vec::new();
        assert(self@ =~= (PlanView { changes: old(self)@.changes, ..empty_plan() }));
    }

    /// True while there is still work to do.
    pub fn more_to_do(&self) -> (r: bool)
        ensures
            r == (self@.wanted_edges > 0 && self@.command_edges > 0),
    {
        self.wanted_edges > 0 && self.command_edges > 0
    }

    /// The number of edges with commands still in the plan.
    pub fn command_edge_count(&self) -> (r: i64)
        ensures
            r == self@.command_edges,
    {
        self.command_edges
    }

    /// The number of edges we still want to run, including phony ones.
    pub fn wanted_edge_count(&self) -> (r: i64)
        ensures
            r == self@.wanted_edges,
    {
        self.wanted_edges
    }

    /// What we intend to do with `edge`, if it is in the plan.
    pub fn want(&self, edge: EdgeId) -> (r: Option<Want>)
        ensures
            r == self@.wants(edge),
    {
        if edge.0 < self.want.len() {
            self.want[edge.0]
        } else {
            None
        }
    }

    /// The changes that nobody has been told of yet.
    pub fn take_changes(&mut self) -> (r: Vec<PlanChange>)
        ensures
            r@ == old(self)@.changes,
            final(self)@ == (PlanView { changes: Seq::empty(), ..old(self)@ }),
    {
        let mut r: Vec<PlanChange> = Vec::new();
        std::mem::swap(&mut r, &mut self.changes);
        assert(self@ =~= (PlanView { changes: Seq::empty(), ..old(self)@ }));
        r
    }

    fn set_want(&mut self, edge: EdgeId, w: Option<Want>)
        ensures
            final(self)@ == old(self)@.with_want(edge, w),
    {
        let ghost before = self.want@;
        while self.want.len() <= edge.0
            invariant
                self.ready == old(self).ready,
                self.delayed == old(self).delayed,
                self.targets == old(self).targets,
                self.command_edges == old(self).command_edges,
                self.wanted_edges == old(self).wanted_edges,
                self.changes == old(self).changes,
                before.len() <= self.want@.len(),
                self.want@.len() == before.len() || self.want@.len() <= edge.0 + 1,
                forall|i: int|
                    0 <= i < self.want@.len() ==> #[trigger] self.want@[i] == if i < before.len() {
                        before[i]
                    } else {
                        None
                    },
            decreases edge.0 + 1 - self.want@.len(),
        {
            self.want.push(None);
        }
        self.want.set(edge.0, w);
        assert(self.want@ =~= with_want(before, edge, w));
    }

    /// Take the next edge that is ready to run.
    pub fn find_work(&mut self) -> (r: Option<EdgeId>)
        ensures
            match r {
                Some(e) => old(self)@.ready.len() > 0 && e == old(self)@.ready[0].edge && final(
                    self)@ == (PlanView { ready: old(self)@.ready.drop_first(), ..old(self)@ }),
                None => old(self)@.ready.len() == 0 && final(self)@ == old(self)@,
            },
    {
        if self.ready.len() == 0 {
            return None;
        }
        let x = self.ready.remove(0);
        assert(self.ready@ =~= old(self)@.ready.drop_first());
        Some(x.edge)
    }

    /// True if no edge is ready to run right now.
    pub fn ready_is_empty(&self) -> (r: bool)
        ensures
            r == (self@.ready.len() == 0),
    {
        self.ready.len() == 0
    }

    fn push_ready(&mut self, state: &State, edge: EdgeId)
        requires
            edge.0 < state@.edges.len(),
            old(self)@.fits(state@),
        ensures
            final(self)@ == old(self)@.with_ready(state@, edge),
            final(self)@.fits(state@),
    {
        let x = ReadyEdge { weight: state.edge(edge).critical_path_weight(), edge };
        let ghost v = self.ready@;
        let mut k: usize = 0;
        while k < self.ready.len() && !(x.weight > self.ready[k].weight || (x.weight
            == self.ready[k].weight && x.edge.0 < self.ready[k].edge.0))
            invariant
                k <= self.ready@.len(),
                *self == *old(self),
                v == self.ready@,
                ready_place(v, x, k as int) == ready_place(v, x, 0),
            decreases self.ready@.len() - k,
        {
            k += 1;
        }
        self.ready.insert(k, x);
        proof {
            let w = self@.ready;
            assert(old(self)@.ready == v);
            assert(self@.delayed == old(self)@.delayed);
            assert(self@.targets == old(self)@.targets);
            assert forall|i: int| 0 <= i < w.len() implies (#[trigger] w[i]).edge.0
                < state@.edges.len() by {
                if i < k {
                    assert(w[i] == old(self)@.ready[i]);
                } else if i > k {
                    assert(w[i] == old(self)@.ready[i - 1]);
                }
            }
        }
    }

    fn delay_edge(&mut self, state: &State, edge: EdgeId)
        requires
            state.wf(),
            edge.0 < state@.edges.len(),
            old(self)@.fits(state@),
        ensures
            final(self)@ == old(self)@.with_delayed(state@, edge),
            final(self)@.fits(state@),
    {
        proof {
            state.lemma_wf();
            assert(state@.edge_ok(state@.edges[edge.0 as int]));
        }
        let x = DelayedEdge {
            pool: state.edge(edge).pool(),
            weight: state.edge(edge).critical_path_weight(),
            edge,
        };
        let ghost v = self.delayed@;
        let mut k: usize = 0;
        while k < self.delayed.len() && stands_before(&self.delayed[k], &x)
            invariant
                k <= self.delayed@.len(),
                *self == *old(self),
                v == self.delayed@,
                delayed_place(v, x, k as int) == delayed_place(v, x, 0),
            decreases self.delayed@.len() - k,
        {
            k += 1;
        }
        if k < self.delayed.len() && self.delayed[k] == x {
            return;
        }
        self.delayed.insert(k, x);
        proof {
            let w = self@.delayed;
            assert(old(self)@.delayed == v);
            assert(self@.ready == old(self)@.ready);
            assert(self@.targets == old(self)@.targets);
            assert forall|i: int| 0 <= i < w.len() implies (#[trigger] w[i]).edge.0
                < state@.edges.len() && w[i].pool.0 < state@.pools.len() by {
                if i < k {
                    assert(w[i] == old(self)@.delayed[i]);
                } else if i > k {
                    assert(w[i] == old(self)@.delayed[i - 1]);
                }
            }
        }
    }
}

fn stands_before(a: &DelayedEdge, b: &DelayedEdge) -> (r: bool)
    ensures
        r == waits_before(*a, *b),
{
    a.pool.0 < b.pool.0 || (a.pool.0 == b.pool.0 && (a.weight > b.weight || (a.weight == b.weight
        && a.edge.0 < b.edge.0)))
}

proof fn lemma_waiting_prefix(v: Seq<DelayedEdge>, pool: PoolId, i: int)
    requires
        0 <= i <= v.len(),
    ensures
        waiting_in(v.take(i), pool).len() <= waiting_in(v, pool).len(),
        waiting_in(v, pool).take(waiting_in(v.take(i), pool).len() as int) == waiting_in(
            v.take(i),
            pool,
        ),
{
    let f = of_pool(pool);
    assert(v =~= v.take(i) + v.skip(i));
    Seq::filter_distributes_over_add(v.take(i), v.skip(i), f);
    let a = v.take(i).filter(f);
    let b = v.skip(i).filter(f);
    assert((a + b).take(a.len() as int) =~= a);
}

fn promotable(v: &Vec<DelayedEdge>, pool: PoolId, room: i64) -> (r: Vec<DelayedEdge>)
    requires
        0 <= room,
    ensures
        r@ == waiting_in(v@, pool).take(
            if room < waiting_in(v@, pool).len() {
                room as int
            } else {
                waiting_in(v@, pool).len() as int
            },
        ),
{
    let mut out: Vec<DelayedEdge> = Vec::new();
    let mut left: i64 = room;
    let mut i: usize = 0;
    let ghost f = of_pool(pool);
    proof {
        reveal(Seq::filter);
        assert(v@.take(0).filter(f) =~= Seq::<DelayedEdge>::empty());
    }
    while i < v.len()
        invariant
            i <= v@.len(),
            0 <= left,
            out@.len() + left == room,
            f == of_pool(pool),
            out@ == v@.take(i as int).filter(f),
        decreases v@.len() - i,
    {
        proof {
            lemma_waiting_prefix(v@, pool, i as int);
            lemma_waiting_prefix(v@, pool, i + 1);
            reveal(Seq::filter);
            assert(v@.take(i + 1).drop_last() =~= v@.take(i as int));
            assert(v@.take(i + 1).last() == v@[i as int]);
        }
        if v[i].pool == pool {
            if left == 0 {
                assert(waiting_in(v@.take(i + 1), pool).len() == out@.len() + 1);
                return out;
            }
            out.push(v[i]);
            left -= 1;
        }
        i += 1;
    }
    assert(v@.take(i as int) =~= v@);
    assert(waiting_in(v@, pool).take(waiting_in(v@, pool).len() as int) =~= waiting_in(v@, pool));
    out
}

fn without_delayed(v: &Vec<DelayedEdge>, x: DelayedEdge) -> (r: Vec<DelayedEdge>)
    ensures
        r@ == delayed_without(v@, x),
{
    let mut out: Vec<DelayedEdge> = Vec::new();
    let mut i: usize = 0;
    let ghost f = other_than(x);
    proof {
        reveal(Seq::filter);
        assert(v@.take(0).filter(f) =~= Seq::<DelayedEdge>::empty());
    }
    while i < v.len()
        invariant
            i <= v@.len(),
            f == other_than(x),
            out@ == v@.take(i as int).filter(f),
        decreases v@.len() - i,
    {
        proof {
            reveal(Seq::filter);
            assert(v@.take(i + 1).drop_last() =~= v@.take(i as int));
            assert(v@.take(i + 1).last() == v@[i as int]);
        }
        if v[i] != x {
            out.push(v[i]);
        }
        i += 1;
    }
    assert(v@.take(i as int) =~= v@);
    out
}

/// Whether nothing but flags of edges and the use of pools tells two graphs
/// apart.
pub open spec fn same_graph(s: StateView, t: StateView) -> bool {
    &&& t.nodes == s.nodes
    &&& t.scopes == s.scopes
    &&& t.defaults == s.defaults
    &&& t.edges.len() == s.edges.len()
    &&& t.pools.len() == s.pools.len()
    &&& forall|i: int|
        0 <= i < s.edges.len() ==> (#[trigger] t.edges[i]) == (EdgeView {
            outputs_ready: t.edges[i].outputs_ready,
            ..s.edges[i]
        })
    &&& forall|i: int|
        0 <= i < s.pools.len() ==> (#[trigger] t.pools[i]).depth == s.pools[i].depth
}

proof fn lemma_same_graph_twice(s: StateView, t: StateView, u: StateView)
    requires
        same_graph(s, t),
        same_graph(t, u),
    ensures
        same_graph(s, u),
{
    assert forall|i: int| 0 <= i < s.edges.len() implies (#[trigger] u.edges[i]) == (EdgeView {
        outputs_ready: u.edges[i].outputs_ready,
        ..s.edges[i]
    }) by {
        assert(t.edges[i] == (EdgeView { outputs_ready: t.edges[i].outputs_ready, ..s.edges[i] }));
    }
    assert forall|i: int| 0 <= i < s.pools.len() implies (#[trigger] u.pools[i]).depth
        == s.pools[i].depth by {
        assert(t.pools[i].depth == s.pools[i].depth);
    }
}

proof fn lemma_fits_same_graph(p: PlanView, s: StateView, t: StateView)
    requires
        p.fits(s),
        same_graph(s, t),
    ensures
        p.fits(t),
{
}

impl Plan {
    /// Move as many delayed edges of `pool` as fit into the ready queue.
    fn retrieve_ready_edges(&mut self, state: &mut State, pool: PoolId, Ghost(pending): Ghost<
        Seq<NodeId>,
    >)
        requires
            old(state).wf(),
            pool.0 < old(state)@.pools.len(),
            old(self)@.fits(old(state)@),
        ensures
            final(state).wf(),
            final(self)@.fits(final(state)@),
            same_graph(old(state)@, final(state)@),
            final(self)@.want == old(self)@.want,
            final(self)@.targets == old(self)@.targets,
            work(final(self)@, final(state)@, pending) == retrieved(
                work(old(self)@, old(state)@, pending),
                pool,
            ),
    {
        proof {
            reveal(retrieved);
        }
        let ghost s0 = state@;
        let ghost p0 = self@;
        let current_use: i32 = state.pool(pool).current_use();
        let depth: i32 = state.pool(pool).depth();
        let room: i64 = if current_use < depth {
            depth as i64 - current_use as i64
        } else {
            0
        };
        let edges = promotable(&self.delayed, pool, room);
        assert(edges@ == promoted(p0, s0, pool));
        let mut i: usize = 0;
        proof {
            assert forall|j: int| 0 <= j < edges@.len() implies (#[trigger] edges@[j]).edge.0
                < s0.edges.len() by {
                lemma_filter_member(p0.delayed, of_pool(pool), j);
                let x = edges@[j];
                let k = choose|k: int| 0 <= k < p0.delayed.len() && p0.delayed[k] == x;
                assert(p0.delayed[k] == x);
            }
        }
        while i < edges.len()
            invariant
                i <= edges@.len(),
                state.wf(),
                state@ == s0,
                s0 == old(state)@,
                p0 == old(self)@,
                p0.fits(s0),
                forall|j: int| 0 <= j < edges@.len() ==> (#[trigger] edges@[j]).edge.0 < s0.edges.len(),
                self@ == (PlanView {
                    delayed: without_promoted(p0.delayed, s0, pool, edges@, i as int),
                    ..p0
                }),
                self@.fits(s0),
            decreases edges@.len() - i,
        {
            let e = edges[i].edge;
            let key = DelayedEdge { pool, weight: state.edge(e).critical_path_weight(), edge: e };
            let ghost d = self.delayed@;
            self.delayed = without_delayed(&self.delayed, key);
            proof {
                lemma_delayed_without(self@, d, key, s0);
            }
            i += 1;
        }
        let mut k: usize = 0;
        let ghost start = work(self@, state@, pending);
        while k < edges.len()
            invariant
                k <= edges@.len(),
                state.wf(),
                self@.fits(state@),
                same_graph(s0, state@),
                self@.want == p0.want,
                self@.targets == p0.targets,
                pool.0 < state@.pools.len(),
                forall|j: int| 0 <= j < edges@.len() ==> (#[trigger] edges@[j]).edge.0 < s0.edges.len(),
                made_ready(
                    work(self@, state@, pending),
                    pool,
                    edges@,
                    k as int,
                ) == made_ready(start, pool, edges@, 0),
            decreases edges@.len() - k,
        {
            let e = edges[k].edge;
            let ghost s1 = state@;
            self.push_ready(state, e);
            state.take_pool(pool);
            proof {
                lemma_same_graph_twice(s0, s1, state@);
                lemma_fits_same_graph(self@, s1, state@);
            }
            k += 1;
        }
    }

    fn schedule_work(&mut self, state: &mut State, edge: EdgeId, Ghost(pending): Ghost<Seq<NodeId>>)
        requires
            old(state).wf(),
            edge.0 < old(state)@.edges.len(),
            old(self)@.fits(old(state)@),
        ensures
            final(state).wf(),
            final(self)@.fits(final(state)@),
            same_graph(old(state)@, final(state)@),
            final(self)@.targets == old(self)@.targets,
            final(self)@.want == old(self)@.want || final(self)@.want == with_want(
                old(self)@.want,
                edge,
                Some(Want::ToFinish),
            ),
            work(final(self)@, final(state)@, pending) == scheduled(
                work(old(self)@, old(state)@, pending),
                edge,
            ),
    {
        if self.want(edge) == Some(Want::ToFinish) {
            // Already scheduled. This happens when an edge and one of its
            // dependencies share an order-only input, or when a node appears
            // twice in an edge's inputs.
            return;
        }
        proof {
            state.lemma_wf();
            assert(state@.edge_ok(state@.edges[edge.0 as int]));
        }
        self.set_want(edge, Some(Want::ToFinish));
        let pool = state.edge(edge).pool();
        if state.pool(pool).should_delay_edge() {
            self.delay_edge(state, edge);
            self.retrieve_ready_edges(state, pool, Ghost(pending));
        } else {
            self.push_ready(state, edge);
            state.take_pool(pool);
        }
    }
}

proof fn lemma_filter_member(v: Seq<DelayedEdge>, f: spec_fn(DelayedEdge) -> bool, j: int)
    requires
        0 <= j < v.filter(f).len(),
    ensures
        v.contains(v.filter(f)[j]),
        f(v.filter(f)[j]),
    decreases v.len(),
{
    reveal(Seq::filter);
    let w = v.drop_last().filter(f);
    if j < w.len() {
        lemma_filter_member(v.drop_last(), f, j);
        let k = choose|k: int| 0 <= k < v.drop_last().len() && v.drop_last()[k] == w[j];
        assert(v[k] == w[j]);
    } else {
        assert(v[v.len() - 1] == v.last());
    }
}

proof fn lemma_delayed_without(p: PlanView, d: Seq<DelayedEdge>, key: DelayedEdge, s: StateView)
    requires
        p.delayed == delayed_without(d, key),
        (PlanView { delayed: d, ..p }).fits(s),
    ensures
        p.fits(s),
{
    let f = other_than(key);
    let q = PlanView { delayed: d, ..p };
    assert forall|i: int| 0 <= i < p.delayed.len() implies (#[trigger] p.delayed[i]).edge.0
        < s.edges.len() && p.delayed[i].pool.0 < s.pools.len() by {
        lemma_filter_member(d, f, i);
        let k = choose|k: int| 0 <= k < d.len() && d[k] == p.delayed[i];
        assert(q.delayed[k] == p.delayed[i]);
    }
    assert(nodes_below(p.targets, s.nodes.len())) by {
        assert(nodes_below(q.targets, s.nodes.len()));
    }
    assert forall|i: int| 0 <= i < p.ready.len() implies (#[trigger] p.ready[i]).edge.0
        < s.edges.len() by {
        assert(q.ready[i] == p.ready[i]);
    }
}

proof fn lemma_planned_set(v: Seq<Option<Want>>, edge: EdgeId, w: Option<Want>)
    requires
        edge.0 < v.len(),
    ensures
        planned(with_want(v, edge, w)) == planned(v) - (if v[edge.0 as int] is Some {
            1int
        } else {
            0
        }) + (if w is Some {
            1int
        } else {
            0
        }),
    decreases v.len(),
{
    let u = with_want(v, edge, w);
    if edge.0 == v.len() - 1 {
        assert(u.drop_last() =~= v.drop_last());
    } else {
        lemma_planned_set(v.drop_last(), edge, w);
        assert(u.drop_last() =~= with_want(v.drop_last(), edge, w));
    }
}

/// What finishing part of a plan leaves alone.
pub open spec fn plan_kept(p: PlanView, s: StateView, q: PlanView, t: StateView) -> bool {
    &&& q.fits(t)
    &&& same_graph(s, t)
    &&& q.want.len() == p.want.len()
    &&& planned(q.want) <= planned(p.want)
    &&& q.targets == p.targets
}

proof fn lemma_plan_kept_twice(
    p: PlanView,
    s: StateView,
    q: PlanView,
    t: StateView,
    r: PlanView,
    u: StateView,
)
    requires
        plan_kept(p, s, q, t),
        plan_kept(q, t, r, u),
    ensures
        plan_kept(p, s, r, u),
{
    lemma_same_graph_twice(s, t, u);
}

impl Plan {
    #[verifier::rlimit(40)]
    fn end_edge(
        &mut self,
        state: &mut State,
        edge: EdgeId,
        result: EdgeResult,
        pending: &mut Vec<NodeId>,
        Ghost(depth): Ghost<nat>,
    )
        requires
            old(state).wf(),
            old(self)@.fits(old(state)@),
            old(self)@.wants(edge) is Some,
            depth >= planned(old(self)@.want),
            nodes_below(old(pending)@, old(state)@.nodes.len()),
        ensures
            nodes_below(final(pending)@, final(state)@.nodes.len()),
            final(state).wf(),
            plan_kept(old(self)@, old(state)@, final(self)@, final(state)@),
            work(final(self)@, final(state)@, final(pending)@) == edge_ended(
                work(old(self)@, old(state)@, old(pending)@),
                edge,
                result,
                depth,
            ),
        decreases planned(old(self)@.want), 0nat,
    {
        let ghost p0 = self@;
        let ghost s0 = state@;
        proof {
            state.lemma_wf();
            assert(s0.edge_ok(s0.edges[edge.0 as int]));
            lemma_planned_set(p0.want, edge, None);
        }
        let wanted: bool = self.want(edge) != Some(Want::Nothing);
        // Free up any delayed jobs in this edge's pool.
        let pool = state.edge(edge).pool();
        if wanted {
            state.free_pool(pool);
        }
        let ghost s1 = state@;
        proof {
            lemma_fits_same_graph(p0, s0, s1);
        }
        self.retrieve_ready_edges(state, pool, Ghost(pending@));
        proof {
            lemma_same_graph_twice(s0, s1, state@);
        }
        if result != EdgeResult::Succeeded {
            return;
        }
        let ghost p2 = self@;
        let ghost s2 = state@;
        if wanted {
            self.wanted_edges = self.wanted_edges.wrapping_sub(1);
        }
        self.set_want(edge, None);
        state.set_outputs_ready(edge, true);
        let ghost p3 = self@;
        let ghost s3 = state@;
        proof {
            lemma_same_graph_twice(s0, s2, s3);
            assert(p3.want =~= with_want(p0.want, edge, None));
            assert(p3.fits(s3)) by {
                assert(p2.fits(s2));
                assert(p3.ready == p2.ready && p3.delayed == p2.delayed && p3.targets == p2.targets);
            }
            assert(plan_kept(p0, s0, p3, s3));
        }
        let outputs = vstd::slice::slice_to_vec(state.edge(edge).outputs());
        proof {
            state.lemma_wf();
            assert(s3.edge_ok(s3.edges[edge.0 as int]));
        }
        self.end_nodes(state, outputs.as_slice(), pending, Ghost((depth - 1) as nat));
        proof {
            lemma_plan_kept_twice(p0, s0, p3, s3, self@, state@);
        }
    }

    fn end_nodes(
        &mut self,
        state: &mut State,
        nodes: &[NodeId],
        pending: &mut Vec<NodeId>,
        Ghost(depth): Ghost<nat>,
    )
        requires
            old(state).wf(),
            old(self)@.fits(old(state)@),
            nodes_below(nodes@, old(state)@.nodes.len()),
            depth >= planned(old(self)@.want),
            nodes_below(old(pending)@, old(state)@.nodes.len()),
        ensures
            nodes_below(final(pending)@, final(state)@.nodes.len()),
            final(state).wf(),
            plan_kept(old(self)@, old(state)@, final(self)@, final(state)@),
            work(final(self)@, final(state)@, final(pending)@) == nodes_ended(
                work(old(self)@, old(state)@, old(pending)@),
                nodes@,
                0,
                depth,
            ),
        decreases planned(old(self)@.want), 3nat,
    {
        let ghost p0 = self@;
        let ghost s0 = state@;
        let ghost want = nodes_ended(work(self@, state@, pending@), nodes@, 0, depth);
        let mut k: usize = 0;
        while k < nodes.len()
            invariant
                k <= nodes@.len(),
                state.wf(),
                nodes_below(pending@, state@.nodes.len()),
                p0 == old(self)@,
                s0 == old(state)@,
                plan_kept(p0, s0, self@, state@),
                nodes_below(nodes@, s0.nodes.len()),
                depth >= planned(p0.want),
                want == nodes_ended(
                    work(old(self)@, old(state)@, old(pending)@),
                    nodes@,
                    0,
                    depth,
                ),
                nodes_ended(work(self@, state@, pending@), nodes@, k as int, depth) == want,
            decreases nodes@.len() - k,
        {
            let node = nodes[k];
            let ghost p1 = self@;
            let ghost s1 = state@;
            // If this node carries dyndep information, it has to be loaded
            // before we can tell what else became ready.
            if state.node(node).dyndep_pending {
                pending.push(node);
            } else {
                let edges = vstd::slice::slice_to_vec(state.node(node).out_edges());
                proof {
                    state.lemma_wf();
                    assert(s1.node_ok(s1.nodes[node.0 as int]));
                }
                self.schedule_edges(state, edges.as_slice(), pending, Ghost(depth));
            }
            proof {
                lemma_plan_kept_twice(p0, s0, p1, s1, self@, state@);
            }
            k += 1;
        }
    }

    fn schedule_edges(
        &mut self,
        state: &mut State,
        edges: &[EdgeId],
        pending: &mut Vec<NodeId>,
        Ghost(depth): Ghost<nat>,
    )
        requires
            old(state).wf(),
            old(self)@.fits(old(state)@),
            edges_below(edges@, old(state)@.edges.len()),
            depth >= planned(old(self)@.want),
            nodes_below(old(pending)@, old(state)@.nodes.len()),
        ensures
            nodes_below(final(pending)@, final(state)@.nodes.len()),
            final(state).wf(),
            plan_kept(old(self)@, old(state)@, final(self)@, final(state)@),
            work(final(self)@, final(state)@, final(pending)@) == edges_maybe_ready(
                work(old(self)@, old(state)@, old(pending)@),
                edges@,
                0,
                depth,
            ),
        decreases planned(old(self)@.want), 2nat,
    {
        let ghost p0 = self@;
        let ghost s0 = state@;
        let ghost want = edges_maybe_ready(work(self@, state@, pending@), edges@, 0, depth);
        let mut k: usize = 0;
        while k < edges.len()
            invariant
                k <= edges@.len(),
                state.wf(),
                nodes_below(pending@, state@.nodes.len()),
                p0 == old(self)@,
                s0 == old(state)@,
                plan_kept(p0, s0, self@, state@),
                edges_below(edges@, s0.edges.len()),
                depth >= planned(p0.want),
                want == edges_maybe_ready(
                    work(old(self)@, old(state)@, old(pending)@),
                    edges@,
                    0,
                    depth,
                ),
                edges_maybe_ready(work(self@, state@, pending@), edges@, k as int, depth) == want,
            decreases edges@.len() - k,
        {
            let ghost p1 = self@;
            let ghost s1 = state@;
            self.edge_maybe_ready(state, edges[k], pending, Ghost(depth));
            proof {
                lemma_plan_kept_twice(p0, s0, p1, s1, self@, state@);
            }
            k += 1;
        }
    }

    fn edge_maybe_ready(
        &mut self,
        state: &mut State,
        edge: EdgeId,
        pending: &mut Vec<NodeId>,
        Ghost(depth): Ghost<nat>,
    )
        requires
            old(state).wf(),
            old(self)@.fits(old(state)@),
            edge.0 < old(state)@.edges.len(),
            depth >= planned(old(self)@.want),
            nodes_below(old(pending)@, old(state)@.nodes.len()),
        ensures
            nodes_below(final(pending)@, final(state)@.nodes.len()),
            final(state).wf(),
            plan_kept(old(self)@, old(state)@, final(self)@, final(state)@),
            work(final(self)@, final(state)@, final(pending)@) == maybe_ready(
                work(old(self)@, old(state)@, old(pending)@),
                edge,
                depth,
            ),
        decreases planned(old(self)@.want), 1nat,
    {
        match self.want(edge) {
            None => {},
            Some(want) => {
                if !state.all_inputs_ready(edge) {
                    return;
                }
                if want == Want::Nothing {
                    // We do not need this edge itself, but a dependent may need
                    // its outputs to be marked ready.
                    self.end_edge(state, edge, EdgeResult::Succeeded, pending, Ghost(depth));
                } else {
                    proof {
                        lemma_planned_set(self@.want, edge, Some(Want::ToFinish));
                    }
                    self.schedule_work(state, edge, Ghost(pending@));
                }
            },
        }
    }

    /// Mark `edge` as done.
    ///
    /// Returns the nodes that carry dyndep information which now needs loading;
    /// the caller should load each one and call [`Plan::dyndeps_loaded`].
    pub fn edge_finished(&mut self, state: &mut State, edge: EdgeId, result: EdgeResult) -> (r: Result<
        Vec<NodeId>,
        Error,
    >)
        requires
            old(state).wf(),
            old(self)@.fits(old(state)@),
        ensures
            final(state).wf(),
            plan_kept(old(self)@, old(state)@, final(self)@, final(state)@),
            queued_once(old(self)@, old(state)@) && !is_queued(old(self)@, edge) ==> queued_once(
                final(self)@,
                final(state)@,
            ),
            orderly(old(self)@, old(state)@) && !is_queued(old(self)@, edge) ==> orderly(
                final(self)@,
                final(state)@,
            ),
            match r {
                Ok(pending) => old(self)@.wants(edge) is Some && nodes_below(
                    pending@,
                    final(state)@.nodes.len(),
                ) && work(
                    final(self)@,
                    final(state)@,
                    pending@,
                ) == edge_ended(
                    work(old(self)@, old(state)@, Seq::empty()),
                    edge,
                    result,
                    planned(old(self)@.want),
                ),
                Err(e) => old(self)@.wants(edge) is None && final(self)@ == old(self)@ && final(
                    state)@ == old(state)@ && e@ == ErrorView::Build(
                    "internal error: finished an edge not in the plan"@,
                ),
            },
    {
        if self.want(edge).is_none() {
            return Err(
                Error::Build("internal error: finished an edge not in the plan".to_owned()),
            );
        }
        proof {
            state.lemma_wf();
            if queued_once(self@, state@) && !is_queued(self@, edge) {
                let w = work(self@, state@, Seq::empty());
                lemma_ended_once(state@, w, edge, result, planned(self@.want));
                if inputs_first(self@, state@) {
                    law_inputs_come_first(w, edge, result, planned(self@.want));
                }
            }
        }
        let mut pending: Vec<NodeId> = Vec::new();
        assert(pending@ =~= Seq::empty());
        self.end_edge(state, edge, result, &mut pending, Ghost(planned(self@.want)));
        Ok(pending)
    }
}

proof fn lemma_planned_padded(v: Seq<Option<Want>>, u: Seq<Option<Want>>)
    requires
        v.len() <= u.len(),
        forall|i: int| 0 <= i < v.len() ==> u[i] == v[i],
        forall|i: int| v.len() <= i < u.len() ==> (#[trigger] u[i]) is None,
    ensures
        planned(u) == planned(v),
    decreases u.len(),
{
    if u.len() > v.len() {
        lemma_planned_padded(v, u.drop_last());
        assert(u[u.len() - 1] == u.last());
    } else {
        assert(u =~= v);
    }
}

proof fn lemma_planned_new(v: Seq<Option<Want>>, edge: EdgeId, w: Want)
    requires
        want_of(v, edge) is None,
    ensures
        planned(with_want(v, edge, Some(w))) == planned(v) + 1,
{
    let u = with_want(v, edge, None);
    lemma_planned_padded(v, u);
    lemma_planned_set(u, edge, Some(w));
    assert(with_want(u, edge, Some(w)) =~= with_want(v, edge, Some(w)));
}

proof fn lemma_planned_bound(v: Seq<Option<Want>>)
    ensures
        planned(v) <= v.len(),
    decreases v.len(),
{
    if v.len() > 0 {
        lemma_planned_bound(v.drop_last());
    }
}

/// A plan, and the edges that a walk over the graph has seen.
#[verifier::ext_equal]
pub struct Walk {
    pub plan: PlanView,
    pub seen: Seq<bool>,
}

/// Why a file that nothing makes, and that is missing, stops the build.
pub open spec fn missing_text(s: StateView, node: NodeId, dependent: Option<NodeId>) -> Seq<char> {
    "'"@ + s.nodes[node.0 as int].path + "'"@ + (match dependent {
        Some(d) => ", needed by '"@ + s.nodes[d.0 as int].path + "',"@,
        None => Seq::empty(),
    }) + " missing and no known rule to make it"@
}

/// The plan with `node` and everything it depends on, and whether there is
/// something to do for it. At most `depth` edges can be nested.
pub open spec fn with_sub_target(
    w: Walk,
    walking: bool,
    s: StateView,
    node: NodeId,
    dependent: Option<NodeId>,
    depth: nat,
) -> Result<(Walk, bool), Cut<Walk>>
    decreases depth, 1nat, 0nat,
{
    let n = s.nodes[node.0 as int];
    match n.in_edge {
        None => if n.dirty && !n.generated_by_dep_loader {
            cut(ErrorView::Build(missing_text(s, node, dependent)), w)
        } else {
            Ok((w, false))
        },
        Some(edge) => if s.edges[edge.0 as int].outputs_ready {
            Ok((w, false))
        } else {
            let first = w.plan.wants(edge) is None;
            let p1 = if first {
                w.plan.with_want(edge, Some(Want::Nothing))
            } else {
                w.plan
            };
            if walking && p1.wants(edge) == Some(Want::ToFinish) {
                Ok((Walk { plan: p1, ..w }, false))
            } else {
                let p2 = if n.dirty && p1.wants(edge) == Some(Want::Nothing) {
                    p1.with_want(edge, Some(Want::ToStart)).edge_wanted(s, edge)
                } else {
                    p1
                };
                let x = Walk {
                    plan: p2,
                    seen: if walking {
                        w.seen.update(edge.0 as int, true)
                    } else {
                        w.seen
                    },
                };
                if !first {
                    Ok((x, true))
                } else if depth == 0 {
                    cut(ErrorView::Interrupted, x)
                } else {
                    match with_sub_targets(
                        x,
                        walking,
                        s,
                        s.edges[edge.0 as int].inputs,
                        Some(node),
                        0,
                        (depth - 1) as nat,
                    ) {
                        Err(e) => Err(e),
                        Ok(y) => Ok((y, true)),
                    }
                }
            }
        },
    }
}

/// The plan with the nodes from the `k`-th on, which `dependent` needs.
pub open spec fn with_sub_targets(
    w: Walk,
    walking: bool,
    s: StateView,
    nodes: Seq<NodeId>,
    dependent: Option<NodeId>,
    k: int,
    depth: nat,
) -> Result<Walk, Cut<Walk>>
    decreases depth, 2nat, nodes.len() - k,
{
    if 0 <= k < nodes.len() {
        match with_sub_target(w, walking, s, nodes[k], dependent, depth) {
            Err(e) => Err(e),
            Ok((x, _)) => with_sub_targets(x, walking, s, nodes, dependent, k + 1, depth),
        }
    } else {
        Ok(w)
    }
}

/// The plan with a target, and whether there is something to do for it.
pub open spec fn with_target(p: PlanView, s: StateView, target: NodeId) -> Result<
    (PlanView, bool),
    Cut<PlanView>,
> {
    let w = Walk {
        plan: PlanView { targets: p.targets.push(target), ..p },
        seen: Seq::empty(),
    };
    match with_sub_target(w, false, s, target, None, s.edges.len()) {
        Err(f) => cut(f.error, f.at.plan),
        Ok((x, todo)) => Ok((x.plan, todo)),
    }
}

/// What adding to a plan leaves alone.
pub open spec fn plan_grown(p: PlanView, q: PlanView) -> bool {
    &&& q.ready == p.ready
    &&& q.delayed == p.delayed
    &&& q.targets == p.targets
    &&& planned(p.want) <= planned(q.want)
}

impl Plan {
    fn edge_wanted(&mut self, state: &State, edge: EdgeId)
        requires
            edge.0 < state@.edges.len(),
        ensures
            final(self)@ == old(self)@.edge_wanted(state@, edge),
    {
        self.wanted_edges = self.wanted_edges.wrapping_add(1);
        if !state.edge_is_phony(edge) {
            self.command_edges = self.command_edges.wrapping_add(1);
            self.changes.push(PlanChange::Added(edge));
        }
    }

    fn add_sub_target(
        &mut self,
        state: &State,
        node: NodeId,
        dependent: Option<NodeId>,
        walking: bool,
        seen: &mut Vec<bool>,
        Ghost(depth): Ghost<nat>,
    ) -> (r: Result<bool, Error>)
        requires
            state.wf(),
            old(self)@.fits(state@),
            node.0 < state@.nodes.len(),
            dependent matches Some(d) ==> d.0 < state@.nodes.len(),
            walking ==> old(seen)@.len() == state@.edges.len(),
            depth + planned(old(self)@.want) >= state@.edges.len(),
        ensures
            final(self)@.fits(state@),
            plan_grown(old(self)@, final(self)@),
            final(seen)@.len() == old(seen)@.len(),
            match (r, with_sub_target(
                Walk { plan: old(self)@, seen: old(seen)@ },
                walking,
                state@,
                node,
                dependent,
                depth,
            )) {
                (Ok(b), Ok((w, todo))) => b == todo && w == (Walk {
                    plan: final(self)@,
                    seen: final(seen)@,
                }),
                (Err(e), Err(f)) => e@ == f.error && f.at == (Walk {
                    plan: final(self)@,
                    seen: final(seen)@,
                }),
                _ => false,
            },
        decreases state@.edges.len() - planned(old(self)@.want), 0nat,
    {
        proof {
            state.lemma_wf();
            assert(state@.node_ok(state@.nodes[node.0 as int]));
        }
        let edge: EdgeId = match state.node(node).in_edge() {
            None => {
                // A leaf. If it is a manifest input and missing, the build
                // cannot proceed; if it came from a depfile or dyndep file,
                // ignore it.
                if state.node(node).dirty && !state.node(node).generated_by_dep_loader {
                    return Err(Error::Build(missing_message(state, node, dependent)));
                }
                return Ok(false);
            },
            Some(e) => e,
        };
        if state.edge(edge).outputs_ready() {
            return Ok(false);  // Nothing to do.
        }
        let ghost p0 = self@;
        let first: bool = self.want(edge).is_none();
        if first {
            proof {
                lemma_planned_new(p0.want, edge, Want::Nothing);
            }
            self.set_want(edge, Some(Want::Nothing));
        }
        let ghost p1 = self@;
        proof {
            assert(p1.fits(state@));
            lemma_planned_bound(p1.want);
        }
        if walking && self.want(edge) == Some(Want::ToFinish) {
            return Ok(false);  // Already scheduled.
        }
        if state.node(node).dirty && self.want(edge) == Some(Want::Nothing) {
            proof {
                lemma_planned_set(p1.want, edge, Some(Want::ToStart));
            }
            self.set_want(edge, Some(Want::ToStart));
            self.edge_wanted(state, edge);
        }
        if walking {
            seen.set(edge.0, true);
        }
        let ghost p2 = self@;
        proof {
            assert(p2.fits(state@));
            assert(planned(p2.want) == planned(p1.want));
        }
        if !first {
            return Ok(true);  // Inputs already processed.
        }
        proof {
            assert(state@.edge_ok(state@.edges[edge.0 as int]));
        }
        match self.add_sub_targets(
            state,
            state.edge(edge).inputs(),
            Some(node),
            walking,
            seen,
            Ghost((depth - 1) as nat),
        ) {
            Err(e) => Err(e),
            Ok(_) => Ok(true),
        }
    }

    fn add_sub_targets(
        &mut self,
        state: &State,
        nodes: &[NodeId],
        dependent: Option<NodeId>,
        walking: bool,
        seen: &mut Vec<bool>,
        Ghost(depth): Ghost<nat>,
    ) -> (r: Result<(), Error>)
        requires
            state.wf(),
            old(self)@.fits(state@),
            nodes_below(nodes@, state@.nodes.len()),
            dependent matches Some(d) ==> d.0 < state@.nodes.len(),
            walking ==> old(seen)@.len() == state@.edges.len(),
            depth + planned(old(self)@.want) >= state@.edges.len(),
        ensures
            final(self)@.fits(state@),
            plan_grown(old(self)@, final(self)@),
            final(seen)@.len() == old(seen)@.len(),
            match (r, with_sub_targets(
                Walk { plan: old(self)@, seen: old(seen)@ },
                walking,
                state@,
                nodes@,
                dependent,
                0,
                depth,
            )) {
                (Ok(_), Ok(w)) => w == (Walk { plan: final(self)@, seen: final(seen)@ }),
                (Err(e), Err(f)) => e@ == f.error && f.at == (Walk {
                    plan: final(self)@,
                    seen: final(seen)@,
                }),
                _ => false,
            },
        decreases state@.edges.len() - planned(old(self)@.want), 1nat,
    {
        let ghost p0 = self@;
        let ghost want = with_sub_targets(
            Walk { plan: self@, seen: seen@ },
            walking,
            state@,
            nodes@,
            dependent,
            0,
            depth,
        );
        let mut k: usize = 0;
        while k < nodes.len()
            invariant
                k <= nodes@.len(),
                state.wf(),
                p0 == old(self)@,
                self@.fits(state@),
                plan_grown(p0, self@),
                nodes_below(nodes@, state@.nodes.len()),
                dependent matches Some(d) ==> d.0 < state@.nodes.len(),
                seen@.len() == old(seen)@.len(),
                walking ==> seen@.len() == state@.edges.len(),
                depth + planned(p0.want) >= state@.edges.len(),
                want == with_sub_targets(
                    (Walk { plan: old(self)@, seen: old(seen)@ }),
                    walking,
                    state@,
                    nodes@,
                    dependent,
                    0,
                    depth,
                ),
                want == with_sub_targets(
                    (Walk { plan: self@, seen: seen@ }),
                    walking,
                    state@,
                    nodes@,
                    dependent,
                    k as int,
                    depth,
                ),
            decreases nodes@.len() - k,
        {
            proof {
                lemma_planned_bound(self@.want);
            }
            match self.add_sub_target(state, nodes[k], dependent, walking, seen, Ghost(depth)) {
                Err(e) => {
                    return Err(e);
                },
                Ok(_) => {},
            }
            k += 1;
        }
        Ok(())
    }

    /// Add `target` and everything it depends on to the plan.
    ///
    /// Returns false if there is nothing to do for this target.
    pub fn add_target(&mut self, state: &State, target: NodeId) -> (r: Result<bool, Error>)
        requires
            state.wf(),
            old(self)@.fits(state@),
            target.0 < state@.nodes.len(),
        ensures
            final(self)@.fits(state@),
            final(self)@.ready == old(self)@.ready,
            final(self)@.delayed == old(self)@.delayed,
            final(self)@.targets == old(self)@.targets.push(target),
            queued_once(old(self)@, state@) ==> queued_once(final(self)@, state@),
            orderly(old(self)@, state@) ==> orderly(final(self)@, state@),
            match (r, with_target(old(self)@, state@, target)) {
                (Ok(b), Ok((p, todo))) => b == todo && final(self)@ == p,
                (Err(e), Err(f)) => e@ == f.error && final(self)@ == f.at,
                _ => false,
            },
    {
        proof {
            if queued_once(self@, state@) {
                lemma_target_once(self@, state@, target);
            }
        }
        self.targets.push(target);
        let mut seen: Vec<bool> = Vec::new();
        proof {
            assert(seen@ =~= Seq::empty());
            assert(self@ =~= (PlanView { targets: old(self)@.targets.push(target), ..old(self)@ }));
            assert(self@.fits(state@)) by {
                let t = old(self)@.targets.push(target);
                assert forall|k: int| 0 <= k < t.len() implies (#[trigger] t[k]).0
                    < state@.nodes.len() by {
                    if k < old(self)@.targets.len() {
                        assert(t[k] == old(self)@.targets[k]);
                    }
                }
                assert(self@.ready == old(self)@.ready && self@.delayed == old(self)@.delayed);
            }
        }
        self.add_sub_target(state, target, None, false, &mut seen, Ghost(state@.edges.len()))
    }
}

fn missing_message(state: &State, node: NodeId, dependent: Option<NodeId>) -> (r: String)
    requires
        node.0 < state@.nodes.len(),
        dependent matches Some(d) ==> d.0 < state@.nodes.len(),
    ensures
        r@ == missing_text(state@, node, dependent),
{
    let mut m: String = "'".to_owned();
    m.append(state.node(node).path());
    m.append("'");
    if let Some(d) = dependent {
        m.append(", needed by '");
        m.append(state.node(d).path());
        m.append("',");
    }
    m.append(" missing and no known rule to make it");
    assert(m@ =~= missing_text(state@, node, dependent));
    m
}

/// A step of the walk that puts edges behind those that make their inputs.
#[derive(Copy, Clone, PartialEq, Eq, Structural, Debug)]
pub enum Step {
    /// Walk over the inputs of an edge.
    Visit(EdgeId),
    /// The inputs of an edge have been walked over.
    Emit(EdgeId),
}

/// How much a command counts on a path: phony edges run nothing.
pub open spec fn own_weight(s: StateView, edge: EdgeId) -> i64 {
    if s.edges[edge.0 as int].rule == phony_rule() {
        0
    } else {
        1
    }
}

/// The number of edges that a walk has not seen.
pub open spec fn unseen(seen: Seq<bool>) -> nat
    decreases seen.len(),
{
    if seen.len() == 0 {
        0
    } else {
        unseen(seen.drop_last()) + if seen.last() {
            0nat
        } else {
            1nat
        }
    }
}

/// Seeing one more edge leaves one less.
pub proof fn lemma_unseen(seen: Seq<bool>, k: int)
    requires
        0 <= k < seen.len(),
        !seen[k],
    ensures
        unseen(seen.update(k, true)) + 1 == unseen(seen),
    decreases seen.len(),
{
    let t = seen.update(k, true);
    if k == seen.len() - 1 {
        assert(t.drop_last() =~= seen.drop_last());
    } else {
        lemma_unseen(seen.drop_last(), k);
        assert(t.drop_last() =~= seen.drop_last().update(k, true));
    }
}

/// The steps for the targets, the first target's last.
pub open spec fn target_steps(s: StateView, targets: Seq<NodeId>) -> Seq<Step>
    decreases targets.len(),
{
    if targets.len() == 0 {
        Seq::empty()
    } else {
        let rest = target_steps(s, targets.drop_first());
        match s.nodes[targets[0].0 as int].in_edge {
            Some(e) => rest.push(Step::Visit(e)),
            None => rest,
        }
    }
}

/// The steps with those for the unseen producers of the inputs from the `k`-th
/// on.
pub open spec fn producer_steps(
    s: StateView,
    seen: Seq<bool>,
    steps: Seq<Step>,
    inputs: Seq<NodeId>,
    k: int,
) -> Seq<Step>
    decreases inputs.len() - k,
{
    if 0 <= k < inputs.len() {
        let more = match s.nodes[inputs[k].0 as int].in_edge {
            Some(e) => if seen[e.0 as int] {
                steps
            } else {
                steps.push(Step::Visit(e))
            },
            None => steps,
        };
        producer_steps(s, seen, more, inputs, k + 1)
    } else {
        steps
    }
}

/// The edges that the steps lead to, each behind those that make its inputs.
pub open spec fn walked(s: StateView, seen: Seq<bool>, steps: Seq<Step>, sorted: Seq<EdgeId>) -> Seq<
    EdgeId,
>
    decreases unseen(seen), steps.len(),
{
    if steps.len() == 0 {
        sorted
    } else {
        match steps.last() {
            Step::Emit(e) => walked(s, seen, steps.drop_last(), sorted.push(e)),
            Step::Visit(e) => if e.0 >= seen.len() || seen[e.0 as int] {
                walked(s, seen, steps.drop_last(), sorted)
            } else {
                proof {
                    lemma_unseen(seen, e.0 as int);
                }
                let now = seen.update(e.0 as int, true);
                walked(
                    s,
                    now,
                    producer_steps(
                        s,
                        now,
                        steps.drop_last().push(Step::Emit(e)),
                        s.edges[e.0 as int].inputs,
                        0,
                    ),
                    sorted,
                )
            },
        }
    }
}

/// The edges that the targets lead to, each behind those that make its inputs.
pub open spec fn sorted_edges(s: StateView, targets: Seq<NodeId>) -> Seq<EdgeId> {
    walked(
        s,
        Seq::new(s.edges.len(), |i: int| false),
        target_steps(s, targets),
        Seq::empty(),
    )
}

/// The graph with another priority for `edge`.
pub open spec fn with_weight(s: StateView, edge: EdgeId, w: i64) -> StateView {
    s.with_edge(edge.0 as int, EdgeView { critical_path_weight: w, ..s.edges[edge.0 as int] })
}

/// The graph with the first `k` edges weighing what they weigh themselves.
pub open spec fn own_weights(s: StateView, edges: Seq<EdgeId>, k: int) -> StateView
    decreases k,
{
    if k <= 0 {
        s
    } else {
        let t = own_weights(s, edges, k - 1);
        with_weight(t, edges[k - 1], own_weight(t, edges[k - 1]))
    }
}

/// The graph with the producers of the inputs from the `k`-th on weighing at
/// least `w` more than they weigh themselves.
pub open spec fn producers_raised(s: StateView, w: i64, inputs: Seq<NodeId>, k: int) -> StateView
    decreases inputs.len() - k,
{
    if 0 <= k < inputs.len() {
        let t = match s.nodes[inputs[k].0 as int].in_edge {
            Some(p) => {
                let c = w.wrapping_add(own_weight(s, p));
                if c > s.edges[p.0 as int].critical_path_weight {
                    with_weight(s, p, c)
                } else {
                    s
                }
            },
            None => s,
        };
        producers_raised(t, w, inputs, k + 1)
    } else {
        s
    }
}

/// The graph with the weights of the first `k` edges, from the last to the
/// first, handed on to those that make their inputs.
pub open spec fn weights_spread(s: StateView, edges: Seq<EdgeId>, k: int) -> StateView
    decreases k,
{
    if 0 < k <= edges.len() {
        let e = s.edges[edges[k - 1].0 as int];
        weights_spread(
            producers_raised(s, e.critical_path_weight, e.inputs, 0),
            edges,
            k - 1,
        )
    } else {
        s
    }
}

/// The graph with every edge that the targets lead to weighing what its longest
/// path to a target weighs.
pub open spec fn weighed(s: StateView, targets: Seq<NodeId>) -> StateView {
    let edges = sorted_edges(s, targets);
    let n = edges.len() as int;
    weights_spread(own_weights(s, edges, n), edges, n)
}

/// The edges from the `k`-th on that can run scheduled, and the pools that
/// edges have been put in the queue of.
pub open spec fn initial_edges(w: Work, queued: Seq<bool>, k: int, n: int) -> (Work, Seq<bool>)
    decreases n - k,
{
    if 0 <= k < n {
        let e = EdgeId(k as usize);
        let pool = w.state.edges[k].pool;
        if w.plan.wants(e) != Some(Want::ToStart) || !w.state.inputs_ready(k) {
            initial_edges(w, queued, k + 1, n)
        } else if w.state.pools[pool.0 as int].depth != 0 {
            initial_edges(
                Work {
                    plan: w.plan.with_want(e, Some(Want::ToFinish)).with_delayed(w.state, e),
                    ..w
                },
                queued.update(pool.0 as int, true),
                k + 1,
                n,
            )
        } else {
            initial_edges(scheduled(w, e), queued, k + 1, n)
        }
    } else {
        (w, queued)
    }
}

/// As many edges as fit taken from the queues of the pools from the `k`-th on.
pub open spec fn pools_retrieved(w: Work, queued: Seq<bool>, k: int) -> Work
    decreases queued.len() - k,
{
    if 0 <= k < queued.len() {
        pools_retrieved(
            if queued[k] {
                retrieved(w, PoolId(k as usize))
            } else {
                w
            },
            queued,
            k + 1,
        )
    } else {
        w
    }
}

/// The edges that can run scheduled.
pub open spec fn initially_scheduled(w: Work) -> Work {
    let (x, queued) = initial_edges(
        w,
        Seq::new(w.state.pools.len(), |i: int| false),
        0,
        w.plan.want.len() as int,
    );
    pools_retrieved(x, queued, 0)
}

/// Whether nothing but priorities tells two graphs apart.
pub open spec fn same_but_weights(s: StateView, t: StateView) -> bool {
    &&& t.nodes == s.nodes
    &&& t.scopes == s.scopes
    &&& t.defaults == s.defaults
    &&& t.pools == s.pools
    &&& t.edges.len() == s.edges.len()
    &&& forall|i: int|
        0 <= i < s.edges.len() ==> (#[trigger] t.edges[i]) == (EdgeView {
            critical_path_weight: t.edges[i].critical_path_weight,
            ..s.edges[i]
        })
}

fn falses(n: usize) -> (r: Vec<bool>)
    ensures
        r@ == Seq::new(n as nat, |i: int| false),
{
    let mut r: Vec<bool> = Vec::new();
    while r.len() < n
        invariant
            r@.len() <= n,
            forall|i: int| 0 <= i < r@.len() ==> !(#[trigger] r@[i]),
        decreases n - r@.len(),
    {
        r.push(false);
    }
    assert(r@ =~= Seq::new(n as nat, |i: int| false));
    r
}

/// Whether the steps are about edges of the graph.
pub open spec fn steps_below(steps: Seq<Step>, n: nat) -> bool {
    forall|i: int|
        0 <= i < steps.len() ==> match #[trigger] steps[i] {
            Step::Visit(e) => e.0 < n,
            Step::Emit(e) => e.0 < n,
        }
}

fn first_steps(state: &State, targets: &Vec<NodeId>) -> (r: Vec<Step>)
    requires
        state.wf(),
        nodes_below(targets@, state@.nodes.len()),
    ensures
        r@ == target_steps(state@, targets@),
        steps_below(r@, state@.edges.len()),
{
    let mut steps: Vec<Step> = Vec::new();
    let mut k: usize = targets.len();
    assert(targets@.skip(k as int) =~= Seq::<NodeId>::empty());
    assert(steps@ =~= target_steps(state@, targets@.skip(k as int)));
    while k > 0
        invariant
            k <= targets@.len(),
            state.wf(),
            nodes_below(targets@, state@.nodes.len()),
            steps@ == target_steps(state@, targets@.skip(k as int)),
            steps_below(steps@, state@.edges.len()),
        decreases k,
    {
        k -= 1;
        proof {
            state.lemma_wf();
            assert(targets@.skip(k as int).drop_first() =~= targets@.skip(k + 1));
            assert(targets@.skip(k as int)[0] == targets@[k as int]);
            assert(state@.node_ok(state@.nodes[targets@[k as int].0 as int]));
        }
        if let Some(e) = state.node(targets[k]).in_edge() {
            steps.push(Step::Visit(e));
        }
    }
    assert(targets@.skip(0) =~= targets@);
    steps
}

fn push_producers(state: &State, seen: &Vec<bool>, steps: &mut Vec<Step>, edge: EdgeId)
    requires
        state.wf(),
        edge.0 < state@.edges.len(),
        seen@.len() == state@.edges.len(),
        steps_below(old(steps)@, state@.edges.len()),
    ensures
        final(steps)@ == producer_steps(
            state@,
            seen@,
            old(steps)@,
            state@.edges[edge.0 as int].inputs,
            0,
        ),
        steps_below(final(steps)@, state@.edges.len()),
{
    let ghost ins = state@.edges[edge.0 as int].inputs;
    let inputs = state.edge(edge).inputs();
    let mut k: usize = 0;
    proof {
        state.lemma_wf();
        assert(state@.edge_ok(state@.edges[edge.0 as int]));
    }
    while k < inputs.len()
        invariant
            k <= inputs@.len(),
            inputs@ == ins,
            state.wf(),
            nodes_below(ins, state@.nodes.len()),
            seen@.len() == state@.edges.len(),
            steps_below(steps@, state@.edges.len()),
            producer_steps(state@, seen@, steps@, ins, k as int) == producer_steps(
                state@,
                seen@,
                old(steps)@,
                ins,
                0,
            ),
        decreases inputs@.len() - k,
    {
        proof {
            state.lemma_wf();
            assert(state@.node_ok(state@.nodes[ins[k as int].0 as int]));
        }
        if let Some(e) = state.node(inputs[k]).in_edge() {
            if !seen[e.0] {
                steps.push(Step::Visit(e));
            }
        }
        k += 1;
    }
}

fn sort_edges(state: &State, targets: &Vec<NodeId>) -> (r: Vec<EdgeId>)
    requires
        state.wf(),
        nodes_below(targets@, state@.nodes.len()),
    ensures
        r@ == sorted_edges(state@, targets@),
        edges_below(r@, state@.edges.len()),
{
    let ghost s = state@;
    let mut seen = falses(state.edge_count());
    let mut sorted: Vec<EdgeId> = Vec::new();
    let mut steps = first_steps(state, targets);
    assert(sorted@ =~= Seq::<EdgeId>::empty());
    while steps.len() > 0
        invariant
            state.wf(),
            s == state@,
            seen@.len() == s.edges.len(),
            steps_below(steps@, s.edges.len()),
            edges_below(sorted@, s.edges.len()),
            walked(s, seen@, steps@, sorted@) == sorted_edges(s, targets@),
        decreases unseen(seen@), steps@.len(),
    {
        let ghost before = steps@;
        let step = match steps.pop() {
            Some(x) => x,
            None => {
                return sorted;
            },
        };
        assert(steps@ =~= before.drop_last());
        assert(step == before[before.len() - 1]);
        match step {
            Step::Emit(e) => {
                sorted.push(e);
            },
            Step::Visit(e) => {
                if !seen[e.0] {
                    proof {
                        lemma_unseen(seen@, e.0 as int);
                    }
                    seen.set(e.0, true);
                    steps.push(Step::Emit(e));
                    push_producers(state, &seen, &mut steps, e);
                }
            },
        }
    }
    sorted
}

fn weight_of(state: &State, edge: EdgeId) -> (r: i64)
    requires
        edge.0 < state@.edges.len(),
    ensures
        r == own_weight(state@, edge),
{
    if state.edge_is_phony(edge) {
        0
    } else {
        1
    }
}

fn raise_producers(state: &mut State, edge: EdgeId)
    requires
        old(state).wf(),
        edge.0 < old(state)@.edges.len(),
    ensures
        final(state).wf(),
        same_but_weights(old(state)@, final(state)@),
        final(state)@ == producers_raised(
            old(state)@,
            old(state)@.edges[edge.0 as int].critical_path_weight,
            old(state)@.edges[edge.0 as int].inputs,
            0,
        ),
{
    let ghost s0 = state@;
    let w: i64 = state.edge(edge).critical_path_weight();
    let ghost ins = s0.edges[edge.0 as int].inputs;
    let mut k: usize = 0;
    proof {
        state.lemma_wf();
        assert(s0.edge_ok(s0.edges[edge.0 as int]));
    }
    while k < state.edge(edge).inputs().len()
        invariant
            k <= ins.len(),
            state.wf(),
            s0 == old(state)@,
            edge.0 < s0.edges.len(),
            ins == s0.edges[edge.0 as int].inputs,
            nodes_below(ins, s0.nodes.len()),
            same_but_weights(s0, state@),
            state@.edges[edge.0 as int].inputs == ins,
            producers_raised(state@, w, ins, k as int) == producers_raised(s0, w, ins, 0),
        decreases ins.len() - k,
    {
        let input = state.edge(edge).inputs()[k];
        let ghost s1 = state@;
        proof {
            state.lemma_wf();
            assert(input == ins[k as int]);
            assert(s1.node_ok(s1.nodes[input.0 as int]));
        }
        if let Some(p) = state.node(input).in_edge() {
            let c: i64 = w.wrapping_add(weight_of(state, p));
            if c > state.edge(p).critical_path_weight() {
                state.set_critical_path_weight(p, c);
                proof {
                    lemma_weight_set(s0, s1, p, c);
                }
            }
        }
        k += 1;
    }
}

proof fn lemma_weight_set(s: StateView, t: StateView, p: EdgeId, w: i64)
    requires
        same_but_weights(s, t),
        p.0 < t.edges.len(),
    ensures
        same_but_weights(s, with_weight(t, p, w)),
{
}

impl Plan {
    /// Weight every edge by the longest path from it to any target, so that
    /// long dependency chains start early.
    fn compute_critical_path(&self, state: &mut State)
        requires
            old(state).wf(),
            self@.fits(old(state)@),
        ensures
            final(state).wf(),
            same_but_weights(old(state)@, final(state)@),
            final(state)@ == weighed(old(state)@, self@.targets),
    {
        let ghost s0 = state@;
        let sorted = sort_edges(state, &self.targets);
        let ghost n = sorted@.len() as int;
        let mut i: usize = 0;
        while i < sorted.len()
            invariant
                i <= sorted@.len(),
                state.wf(),
                s0 == old(state)@,
                same_but_weights(s0, state@),
                edges_below(sorted@, s0.edges.len()),
                state@ == own_weights(s0, sorted@, i as int),
            decreases sorted@.len() - i,
        {
            let ghost s1 = state@;
            let w: i64 = weight_of(state, sorted[i]);
            state.set_critical_path_weight(sorted[i], w);
            proof {
                lemma_weight_set(s0, s1, sorted@[i as int], w);
            }
            i += 1;
        }
        let ghost s2 = state@;
        // Propagate weights from dependents to their producers.
        let mut k: usize = sorted.len();
        while k > 0
            invariant
                k <= sorted@.len(),
                state.wf(),
                same_but_weights(s0, state@),
                edges_below(sorted@, s0.edges.len()),
                weights_spread(state@, sorted@, k as int) == weights_spread(
                    s2,
                    sorted@,
                    sorted@.len() as int,
                ),
            decreases k,
        {
            let ghost s1 = state@;
            raise_producers(state, sorted[k - 1]);
            proof {
                lemma_same_but_weights_twice(s0, s1, state@);
            }
            k -= 1;
        }
    }
}

proof fn lemma_same_but_weights_twice(s: StateView, t: StateView, u: StateView)
    requires
        same_but_weights(s, t),
        same_but_weights(t, u),
    ensures
        same_but_weights(s, u),
{
    assert forall|i: int| 0 <= i < s.edges.len() implies (#[trigger] u.edges[i]) == (EdgeView {
        critical_path_weight: u.edges[i].critical_path_weight,
        ..s.edges[i]
    }) by {
        assert(t.edges[i] == (EdgeView {
            critical_path_weight: t.edges[i].critical_path_weight,
            ..s.edges[i]
        }));
    }
}

/// The description of the edges of the plan from the `k`-th on.
pub open spec fn wants_dump(s: StateView, want: Seq<Option<Want>>, k: int) -> Seq<char>
    decreases want.len() - k,
{
    if 0 <= k < want.len() {
        (match want[k] {
            None => Seq::empty(),
            Some(w) => (if w == Want::Nothing {
                Seq::empty()
            } else {
                "want "@
            }) + edge_dump(s, k) + "\n"@,
        }) + wants_dump(s, want, k + 1)
    } else {
        Seq::empty()
    }
}

/// The description of a plan.
pub open spec fn plan_dump(p: PlanView, s: StateView) -> Seq<char> {
    "pending: "@ + decimal(planned(p.want)) + "\n"@ + wants_dump(s, p.want, 0) + "ready: "@
        + decimal(p.ready.len()) + "\n"@
}

impl Plan {
    fn schedule_initial_edges(&mut self, state: &mut State)
        requires
            old(state).wf(),
            old(self)@.fits(old(state)@),
        ensures
            final(state).wf(),
            final(self)@.fits(final(state)@),
            same_graph(old(state)@, final(state)@),
            work(final(self)@, final(state)@, Seq::empty()) == initially_scheduled(
                work(old(self)@, old(state)@, Seq::empty()),
            ),
    {
        let ghost none = Seq::<NodeId>::empty();
        let ghost s0 = state@;
        let ghost w0 = work(self@, state@, none);
        let n: usize = self.want.len();
        let mut queued = falses(state.pools().len());
        let ghost q0 = queued@;
        let mut k: usize = 0;
        while k < n
            invariant
                k <= n <= s0.edges.len(),
                none == Seq::<NodeId>::empty(),
                state.wf(),
                self@.fits(state@),
                same_graph(s0, state@),
                self@.want.len() == n,
                queued@.len() == s0.pools.len(),
                initial_edges(work(self@, state@, none), queued@, k as int, n as int)
                    == initial_edges(w0, q0, 0, n as int),
            decreases n - k,
        {
            let edge = EdgeId(k);
            let ghost s1 = state@;
            proof {
                state.lemma_wf();
                assert(s1.edge_ok(s1.edges[k as int]));
            }
            if self.want(edge) == Some(Want::ToStart) && state.all_inputs_ready(edge) {
                let pool = state.edge(edge).pool();
                if state.pool(pool).should_delay_edge() {
                    // Delay now and retrieve later, so the highest priority
                    // edges are taken first rather than whichever came first.
                    self.set_want(edge, Some(Want::ToFinish));
                    self.delay_edge(state, edge);
                    queued.set(pool.0, true);
                } else {
                    self.schedule_work(state, edge, Ghost(none));
                    proof {
                        lemma_same_graph_twice(s0, s1, state@);
                    }
                }
            }
            k += 1;
        }
        let ghost w1 = work(self@, state@, none);
        let ghost q1 = queued@;
        let mut i: usize = 0;
        while i < queued.len()
            invariant
                i <= queued@.len(),
                none == Seq::<NodeId>::empty(),
                state.wf(),
                self@.fits(state@),
                same_graph(s0, state@),
                queued@ == q1,
                queued@.len() == s0.pools.len(),
                pools_retrieved(work(self@, state@, none), q1, i as int) == pools_retrieved(
                    w1,
                    q1,
                    0,
                ),
            decreases queued@.len() - i,
        {
            let ghost s1 = state@;
            if queued[i] {
                self.retrieve_ready_edges(state, PoolId(i), Ghost(none));
                proof {
                    lemma_same_graph_twice(s0, s1, state@);
                }
            }
            i += 1;
        }
    }

    /// Compute scheduling priorities and fill the ready queue. Call once, after
    /// all targets have been added.
    pub fn prepare_queue(&mut self, state: &mut State)
        requires
            old(state).wf(),
            old(self)@.fits(old(state)@),
        ensures
            final(state).wf(),
            final(self)@.fits(final(state)@),
            final(state)@.nodes == old(state)@.nodes,
            final(state)@.edges.len() == old(state)@.edges.len(),
            at_rest(old(state)@) ==> at_rest(final(state)@),
            old(self)@.ready.len() == 0 && old(self)@.delayed.len() == 0 ==> queued_once(
                final(self)@,
                final(state)@,
            ) && (runs_unready(old(self)@, old(state)@) ==> orderly(final(self)@, final(state)@)),
            work(final(self)@, final(state)@, Seq::empty()) == initially_scheduled(
                work(old(self)@, weighed(old(state)@, old(self)@.targets), Seq::empty()),
            ),
    {
        let ghost s0 = state@;
        self.compute_critical_path(state);
        let ghost s1 = state@;
        let ghost w1 = work(self@, s1, Seq::empty());
        proof {
            state.lemma_wf();
        }
        self.schedule_initial_edges(state);
        proof {
            if w1.plan.ready.len() == 0 && w1.plan.delayed.len() == 0 {
                lemma_filled_once(w1);
                lemma_filled_in_order(w1);
                if runs_unready(w1.plan, s0) {
                    lemma_unready_kept(w1.plan, s0, w1.plan, s1);
                }
            }
            if at_rest(s0) {
                assert forall|e: int| 0 <= e < state@.edges.len() implies (
                #[trigger] state@.edges[e]).mark != VisitMark::InStack by {
                    assert(s1.edges[e].mark == s0.edges[e].mark);
                    assert(state@.edges[e].mark == s1.edges[e].mark);
                }
            }
        }
    }

    fn planned_count(&self) -> (r: usize)
        ensures
            r == planned(self@.want),
    {
        let mut n: usize = 0;
        let mut k: usize = 0;
        assert(self.want@.take(0) =~= Seq::empty());
        while k < self.want.len()
            invariant
                k <= self.want@.len(),
                n <= k,
                n == planned(self.want@.take(k as int)),
            decreases self.want@.len() - k,
        {
            proof {
                assert(self.want@.take(k + 1).drop_last() =~= self.want@.take(k as int));
            }
            if self.want[k].is_some() {
                n += 1;
            }
            k += 1;
        }
        assert(self.want@.take(k as int) =~= self.want@);
        n
    }

    /// A description of the plan, for debugging.
    pub fn dump(&self, state: &State) -> (r: String)
        requires
            state.wf(),
            self@.fits(state@),
        ensures
            r@ == plan_dump(self@, state@),
    {
        let mut out: String = "pending: ".to_owned();
        push_decimal(&mut out, self.planned_count() as u128);
        out.append("\n");
        let ghost head = out@;
        let mut k: usize = 0;
        assert(head + wants_dump(state@, self@.want, 0) == out@ + wants_dump(
            state@,
            self@.want,
            k as int,
        ));
        while k < self.want.len()
            invariant
                k <= self.want@.len(),
                state.wf(),
                self@.fits(state@),
                head + wants_dump(state@, self@.want, 0) == out@ + wants_dump(
                    state@,
                    self@.want,
                    k as int,
                ),
            decreases self.want@.len() - k,
        {
            let ghost before = out@;
            let ghost rest = wants_dump(state@, self@.want, k + 1);
            match self.want[k] {
                None => {
                    assert(before + (Seq::<char>::empty() + rest) =~= out@ + rest);
                },
                Some(w) => {
                    if w != Want::Nothing {
                        out.append("want ");
                    }
                    let e = state.format_edge(EdgeId(k));
                    out.append(e.as_str());
                    out.append("\n");
                    proof {
                        let p = if w == Want::Nothing {
                            Seq::<char>::empty()
                        } else {
                            "want "@
                        };
                        let d = p + edge_dump(state@, k as int) + "\n"@;
                        assert(out@ =~= before + d);
                        assert(before + (d + rest) =~= out@ + rest);
                    }
                },
            }
            k += 1;
        }
        assert(out@ =~= head + wants_dump(state@, self@.want, 0));
        out.append("ready: ");
        push_decimal(&mut out, self.ready.len() as u128);
        out.append("\n");
        out
    }
}

/// A plan with its graph and the explanations, if they are wanted.
#[verifier::ext_equal]
pub struct Scanned {
    pub plan: PlanView,
    pub state: StateView,
    pub notes: Option<Notes>,
}

/// A plan with its graph and the explanations, from where they are kept.
pub open spec fn scanned(plan: PlanView, state: StateView, notes: Option<Explanations>) -> Scanned {
    Scanned { plan, state, notes: notes_of(notes) }
}

/// The progress of a scan that has found no validations yet.
pub open spec fn scan_start(w: Scanned) -> Progress {
    Progress {
        state: w.state,
        notes: w.notes,
        validations: Seq::empty(),
        stack: Seq::empty(),
    }
}

/// The complaint about dependents without end.
pub open spec fn too_deep() -> ErrorView {
    ErrorView::Build("the build graph is nested too deeply"@)
}

/// Whether one of the nodes is dirty.
pub open spec fn any_dirty(s: StateView, nodes: Seq<NodeId>) -> bool {
    exists|i: int| 0 <= i < nodes.len() && s.nodes[(#[trigger] nodes[i]).0 as int].dirty
}

/// The newest of `newest` and the nodes from the `k`-th on.
pub open spec fn newest_of(s: StateView, nodes: Seq<NodeId>, k: int, newest: Option<NodeId>) -> Option<
    NodeId,
>
    decreases nodes.len() - k,
{
    if 0 <= k < nodes.len() {
        newest_of(
            s,
            nodes,
            k + 1,
            if newest is None || s.nodes[nodes[k].0 as int].mtime > s.nodes[(
            newest->0).0 as int].mtime {
                Some(nodes[k])
            } else {
                newest
            },
        )
    } else {
        newest
    }
}

/// The inputs of an edge that can make it dirty.
pub open spec fn solid_inputs(e: EdgeView) -> Seq<NodeId> {
    e.inputs.take(e.first_order_only())
}

/// The plan without the command of `edge`, which need not run.
pub open spec fn edge_dropped(p: PlanView, s: StateView, edge: EdgeId) -> PlanView {
    let phony = s.edges[edge.0 as int].rule == phony_rule();
    PlanView {
        wanted_edges: p.wanted_edges.wrapping_sub(1),
        command_edges: if phony {
            p.command_edges
        } else {
            p.command_edges.wrapping_sub(1)
        },
        changes: if phony {
            p.changes
        } else {
            p.changes.push(PlanChange::Removed(edge))
        },
        ..p.with_want(edge, Some(Want::Nothing))
    }
}

/// Whether `edge` might not have to run after all: it is to run, its
/// dependencies are known, and all inputs that matter are clean.
pub open spec fn may_be_clean(w: Scanned, edge: EdgeId) -> bool {
    let want = w.plan.wants(edge);
    &&& want is Some
    &&& want != Some(Want::Nothing)
    &&& !w.state.edges[edge.0 as int].deps_missing
    &&& !any_dirty(w.state, solid_inputs(w.state.edges[edge.0 as int]))
}

/// `node` clean, and every command that need not run because of it dropped. At
/// most `depth` nodes can be nested.
pub open spec fn cleaned(
    log: Option<crate::build_log::Entries>,
    w: Scanned,
    node: NodeId,
    depth: nat,
) -> Result<Scanned, Cut<Scanned>>
    decreases depth, 1nat, 0nat,
{
    if depth == 0 {
        cut(too_deep(), w)
    } else {
        let i = node.0 as int;
        let n = w.state.nodes[i];
        let x = Scanned {
            state: w.state.with_node(i, NodeView { dirty: false, ..n }),
            ..w
        };
        edges_cleaned(log, x, n.out_edges, 0, (depth - 1) as nat)
    }
}

/// The edges from the `k`-th on dropped where they need not run.
pub open spec fn edges_cleaned(
    log: Option<crate::build_log::Entries>,
    w: Scanned,
    edges: Seq<EdgeId>,
    k: int,
    depth: nat,
) -> Result<Scanned, Cut<Scanned>>
    decreases depth, 3nat, edges.len() - k,
{
    if 0 <= k < edges.len() {
        let e = edges[k];
        let edge = w.state.edges[e.0 as int];
        if !may_be_clean(w, e) {
            edges_cleaned(log, w, edges, k + 1, depth)
        } else {
            let newest = newest_of(w.state, solid_inputs(edge), 0, None);
            let (p, dirty) = edge_checked(log, scan_start(w), e, newest);
            let x = Scanned { state: p.state, notes: p.notes, ..w };
            if dirty {
                edges_cleaned(log, x, edges, k + 1, depth)
            } else {
                match nodes_cleaned(log, x, edge.outputs, 0, depth) {
                    Err(f) => Err(f),
                    Ok(y) => edges_cleaned(
                        log,
                        Scanned { plan: edge_dropped(y.plan, y.state, e), ..y },
                        edges,
                        k + 1,
                        depth,
                    ),
                }
            }
        }
    } else {
        Ok(w)
    }
}

/// The nodes from the `k`-th on clean.
pub open spec fn nodes_cleaned(
    log: Option<crate::build_log::Entries>,
    w: Scanned,
    nodes: Seq<NodeId>,
    k: int,
    depth: nat,
) -> Result<Scanned, Cut<Scanned>>
    decreases depth, 2nat, nodes.len() - k,
{
    if 0 <= k < nodes.len() {
        match cleaned(log, w, nodes[k], depth) {
            Err(f) => Err(f),
            Ok(x) => nodes_cleaned(log, x, nodes, k + 1, depth),
        }
    } else {
        Ok(w)
    }
}

/// What cleaning part of a plan leaves alone.
pub open spec fn clean_kept(p: PlanView, s: StateView, q: PlanView, t: StateView) -> bool {
    &&& q.fits(t)
    &&& q.want.len() == p.want.len()
    &&& t.nodes.len() == s.nodes.len()
    &&& t.edges == s.edges
    &&& t.pools == s.pools
    &&& q.ready == p.ready
    &&& q.delayed == p.delayed
    &&& q.targets == p.targets
}

/// Whether nothing that is still to run is done already.
pub open spec fn runs_unready(p: PlanView, s: StateView) -> bool {
    forall|e: EdgeId|
        (#[trigger] p.wants(e)) is Some && p.wants(e) != Some(Want::Nothing) && e.0 < s.edges.len()
            ==> !s.edges[e.0 as int].outputs_ready
}

/// Whether no edge is queued twice, or before its inputs are ready, or to run
/// when it is done already.
pub open spec fn orderly(p: PlanView, s: StateView) -> bool {
    &&& queued_once(p, s)
    &&& inputs_first(p, s)
    &&& runs_unready(p, s)
}

spec fn none_ready(s: StateView, nodes: Seq<NodeId>) -> bool {
    forall|i: int| 0 <= i < nodes.len() ==> !is_ready(s, #[trigger] nodes[i])
}

spec fn none_can_run(s: StateView, edges: Seq<EdgeId>) -> bool {
    forall|i: int| 0 <= i < edges.len() ==> !s.inputs_ready((#[trigger] edges[i]).0 as int)
}

proof fn lemma_consumers_wait(s: StateView, node: NodeId)
    requires
        s.wf(),
        node.0 < s.nodes.len(),
        !is_ready(s, node),
    ensures
        none_can_run(s, s.nodes[node.0 as int].out_edges),
{
    let v = s.nodes[node.0 as int].out_edges;
    assert(s.consumers_linked(node.0 as int));
    assert forall|i: int| 0 <= i < v.len() implies !s.inputs_ready((#[trigger] v[i]).0 as int) by {
        let ins = s.edges[v[i].0 as int].inputs;
        assert(ins.contains(NodeId(node.0 as int as usize)));
        let k = choose|k: int| 0 <= k < ins.len() && ins[k] == node;
        assert(!is_ready(s, s.edges[v[i].0 as int].inputs[k]));
    }
}

pub proof fn lemma_same_makers(s: StateView, t: StateView)
    requires
        s.wf(),
        t.wf(),
        t.edges == s.edges,
        t.nodes.len() == s.nodes.len() <= usize::MAX,
    ensures
        forall|i: int|
            0 <= i < s.nodes.len() ==> (#[trigger] t.nodes[i]).in_edge == s.nodes[i].in_edge,
        forall|n: NodeId|
            n.0 < s.nodes.len() ==> #[trigger] is_ready(t, n) == is_ready(s, n),
        forall|e: int|
            0 <= e < s.edges.len() ==> #[trigger] t.inputs_ready(e) == s.inputs_ready(e),
{
    assert forall|i: int| 0 <= i < s.nodes.len() implies (#[trigger] t.nodes[i]).in_edge
        == s.nodes[i].in_edge by {
        lemma_producer_found(s, t, i);
        lemma_producer_found(t, s, i);
    }
    assert forall|e: int| 0 <= e < s.edges.len() implies #[trigger] t.inputs_ready(e)
        == s.inputs_ready(e) by {
        assert(s.edge_ok(s.edges[e]));
        assert forall|k: int| 0 <= k < s.edges[e].inputs.len() implies s.nodes[(
        #[trigger] s.edges[e].inputs[k]).0 as int].in_edge
            == t.nodes[s.edges[e].inputs[k].0 as int].in_edge by {}
    }
}

proof fn lemma_producer_found(s: StateView, t: StateView, i: int)
    requires
        s.wf(),
        t.wf(),
        t.edges == s.edges,
        0 <= i < s.nodes.len() <= usize::MAX,
    ensures
        s.nodes[i].in_edge is Some ==> t.nodes[i].in_edge == s.nodes[i].in_edge,
{
    assert(s.producer_linked(i));
    assert(s.node_ok(s.nodes[i]));
    if let Some(e) = s.nodes[i].in_edge {
        let outs = s.edges[e.0 as int].outputs;
        let k = choose|k: int| 0 <= k < outs.len() && outs[k] == NodeId(i as usize);
        assert(t.outputs_linked(e.0 as int));
        assert(t.edges[e.0 as int].outputs[k] == NodeId(i as usize));
    }
}

proof fn lemma_orderly_later(p: PlanView, s: StateView, t: StateView)
    requires
        orderly(p, s),
        s.wf(),
        t.wf(),
        t.edges == s.edges,
        t.nodes.len() == s.nodes.len() <= usize::MAX,
    ensures
        orderly(p, t),
{
    lemma_same_makers(s, t);
    lemma_queue_kept(p, s, t);
}

proof fn lemma_dropped_orderly(p: PlanView, s: StateView, edge: EdgeId)
    requires
        orderly(p, s),
        !s.inputs_ready(edge.0 as int),
    ensures
        orderly(edge_dropped(p, s, edge), s),
{
    lemma_wanted_once(p, s, edge, Some(Want::Nothing));
    let q = edge_dropped(p, s, edge);
    lemma_same_queue(p.with_want(edge, Some(Want::Nothing)), q, s);
    assert forall|e: EdgeId|
        (#[trigger] q.wants(e)) is Some && q.wants(e) != Some(Want::Nothing) && e.0
            < s.edges.len() implies !s.edges[e.0 as int].outputs_ready by {
        assert(e != edge);
        assert(p.wants(e) == q.wants(e));
    }
}

fn first_dirty(state: &State, nodes: &[NodeId], n: usize) -> (r: bool)
    requires
        n <= nodes@.len(),
        nodes_below(nodes@, state@.nodes.len()),
    ensures
        r == any_dirty(state@, nodes@.take(n as int)),
{
    let ghost v = nodes@.take(n as int);
    let mut i: usize = 0;
    while i < n
        invariant
            i <= n <= nodes@.len(),
            v == nodes@.take(n as int),
            nodes_below(nodes@, state@.nodes.len()),
            forall|k: int| 0 <= k < i ==> !state@.nodes[(#[trigger] v[k]).0 as int].dirty,
        decreases n - i,
    {
        if state.node(nodes[i]).dirty {
            assert(state@.nodes[v[i as int].0 as int].dirty);
            return true;
        }
        i += 1;
    }
    false
}

fn find_newest(state: &State, nodes: &[NodeId], n: usize) -> (r: Option<NodeId>)
    requires
        n <= nodes@.len(),
        nodes_below(nodes@, state@.nodes.len()),
    ensures
        r == newest_of(state@, nodes@.take(n as int), 0, None),
        r matches Some(m) ==> m.0 < state@.nodes.len(),
{
    let ghost v = nodes@.take(n as int);
    let mut newest: Option<NodeId> = None;
    let mut i: usize = 0;
    while i < n
        invariant
            i <= n <= nodes@.len(),
            v == nodes@.take(n as int),
            nodes_below(nodes@, state@.nodes.len()),
            newest matches Some(m) ==> m.0 < state@.nodes.len(),
            newest_of(state@, v, i as int, newest) == newest_of(state@, v, 0, None),
        decreases n - i,
    {
        assert(v[i as int] == nodes@[i as int]);
        let newer: bool = match newest {
            None => true,
            Some(m) => state.node(nodes[i]).mtime > state.node(m).mtime,
        };
        if newer {
            newest = Some(nodes[i]);
        }
        i += 1;
    }
    newest
}

fn solid_count(state: &State, edge: EdgeId) -> (r: usize)
    requires
        edge.0 < state@.edges.len(),
    ensures
        r == state@.edges[edge.0 as int].first_order_only(),
        r <= state@.edges[edge.0 as int].inputs.len(),
{
    let len: usize = state.edge(edge).inputs().len();
    let order_only: usize = state.edge(edge).order_only_deps();
    if order_only <= len {
        len - order_only
    } else {
        0
    }
}

impl Plan {
    fn drop_edge(&mut self, state: &State, edge: EdgeId)
        requires
            edge.0 < state@.edges.len(),
        ensures
            final(self)@ == edge_dropped(old(self)@, state@, edge),
    {
        self.set_want(edge, Some(Want::Nothing));
        self.wanted_edges = self.wanted_edges.wrapping_sub(1);
        if !state.edge_is_phony(edge) {
            self.command_edges = self.command_edges.wrapping_sub(1);
            self.changes.push(PlanChange::Removed(edge));
        }
    }

    fn clean_from<'a, D: DiskInterface>(
        &mut self,
        scan: &DependencyScan<'a, D>,
        state: &mut State,
        notes: &mut Option<Explanations>,
        node: NodeId,
        depth: usize,
    ) -> (r: Result<(), Error>)
        requires
            old(state).wf(),
            old(self)@.fits(old(state)@),
            node.0 < old(state)@.nodes.len(),
        ensures
            final(state).wf(),
            clean_kept(old(self)@, old(state)@, final(self)@, final(state)@),
            orderly(old(self)@, old(state)@) && !is_ready(old(state)@, node) ==> orderly(
                final(self)@,
                final(state)@,
            ),
            match (r, cleaned(
                scan.sources().log,
                scanned(old(self)@, old(state)@, *old(notes)),
                node,
                depth as nat,
            )) {
                (Ok(_), Ok(w)) => scanned(final(self)@, final(state)@, *final(notes)) == w,
                (Err(e), Err(f)) => e@ == f.error && scanned(final(self)@, final(state)@, *final(notes))
                    == f.at,
                _ => false,
            },
        decreases depth, 1nat,
    {
        if depth == 0 {
            return Err(Error::Build("the build graph is nested too deeply".to_owned()));
        }
        let edges = vstd::slice::slice_to_vec(state.node(node).out_edges());
        proof {
            state.lemma_wf();
            assert(state@.node_ok(state@.nodes[node.0 as int]));
            if !is_ready(state@, node) {
                lemma_consumers_wait(state@, node);
            }
        }
        let ghost s0 = state@;
        state.set_dirty(node, false);
        proof {
            state.lemma_wf();
            lemma_same_makers(s0, state@);
            if orderly(self@, s0) {
                lemma_orderly_later(self@, s0, state@);
            }
        }
        self.clean_edges(scan, state, notes, edges.as_slice(), depth - 1)
    }

    #[verifier::rlimit(40)]
    fn clean_edges<'a, D: DiskInterface>(
        &mut self,
        scan: &DependencyScan<'a, D>,
        state: &mut State,
        notes: &mut Option<Explanations>,
        edges: &[EdgeId],
        depth: usize,
    ) -> (r: Result<(), Error>)
        requires
            old(state).wf(),
            old(self)@.fits(old(state)@),
            edges_below(edges@, old(state)@.edges.len()),
        ensures
            final(state).wf(),
            clean_kept(old(self)@, old(state)@, final(self)@, final(state)@),
            orderly(old(self)@, old(state)@) && none_can_run(old(state)@, edges@) ==> orderly(
                final(self)@,
                final(state)@,
            ),
            match (r, edges_cleaned(
                scan.sources().log,
                scanned(old(self)@, old(state)@, *old(notes)),
                edges@,
                0,
                depth as nat,
            )) {
                (Ok(_), Ok(w)) => scanned(final(self)@, final(state)@, *final(notes)) == w,
                (Err(e), Err(f)) => e@ == f.error && scanned(final(self)@, final(state)@, *final(notes))
                    == f.at,
                _ => false,
            },
        decreases depth, 3nat,
    {
        let ghost log = scan.sources().log;
        let ghost p0 = self@;
        let ghost s0 = state@;
        let ghost none = Seq::<NodeId>::empty();
        let ghost want = edges_cleaned(
            log,
            scanned(self@, state@, *notes),
            edges@,
            0,
            depth as nat,
        );
        proof {
            state.lemma_wf();
        }
        let mut k: usize = 0;
        while k < edges.len()
            invariant
                k <= edges@.len(),
                log == scan.sources().log,
                none == Seq::<NodeId>::empty(),
                p0 == old(self)@,
                s0 == old(state)@,
                s0.wf(),
                state.wf(),
                orderly(p0, s0) && none_can_run(s0, edges@) ==> orderly(self@, state@),
                clean_kept(p0, s0, self@, state@),
                edges_below(edges@, s0.edges.len()),
                want == edges_cleaned(
                    log,
                    scanned(old(self)@, old(state)@, *old(notes)),
                    edges@,
                    0,
                    depth as nat,
                ),
                want == edges_cleaned(
                    log,
                    scanned(self@, state@, *notes),
                    edges@,
                    k as int,
                    depth as nat,
                ),
            decreases edges@.len() - k,
        {
            let e = edges[k];
            let ghost w1 = scanned(self@, state@, *notes);
            proof {
                state.lemma_wf();
                lemma_same_makers(s0, state@);
                assert(state@.edge_ok(state@.edges[e.0 as int]));
            }
            // Skip edges we do not want, edges whose deps failed to load, and
            // those that have inputs that are still dirty.
            let wanted: bool = match self.want(e) {
                None => false,
                Some(w) => w != Want::Nothing,
            };
            let solid: usize = solid_count(state, e);
            if wanted && !state.edge(e).deps_missing && !first_dirty(
                state,
                state.edge(e).inputs(),
                solid,
            ) {
                assert(may_be_clean(w1, e));
                let newest = find_newest(state, state.edge(e).inputs(), solid);
                let ghost s1 = state@;
                let ghost n1 = *notes;
                let dirty: bool = scan.recompute_outputs_dirty(state, notes, e, newest);
                proof {
                    assert(scan_start(w1) == progress(s1, n1, none, none));
                    assert((progress(state@, *notes, none, none), dirty) == edge_checked(
                        log,
                        progress(s1, n1, none, none),
                        e,
                        newest,
                    ));
                    assert(self@.fits(state@));
                    state.lemma_wf();
                    if orderly(self@, s1) {
                        lemma_orderly_later(self@, s1, state@);
                    }
                }
                if !dirty {
                    let outputs = vstd::slice::slice_to_vec(state.edge(e).outputs());
                    let ghost p2 = self@;
                    let ghost s2 = state@;
                    proof {
                        assert(s2.outputs_linked(e.0 as int));
                        if orderly(p2, s2) {
                            assert(p2.wants(e) is Some);
                            assert(none_ready(s2, outputs@));
                        }
                    }
                    match self.clean_nodes(scan, state, notes, outputs.as_slice(), depth) {
                        Err(f) => {
                            return Err(f);
                        },
                        Ok(_) => {},
                    }
                    proof {
                        state.lemma_wf();
                        lemma_same_makers(s0, state@);
                        if orderly(self@, state@) && !state@.inputs_ready(e.0 as int) {
                            lemma_dropped_orderly(self@, state@, e);
                        }
                    }
                    self.drop_edge(state, e);
                }
            } else {
                assert(!may_be_clean(w1, e));
            }
            k += 1;
        }
        Ok(())
    }

    fn clean_nodes<'a, D: DiskInterface>(
        &mut self,
        scan: &DependencyScan<'a, D>,
        state: &mut State,
        notes: &mut Option<Explanations>,
        nodes: &[NodeId],
        depth: usize,
    ) -> (r: Result<(), Error>)
        requires
            old(state).wf(),
            old(self)@.fits(old(state)@),
            nodes_below(nodes@, old(state)@.nodes.len()),
        ensures
            final(state).wf(),
            clean_kept(old(self)@, old(state)@, final(self)@, final(state)@),
            orderly(old(self)@, old(state)@) && none_ready(old(state)@, nodes@) ==> orderly(
                final(self)@,
                final(state)@,
            ),
            match (r, nodes_cleaned(
                scan.sources().log,
                scanned(old(self)@, old(state)@, *old(notes)),
                nodes@,
                0,
                depth as nat,
            )) {
                (Ok(_), Ok(w)) => scanned(final(self)@, final(state)@, *final(notes)) == w,
                (Err(e), Err(f)) => e@ == f.error && scanned(final(self)@, final(state)@, *final(notes))
                    == f.at,
                _ => false,
            },
        decreases depth, 2nat,
    {
        let ghost log = scan.sources().log;
        let ghost want = nodes_cleaned(
            log,
            scanned(self@, state@, *notes),
            nodes@,
            0,
            depth as nat,
        );
        let ghost s0 = state@;
        proof {
            state.lemma_wf();
        }
        let mut k: usize = 0;
        while k < nodes.len()
            invariant
                k <= nodes@.len(),
                log == scan.sources().log,
                s0 == old(state)@,
                s0.wf(),
                state.wf(),
                orderly(old(self)@, s0) && none_ready(s0, nodes@) ==> orderly(self@, state@),
                clean_kept(old(self)@, old(state)@, self@, state@),
                nodes_below(nodes@, old(state)@.nodes.len()),
                want == nodes_cleaned(
                    log,
                    scanned(old(self)@, old(state)@, *old(notes)),
                    nodes@,
                    0,
                    depth as nat,
                ),
                want == nodes_cleaned(
                    log,
                    scanned(self@, state@, *notes),
                    nodes@,
                    k as int,
                    depth as nat,
                ),
            decreases nodes@.len() - k,
        {
            proof {
                state.lemma_wf();
                lemma_same_makers(s0, state@);
            }
            match self.clean_from(scan, state, notes, nodes[k], depth) {
                Err(f) => {
                    return Err(f);
                },
                Ok(_) => {},
            }
            k += 1;
        }
        Ok(())
    }

    /// Mark `node` clean during the build (a `restat` rule found its output
    /// unchanged) and propagate that through the plan.
    pub fn clean_node<'a, D: DiskInterface>(
        &mut self,
        scan: &DependencyScan<'a, D>,
        state: &mut State,
        notes: &mut Option<Explanations>,
        node: NodeId,
    ) -> (r: Result<(), Error>)
        requires
            old(state).wf(),
            old(self)@.fits(old(state)@),
            node.0 < old(state)@.nodes.len(),
        ensures
            final(state).wf(),
            clean_kept(old(self)@, old(state)@, final(self)@, final(state)@),
            in_turn(old(self)@, old(state)@) ==> in_turn(final(self)@, final(state)@),
            orderly(old(self)@, old(state)@) && !is_ready(old(state)@, node) ==> orderly(
                final(self)@,
                final(state)@,
            ),
            match (r, cleaned(
                scan.sources().log,
                scanned(old(self)@, old(state)@, *old(notes)),
                node,
                old(state)@.nodes.len(),
            )) {
                (Ok(_), Ok(w)) => scanned(final(self)@, final(state)@, *final(notes)) == w,
                (Err(e), Err(f)) => e@ == f.error && scanned(final(self)@, final(state)@, *final(notes))
                    == f.at,
                _ => false,
            },
    {
        let depth: usize = state.node_count();
        self.clean_from(scan, state, notes, node, depth)
    }
}

/// The edges of the plan that need `node`, and those that need what these make,
/// not visited any more, and the nodes that they make. At most `depth` edges can
/// be nested.
pub open spec fn unmarked(p: PlanView, s: StateView, node: NodeId, made: Seq<bool>, depth: nat) -> (
    StateView,
    Seq<bool>,
)
    decreases depth, 1nat, 0nat,
{
    edges_unmarked(p, s, s.nodes[node.0 as int].out_edges, 0, made, depth)
}

/// The same from the `k`-th of the edges on.
pub open spec fn edges_unmarked(
    p: PlanView,
    s: StateView,
    edges: Seq<EdgeId>,
    k: int,
    made: Seq<bool>,
    depth: nat,
) -> (StateView, Seq<bool>)
    decreases depth, 0nat, edges.len() - k,
{
    if 0 <= k < edges.len() {
        let i = edges[k].0 as int;
        if p.wants(edges[k]) is None || s.edges[i].mark == VisitMark::Unvisited || depth == 0 {
            edges_unmarked(p, s, edges, k + 1, made, depth)
        } else {
            let t = s.with_edge(i, EdgeView { mark: VisitMark::Unvisited, ..s.edges[i] });
            let (u, more) = nodes_unmarked(
                p,
                t,
                t.edges[i].outputs,
                0,
                made,
                (depth - 1) as nat,
            );
            edges_unmarked(p, u, edges, k + 1, more, depth)
        }
    } else {
        (s, made)
    }
}

/// The same for what needs the nodes from the `k`-th on, and these themselves.
pub open spec fn nodes_unmarked(
    p: PlanView,
    s: StateView,
    nodes: Seq<NodeId>,
    k: int,
    made: Seq<bool>,
    depth: nat,
) -> (StateView, Seq<bool>)
    decreases depth, 2nat, nodes.len() - k,
{
    if 0 <= k < nodes.len() {
        let i = nodes[k].0 as int;
        if made[i] {
            nodes_unmarked(p, s, nodes, k + 1, made, depth)
        } else {
            let (t, more) = unmarked(p, s, nodes[k], made.update(i, true), depth);
            nodes_unmarked(p, t, nodes, k + 1, more, depth)
        }
    } else {
        (s, made)
    }
}

/// The plan with those of the nodes from the `k`-th on as targets that are made
/// by edges that still have to run.
pub open spec fn with_unready_targets(p: PlanView, s: StateView, nodes: Seq<NodeId>, k: int) -> Result<
    PlanView,
    Cut<PlanView>,
>
    decreases nodes.len() - k,
{
    if 0 <= k < nodes.len() {
        match s.nodes[nodes[k].0 as int].in_edge {
            Some(e) => if !s.edges[e.0 as int].outputs_ready {
                match with_target(p, s, nodes[k]) {
                    Err(f) => Err(f),
                    Ok((q, _)) => with_unready_targets(q, s, nodes, k + 1),
                }
            } else {
                with_unready_targets(p, s, nodes, k + 1)
            },
            None => with_unready_targets(p, s, nodes, k + 1),
        }
    } else {
        Ok(p)
    }
}

/// The plan with the edge that makes `node`, which was in it but not to be run,
/// if `node` has turned out to be dirty.
pub open spec fn with_dirty_node(p: PlanView, s: StateView, node: NodeId) -> PlanView {
    let n = s.nodes[node.0 as int];
    match n.in_edge {
        Some(e) => if n.dirty && p.wants(e) == Some(Want::Nothing) {
            p.with_want(e, Some(Want::ToStart)).edge_wanted(s, e)
        } else {
            p
        },
        None => p,
    }
}

/// The nodes from the `k`-th on, where `made` has them, scanned again.
pub open spec fn rescanned<D: DiskInterface>(
    c: Sources<D::Model>,
    w: Scanned,
    made: Seq<bool>,
    k: int,
) -> Result<Scanned, Cut<Scanned>>
    decreases made.len() - k,
{
    if 0 <= k < made.len() {
        if !made[k] {
            rescanned::<D>(c, w, made, k + 1)
        } else {
            match queue_visited::<D>(c, scan_start(w), seq![NodeId(k as usize)]) {
                Err(f) => cut(
                    f.error,
                    Scanned { state: f.at.state, notes: f.at.notes, ..w },
                ),
                Ok(p) => match with_unready_targets(w.plan, p.state, p.validations, 0) {
                    Err(f) => cut(
                        f.error,
                        Scanned { plan: f.at, state: p.state, notes: p.notes },
                    ),
                    Ok(plan) => rescanned::<D>(
                        c,
                        Scanned {
                            plan: with_dirty_node(plan, p.state, NodeId(k as usize)),
                            state: p.state,
                            notes: p.notes,
                        },
                        made,
                        k + 1,
                    ),
                },
            }
        }
    } else {
        Ok(w)
    }
}

/// Everything in the plan that depends on `node` scanned again.
pub open spec fn dependents_refreshed<D: DiskInterface>(
    c: Sources<D::Model>,
    w: Scanned,
    node: NodeId,
) -> Result<Scanned, Cut<Scanned>> {
    let (s, made) = unmarked(
        w.plan,
        w.state,
        node,
        Seq::new(w.state.nodes.len(), |i: int| false),
        w.state.edges.len(),
    );
    rescanned::<D>(c, Scanned { state: s, ..w }, made, 0)
}

/// Whether the new inputs of `edge` have to be looked at: it is in the plan and
/// still has to run.
pub open spec fn is_root(p: PlanView, s: StateView, edge: EdgeId) -> bool {
    !s.edges[edge.0 as int].outputs_ready && p.wants(edge) is Some
}

/// The first output of an edge, if it has one.
pub open spec fn first_output_of(s: StateView, edge: EdgeId) -> Option<NodeId> {
    let outs = s.edges[edge.0 as int].outputs;
    if outs.len() > 0 {
        Some(outs[0])
    } else {
        None
    }
}

/// The plan with the new inputs of the edges from the `k`-th entry on, where
/// they are in the plan `p0`.
pub open spec fn roots_walked(p0: PlanView, w: Walk, s: StateView, v: Entries, k: int) -> Result<
    Walk,
    Cut<Walk>,
>
    decreases v.len() - k,
{
    if 0 <= k < v.len() {
        let edge = v[k].0;
        if !is_root(p0, s, edge) {
            roots_walked(p0, w, s, v, k + 1)
        } else {
            match with_sub_targets(
                w,
                true,
                s,
                v[k].1.implicit_inputs,
                first_output_of(s, edge),
                0,
                s.edges.len(),
            ) {
                Err(f) => Err(f),
                Ok(x) => roots_walked(p0, x, s, v, k + 1),
            }
        }
    } else {
        Ok(w)
    }
}

/// The edges seen, and those from the `k`-th on that are in the plan.
pub open spec fn seen_with(p: PlanView, seen: Seq<bool>, edges: Seq<EdgeId>, k: int) -> Seq<bool>
    decreases edges.len() - k,
{
    if 0 <= k < edges.len() {
        seen_with(
            p,
            if p.wants(edges[k]) is Some {
                seen.update(edges[k].0 as int, true)
            } else {
                seen
            },
            edges,
            k + 1,
        )
    } else {
        seen
    }
}

/// The edges from the `k`-th on that were seen scheduled if they are ready.
pub open spec fn seen_scheduled(w: Work, seen: Seq<bool>, k: int, depth: nat) -> Work
    decreases seen.len() - k,
{
    if 0 <= k < seen.len() {
        seen_scheduled(
            if seen[k] {
                maybe_ready(w, EdgeId(k as usize), depth)
            } else {
                w
            },
            seen,
            k + 1,
            depth,
        )
    } else {
        w
    }
}

/// The plan after the dyndep file `node`, with the entries `v`, has been loaded.
/// At most `depth` files can lead to one another.
pub open spec fn dyndeps_planned<D: DiskInterface>(
    c: Sources<D::Model>,
    w: Scanned,
    node: NodeId,
    v: Entries,
    depth: nat,
) -> Result<Scanned, Cut<Scanned>>
    decreases depth, 0nat, 0nat,
{
    if depth == 0 {
        cut(too_deep(), w)
    } else {
        match dependents_refreshed::<D>(c, w, node) {
            Err(f) => Err(f),
            Ok(x) => {
                let s = x.state;
                let start = Walk {
                    plan: x.plan,
                    seen: Seq::new(s.edges.len(), |i: int| false),
                };
                match roots_walked(x.plan, start, s, v, 0) {
                    Err(f) => cut(f.error, Scanned { plan: f.at.plan, ..x }),
                    Ok(y) => {
                        let seen = seen_with(
                            y.plan,
                            y.seen,
                            s.nodes[node.0 as int].out_edges,
                            0,
                        );
                        let z = seen_scheduled(
                            work(y.plan, s, Seq::empty()),
                            seen,
                            0,
                            planned(y.plan.want),
                        );
                        files_planned::<D>(
                            c,
                            Scanned { plan: z.plan, state: z.state, notes: x.notes },
                            z.pending,
                            0,
                            (depth - 1) as nat,
                        )
                    },
                }
            },
        }
    }
}

/// The plan after the dyndep files from the `k`-th on have been loaded.
pub open spec fn files_planned<D: DiskInterface>(
    c: Sources<D::Model>,
    w: Scanned,
    files: Seq<NodeId>,
    k: int,
    depth: nat,
) -> Result<Scanned, Cut<Scanned>>
    decreases depth, 1nat, files.len() - k,
{
    if 0 <= k < files.len() {
        match dyndeps_loaded::<D>(w.state, c.disk, files[k]) {
            Err(f) => cut(f.error, Scanned { state: f.state, ..w }),
            Ok((s, v)) => match dyndeps_planned::<D>(
                c,
                Scanned { state: s, ..w },
                files[k],
                v,
                depth,
            ) {
                Err(f) => Err(f),
                Ok(x) => files_planned::<D>(c, x, files, k + 1, depth),
            },
        }
    } else {
        Ok(w)
    }
}

/// The number of edges that have been visited.
pub open spec fn marked(s: StateView) -> int {
    s.edges.len() - unvisited(s.edges)
}

/// Whether nothing but marks that have been taken away tells two graphs apart.
pub open spec fn same_but_marks(s: StateView, t: StateView) -> bool {
    &&& t.nodes == s.nodes
    &&& t.pools == s.pools
    &&& t.edges.len() == s.edges.len()
    &&& forall|i: int|
        0 <= i < s.edges.len() ==> (#[trigger] t.edges[i]) == s.edges[i] || t.edges[i] == (
        EdgeView { mark: VisitMark::Unvisited, ..s.edges[i] })
}

proof fn lemma_same_but_marks_twice(s: StateView, t: StateView, u: StateView)
    requires
        same_but_marks(s, t),
        same_but_marks(t, u),
    ensures
        same_but_marks(s, u),
{
    assert forall|i: int| 0 <= i < s.edges.len() implies (#[trigger] u.edges[i]) == s.edges[i]
        || u.edges[i] == (EdgeView { mark: VisitMark::Unvisited, ..s.edges[i] }) by {
        assert(t.edges[i] == s.edges[i] || t.edges[i] == (EdgeView {
            mark: VisitMark::Unvisited,
            ..s.edges[i]
        }));
    }
}

proof fn lemma_marked(s: StateView, t: StateView)
    requires
        same_but_marks(s, t),
    ensures
        0 <= marked(t) <= marked(s) <= s.edges.len(),
{
    lemma_unvisited_kept(t.edges, s.edges);
    lemma_unvisited_kept(s.edges, s.edges);
}

impl Plan {
    fn unmark_dependents(
        &self,
        state: &mut State,
        node: NodeId,
        made: &mut Vec<bool>,
        Ghost(depth): Ghost<nat>,
    )
        requires
            old(state).wf(),
            self@.fits(old(state)@),
            node.0 < old(state)@.nodes.len(),
            old(made)@.len() == old(state)@.nodes.len(),
            depth >= marked(old(state)@),
        ensures
            final(state).wf(),
            same_but_marks(old(state)@, final(state)@),
            final(made)@.len() == old(made)@.len(),
            (final(state)@, final(made)@) == unmarked(
                self@,
                old(state)@,
                node,
                old(made)@,
                depth,
            ),
        decreases marked(old(state)@), 1nat,
    {
        let edges = vstd::slice::slice_to_vec(state.node(node).out_edges());
        let ghost s0 = state@;
        let ghost es = edges@;
        let ghost want = unmarked(self@, s0, node, made@, depth);
        proof {
            state.lemma_wf();
            assert(s0.node_ok(s0.nodes[node.0 as int]));
            lemma_marked(s0, s0);
        }
        let mut k: usize = 0;
        while k < edges.len()
            invariant
                k <= edges@.len(),
                edges@ == es,
                state.wf(),
                self@.fits(s0),
                s0 == old(state)@,
                same_but_marks(s0, state@),
                edges_below(es, s0.edges.len()),
                made@.len() == s0.nodes.len(),
                made@.len() == old(made)@.len(),
                depth >= marked(s0),
                want == unmarked(self@, s0, node, old(made)@, depth),
                edges_unmarked(self@, state@, es, k as int, made@, depth) == want,
            decreases edges@.len() - k,
        {
            let e = edges[k];
            let ghost s1 = state@;
            proof {
                lemma_marked(s0, s1);
            }
            if self.want(e).is_some() && state.edge(e).mark != VisitMark::Unvisited {
                state.set_mark(e, VisitMark::Unvisited);
                let ghost s2 = state@;
                let outputs = vstd::slice::slice_to_vec(state.edge(e).outputs());
                proof {
                    lemma_unvisited_less(s2.edges, s1.edges, e.0 as int);
                    lemma_marked(s1, s2);
                    state.lemma_wf();
                    assert(s2.edge_ok(s2.edges[e.0 as int]));
                }
                self.unmark_nodes(state, outputs.as_slice(), made, Ghost((depth - 1) as nat));
                proof {
                    lemma_same_but_marks_twice(s1, s2, state@);
                    lemma_same_but_marks_twice(s0, s1, state@);
                }
            } else {
                proof {
                    assert(self@.wants(e) is None || s1.edges[e.0 as int].mark
                        == VisitMark::Unvisited || depth == 0);
                }
            }
            k += 1;
        }
    }

    fn unmark_nodes(
        &self,
        state: &mut State,
        nodes: &[NodeId],
        made: &mut Vec<bool>,
        Ghost(depth): Ghost<nat>,
    )
        requires
            old(state).wf(),
            self@.fits(old(state)@),
            nodes_below(nodes@, old(state)@.nodes.len()),
            old(made)@.len() == old(state)@.nodes.len(),
            depth >= marked(old(state)@),
        ensures
            final(state).wf(),
            same_but_marks(old(state)@, final(state)@),
            final(made)@.len() == old(made)@.len(),
            (final(state)@, final(made)@) == nodes_unmarked(
                self@,
                old(state)@,
                nodes@,
                0,
                old(made)@,
                depth,
            ),
        decreases marked(old(state)@), 2nat,
    {
        let ghost s0 = state@;
        let ghost want = nodes_unmarked(self@, s0, nodes@, 0, made@, depth);
        let mut k: usize = 0;
        while k < nodes.len()
            invariant
                k <= nodes@.len(),
                state.wf(),
                self@.fits(s0),
                s0 == old(state)@,
                same_but_marks(s0, state@),
                nodes_below(nodes@, s0.nodes.len()),
                made@.len() == s0.nodes.len(),
                made@.len() == old(made)@.len(),
                depth >= marked(s0),
                want == nodes_unmarked(self@, s0, nodes@, 0, old(made)@, depth),
                nodes_unmarked(self@, state@, nodes@, k as int, made@, depth) == want,
            decreases nodes@.len() - k,
        {
            let n = nodes[k];
            let ghost s1 = state@;
            if !made[n.0] {
                made.set(n.0, true);
                proof {
                    lemma_marked(s0, s1);
                }
                self.unmark_dependents(state, n, made, Ghost(depth));
                proof {
                    lemma_same_but_marks_twice(s0, s1, state@);
                }
            }
            k += 1;
        }
    }

    pub(crate) fn add_unready_targets(&mut self, state: &State, nodes: &[NodeId]) -> (r: Result<(), Error>)
        requires
            state.wf(),
            old(self)@.fits(state@),
            nodes_below(nodes@, state@.nodes.len()),
        ensures
            final(self)@.fits(state@),
            match (r, with_unready_targets(old(self)@, state@, nodes@, 0)) {
                (Ok(_), Ok(p)) => final(self)@ == p,
                (Err(e), Err(f)) => e@ == f.error && final(self)@ == f.at,
                _ => false,
            },
    {
        let mut k: usize = 0;
        while k < nodes.len()
            invariant
                k <= nodes@.len(),
                state.wf(),
                self@.fits(state@),
                nodes_below(nodes@, state@.nodes.len()),
                with_unready_targets(self@, state@, nodes@, k as int) == with_unready_targets(
                    old(self)@,
                    state@,
                    nodes@,
                    0,
                ),
            decreases nodes@.len() - k,
        {
            proof {
                state.lemma_wf();
                assert(state@.node_ok(state@.nodes[nodes@[k as int].0 as int]));
            }
            if let Some(e) = state.node(nodes[k]).in_edge() {
                if !state.edge(e).outputs_ready() {
                    match self.add_target(state, nodes[k]) {
                        Err(f) => {
                            return Err(f);
                        },
                        Ok(_) => {},
                    }
                }
            }
            k += 1;
        }
        Ok(())
    }

    fn add_dirty_node(&mut self, state: &State, node: NodeId)
        requires
            state.wf(),
            old(self)@.fits(state@),
            node.0 < state@.nodes.len(),
        ensures
            final(self)@.fits(state@),
            final(self)@ == with_dirty_node(old(self)@, state@, node),
    {
        proof {
            state.lemma_wf();
            assert(state@.node_ok(state@.nodes[node.0 as int]));
        }
        if let Some(e) = state.node(node).in_edge() {
            if state.node(node).dirty && self.want(e) == Some(Want::Nothing) {
                self.set_want(e, Some(Want::ToStart));
                self.edge_wanted(state, e);
            }
        }
    }

    fn rescan<'a, D: DiskInterface>(
        &mut self,
        scan: &DependencyScan<'a, D>,
        state: &mut State,
        notes: &mut Option<Explanations>,
        made: &Vec<bool>,
    ) -> (r: Result<(), Error>)
        requires
            old(state).wf(),
            old(self)@.fits(old(state)@),
            at_rest(old(state)@),
            sources_fit(scan.sources(), old(state)@.nodes.len()),
            made@.len() <= old(state)@.nodes.len(),
        ensures
            final(state).wf(),
            old(state)@.nodes.len() <= final(state)@.nodes.len(),
            final(state)@.edges.len() == old(state)@.edges.len() || r is Err,
            r is Ok ==> final(self)@.fits(final(state)@) && at_rest(final(state)@),
            r is Ok && queued_once(old(self)@, old(state)@) ==> queued_once(
                final(self)@,
                final(state)@,
            ),
            match (r, rescanned::<D>(
                scan.sources(),
                scanned(old(self)@, old(state)@, *old(notes)),
                made@,
                0,
            )) {
                (Ok(_), Ok(w)) => scanned(final(self)@, final(state)@, *final(notes)) == w,
                (Err(e), Err(f)) => e@ == f.error && scanned(final(self)@, final(state)@, *final(notes))
                    == f.at,
                _ => false,
            },
    {
        let ghost c = scan.sources();
        let ghost s0 = state@;
        let ghost none = Seq::<NodeId>::empty();
        let ghost want = rescanned::<D>(c, scanned(self@, state@, *notes), made@, 0);
        let mut k: usize = 0;
        while k < made.len()
            invariant
                k <= made@.len(),
                none == Seq::<NodeId>::empty(),
                c == scan.sources(),
                s0 == old(state)@,
                state.wf(),
                self@.fits(state@),
                queued_once(old(self)@, old(state)@) ==> queued_once(self@, state@),
                at_rest(state@),
                sources_fit(c, state@.nodes.len()),
                made@.len() <= s0.nodes.len() <= state@.nodes.len(),
                state@.edges.len() == s0.edges.len(),
                want == rescanned::<D>(
                    c,
                    scanned(old(self)@, old(state)@, *old(notes)),
                    made@,
                    0,
                ),
                want == rescanned::<D>(c, scanned(self@, state@, *notes), made@, k as int),
            decreases made@.len() - k,
        {
            if made[k] {
                let node = NodeId(k);
                let ghost s1 = state@;
                let ghost w1 = scanned(self@, state@, *notes);
                let mut validations: Vec<NodeId> = Vec::new();
                proof {
                    assert(validations@ =~= none);
                    assert(scan_start(w1) == progress(s1, *notes, none, none));
                }
                match scan.recompute_dirty(state, notes, node, &mut validations) {
                    Err(f) => {
                        return Err(f);
                    },
                    Ok(_) => {},
                }
                proof {
                    lemma_sources_fit(c, s1.nodes.len(), state@.nodes.len());
                    lemma_fits_advanced(self@, s1, state@);
                    if queued_once(self@, s1) {
                        lemma_queue_kept(self@, s1, state@);
                        lemma_unready_once(self@, state@, validations@, 0);
                    }
                }
                match self.add_unready_targets(state, validations.as_slice()) {
                    Err(f) => {
                        return Err(f);
                    },
                    Ok(_) => {},
                }
                proof {
                    if queued_once(self@, state@) {
                        lemma_dirty_node_once(self@, state@, node);
                    }
                }
                self.add_dirty_node(state, node);
            }
            k += 1;
        }
        Ok(())
    }

    fn refresh_dyndep_dependents<'a, D: DiskInterface>(
        &mut self,
        scan: &DependencyScan<'a, D>,
        state: &mut State,
        notes: &mut Option<Explanations>,
        node: NodeId,
    ) -> (r: Result<(), Error>)
        requires
            old(state).wf(),
            old(self)@.fits(old(state)@),
            at_rest(old(state)@),
            sources_fit(scan.sources(), old(state)@.nodes.len()),
            node.0 < old(state)@.nodes.len(),
        ensures
            final(state).wf(),
            old(state)@.nodes.len() <= final(state)@.nodes.len(),
            final(state)@.edges.len() == old(state)@.edges.len() || r is Err,
            r is Ok ==> final(self)@.fits(final(state)@) && at_rest(final(state)@),
            r is Ok && queued_once(old(self)@, old(state)@) ==> queued_once(
                final(self)@,
                final(state)@,
            ),
            match (r, dependents_refreshed::<D>(
                scan.sources(),
                scanned(old(self)@, old(state)@, *old(notes)),
                node,
            )) {
                (Ok(_), Ok(w)) => scanned(final(self)@, final(state)@, *final(notes)) == w,
                (Err(e), Err(f)) => e@ == f.error && scanned(final(self)@, final(state)@, *final(notes))
                    == f.at,
                _ => false,
            },
    {
        let ghost s0 = state@;
        // Collect the transitive dependents and let them be re-scanned.
        let mut made = falses(state.node_count());
        proof {
            lemma_marked(s0, s0);
        }
        self.unmark_dependents(state, node, &mut made, Ghost(s0.edges.len()));
        proof {
            assert(self@.fits(state@));
            if queued_once(self@, s0) {
                lemma_queue_kept(self@, s0, state@);
            }
            assert forall|e: int| 0 <= e < state@.edges.len() implies (
            #[trigger] state@.edges[e]).mark != VisitMark::InStack by {
                assert(s0.edges[e].mark != VisitMark::InStack);
            }
        }
        self.rescan(scan, state, notes, &made)
    }
}

proof fn lemma_fits_advanced(p: PlanView, s: StateView, t: StateView)
    requires
        p.fits(s),
        advanced(s, t),
    ensures
        p.fits(t),
{
}

impl Plan {
    fn walk_roots(&mut self, state: &State, ddf: &DyndepFile, seen: &mut Vec<bool>) -> (r: Result<
        (),
        Error,
    >)
        requires
            state.wf(),
            old(self)@.fits(state@),
            entries_ok(ddf@, state@),
            old(seen)@.len() == state@.edges.len(),
        ensures
            final(self)@.fits(state@),
            final(seen)@.len() == old(seen)@.len(),
            match (r, roots_walked(
                old(self)@,
                (Walk { plan: old(self)@, seen: old(seen)@ }),
                state@,
                ddf@,
                0,
            )) {
                (Ok(_), Ok(w)) => w == (Walk { plan: final(self)@, seen: final(seen)@ }),
                (Err(e), Err(f)) => e@ == f.error && f.at == (Walk {
                    plan: final(self)@,
                    seen: final(seen)@,
                }),
                _ => false,
            },
    {
        let ghost p0 = self@;
        let ghost v = ddf@;
        let ghost s = state@;
        let mut roots: Vec<bool> = Vec::new();
        let mut i: usize = 0;
        while i < ddf.entries.len()
            invariant
                i <= ddf.entries@.len(),
                v == ddf@,
                s == state@,
                *self == *old(self),
                p0 == self@,
                entries_ok(v, s),
                roots@.len() == i,
                forall|j: int| 0 <= j < i ==> (#[trigger] roots@[j]) == is_root(p0, s, v[j].0),
            decreases ddf.entries@.len() - i,
        {
            let e = ddf.entries[i].0;
            assert(v[i as int].0 == e);
            roots.push(!state.edge(e).outputs_ready() && self.want(e).is_some());
            i += 1;
        }
        let ghost want = roots_walked(p0, (Walk { plan: p0, seen: seen@ }), s, v, 0);
        let mut k: usize = 0;
        while k < ddf.entries.len()
            invariant
                k <= ddf.entries@.len(),
                v == ddf@,
                s == state@,
                state.wf(),
                p0 == old(self)@,
                self@.fits(s),
                entries_ok(v, s),
                seen@.len() == s.edges.len(),
                seen@.len() == old(seen)@.len(),
                roots@.len() == v.len(),
                forall|j: int|
                    0 <= j < v.len() ==> (#[trigger] roots@[j]) == is_root(p0, s, v[j].0),
                want == roots_walked(
                    p0,
                    (Walk { plan: old(self)@, seen: old(seen)@ }),
                    s,
                    v,
                    0,
                ),
                want == roots_walked(p0, (Walk { plan: self@, seen: seen@ }), s, v, k as int),
            decreases ddf.entries@.len() - k,
        {
            assert(v[k as int] == (ddf.entries@[k as int].0, ddf.entries@[k as int].1@));
            if roots[k] {
                let edge = ddf.entries[k].0;
                proof {
                    state.lemma_wf();
                    assert(s.edge_ok(s.edges[edge.0 as int]));
                }
                let outs = state.edge(edge).outputs();
                let first: Option<NodeId> = if outs.len() > 0 {
                    Some(outs[0])
                } else {
                    None
                };
                match self.add_sub_targets(
                    state,
                    ddf.entries[k].1.implicit_inputs.as_slice(),
                    first,
                    true,
                    seen,
                    Ghost(s.edges.len()),
                ) {
                    Err(f) => {
                        return Err(f);
                    },
                    Ok(_) => {},
                }
            }
            k += 1;
        }
        Ok(())
    }

    fn see_dependents(&self, state: &State, node: NodeId, seen: &mut Vec<bool>)
        requires
            state.wf(),
            node.0 < state@.nodes.len(),
            old(seen)@.len() == state@.edges.len(),
        ensures
            final(seen)@.len() == old(seen)@.len(),
            final(seen)@ == seen_with(
                self@,
                old(seen)@,
                state@.nodes[node.0 as int].out_edges,
                0,
            ),
    {
        let edges = state.node(node).out_edges();
        let mut k: usize = 0;
        proof {
            state.lemma_wf();
            assert(state@.node_ok(state@.nodes[node.0 as int]));
        }
        while k < edges.len()
            invariant
                k <= edges@.len(),
                edges@ == state@.nodes[node.0 as int].out_edges,
                edges_below(edges@, state@.edges.len()),
                seen@.len() == state@.edges.len(),
                seen@.len() == old(seen)@.len(),
                seen_with(self@, seen@, edges@, k as int) == seen_with(
                    self@,
                    old(seen)@,
                    edges@,
                    0,
                ),
            decreases edges@.len() - k,
        {
            if self.want(edges[k]).is_some() {
                seen.set(edges[k].0, true);
            }
            k += 1;
        }
    }

    fn schedule_seen(
        &mut self,
        state: &mut State,
        seen: &Vec<bool>,
        pending: &mut Vec<NodeId>,
    )
        requires
            old(state).wf(),
            old(self)@.fits(old(state)@),
            seen@.len() == old(state)@.edges.len(),
            nodes_below(old(pending)@, old(state)@.nodes.len()),
        ensures
            nodes_below(final(pending)@, final(state)@.nodes.len()),
            final(state).wf(),
            plan_kept(old(self)@, old(state)@, final(self)@, final(state)@),
            work(final(self)@, final(state)@, final(pending)@) == seen_scheduled(
                work(old(self)@, old(state)@, old(pending)@),
                seen@,
                0,
                planned(old(self)@.want),
            ),
    {
        let ghost p0 = self@;
        let ghost s0 = state@;
        let ghost depth = planned(p0.want);
        let ghost w0 = work(self@, state@, pending@);
        let mut k: usize = 0;
        while k < seen.len()
            invariant
                k <= seen@.len(),
                state.wf(),
                nodes_below(pending@, state@.nodes.len()),
                plan_kept(p0, s0, self@, state@),
                seen@.len() == s0.edges.len(),
                depth == planned(p0.want),
                seen_scheduled(work(self@, state@, pending@), seen@, k as int, depth)
                    == seen_scheduled(w0, seen@, 0, depth),
            decreases seen@.len() - k,
        {
            let ghost p1 = self@;
            let ghost s1 = state@;
            if seen[k] {
                self.edge_maybe_ready(state, EdgeId(k), pending, Ghost(depth));
                proof {
                    lemma_plan_kept_twice(p0, s0, p1, s1, self@, state@);
                }
            }
            k += 1;
        }
    }

    fn plan_dyndeps<'a, D: DiskInterface>(
        &mut self,
        scan: &DependencyScan<'a, D>,
        state: &mut State,
        notes: &mut Option<Explanations>,
        node: NodeId,
        ddf: &DyndepFile,
        depth: usize,
    ) -> (r: Result<(), Error>)
        requires
            old(state).wf(),
            old(self)@.fits(old(state)@),
            at_rest(old(state)@),
            sources_fit(scan.sources(), old(state)@.nodes.len()),
            node.0 < old(state)@.nodes.len(),
            entries_ok(ddf@, old(state)@),
        ensures
            final(state).wf(),
            old(state)@.nodes.len() <= final(state)@.nodes.len(),
            r is Ok ==> final(self)@.fits(final(state)@) && at_rest(final(state)@)
                && final(state)@.edges.len() == old(state)@.edges.len(),
            r is Ok && queued_once(old(self)@, old(state)@) ==> queued_once(
                final(self)@,
                final(state)@,
            ),
            match (r, dyndeps_planned::<D>(
                scan.sources(),
                scanned(old(self)@, old(state)@, *old(notes)),
                node,
                ddf@,
                depth as nat,
            )) {
                (Ok(_), Ok(w)) => scanned(final(self)@, final(state)@, *final(notes)) == w,
                (Err(e), Err(f)) => e@ == f.error && scanned(final(self)@, final(state)@, *final(notes))
                    == f.at,
                _ => false,
            },
        decreases depth, 0nat,
    {
        if depth == 0 {
            return Err(Error::Build("the build graph is nested too deeply".to_owned()));
        }
        let ghost s0 = state@;
        // Everything that depends on this node may have become dirty.
        match self.refresh_dyndep_dependents(scan, state, notes, node) {
            Err(f) => {
                return Err(f);
            },
            Ok(_) => {},
        }
        let ghost s1 = state@;
        proof {
            state.lemma_wf();
            lemma_entries_kept(ddf@, s0, s1);
        }
        // Walk the newly reachable part of the graph, starting from the edges
        // that are already in the plan.
        let mut seen = falses(state.edge_count());
        proof {
            if queued_once(self@, s1) {
                lemma_roots_once(self@, Walk { plan: self@, seen: seen@ }, s1, ddf@, 0);
            }
        }
        match self.walk_roots(state, ddf, &mut seen) {
            Err(f) => {
                return Err(f);
            },
            Ok(_) => {},
        }
        // Also consider the out edges of this node, as its end would have done
        // had it not carried dyndep information.
        self.see_dependents(state, node, &mut seen);
        let mut pending: Vec<NodeId> = Vec::new();
        assert(pending@ =~= Seq::empty());
        let ghost p1 = self@;
        self.schedule_seen(state, &seen, &mut pending);
        let ghost s2 = state@;
        proof {
            assert forall|e: int| 0 <= e < s2.edges.len() implies (#[trigger] s2.edges[e]).mark
                != VisitMark::InStack by {
                assert(s1.edges[e].mark != VisitMark::InStack);
            }
            if queued_once(p1, s1) {
                lemma_seen_once(
                    s1,
                    work(p1, s1, Seq::empty()),
                    seen@,
                    0,
                    planned(p1.want),
                );
            }
            lemma_sources_fit(scan.sources(), s0.nodes.len(), s2.nodes.len());
        }
        self.plan_files(scan, state, notes, pending.as_slice(), depth - 1)
    }

    fn plan_files<'a, D: DiskInterface>(
        &mut self,
        scan: &DependencyScan<'a, D>,
        state: &mut State,
        notes: &mut Option<Explanations>,
        files: &[NodeId],
        depth: usize,
    ) -> (r: Result<(), Error>)
        requires
            old(state).wf(),
            old(self)@.fits(old(state)@),
            at_rest(old(state)@),
            sources_fit(scan.sources(), old(state)@.nodes.len()),
            nodes_below(files@, old(state)@.nodes.len()),
        ensures
            final(state).wf(),
            old(state)@.nodes.len() <= final(state)@.nodes.len(),
            r is Ok ==> final(self)@.fits(final(state)@) && at_rest(final(state)@)
                && final(state)@.edges.len() == old(state)@.edges.len(),
            r is Ok && queued_once(old(self)@, old(state)@) ==> queued_once(
                final(self)@,
                final(state)@,
            ),
            match (r, files_planned::<D>(
                scan.sources(),
                scanned(old(self)@, old(state)@, *old(notes)),
                files@,
                0,
                depth as nat,
            )) {
                (Ok(_), Ok(w)) => scanned(final(self)@, final(state)@, *final(notes)) == w,
                (Err(e), Err(f)) => e@ == f.error && scanned(final(self)@, final(state)@, *final(notes))
                    == f.at,
                _ => false,
            },
        decreases depth, 1nat,
    {
        let ghost c = scan.sources();
        let ghost s0 = state@;
        let ghost want = files_planned::<D>(
            c,
            scanned(self@, state@, *notes),
            files@,
            0,
            depth as nat,
        );
        let mut k: usize = 0;
        while k < files.len()
            invariant
                k <= files@.len(),
                c == scan.sources(),
                s0 == old(state)@,
                state.wf(),
                self@.fits(state@),
                queued_once(old(self)@, old(state)@) ==> queued_once(self@, state@),
                at_rest(state@),
                sources_fit(c, state@.nodes.len()),
                s0.nodes.len() <= state@.nodes.len(),
                state@.edges.len() == s0.edges.len(),
                nodes_below(files@, s0.nodes.len()),
                want == files_planned::<D>(
                    c,
                    scanned(old(self)@, old(state)@, *old(notes)),
                    files@,
                    0,
                    depth as nat,
                ),
                want == files_planned::<D>(
                    c,
                    scanned(self@, state@, *notes),
                    files@,
                    k as int,
                    depth as nat,
                ),
            decreases files@.len() - k,
        {
            let ghost s1 = state@;
            let file = files[k];
            let ddf = match scan.load_dyndeps(state, file) {
                Err(f) => {
                    return Err(f);
                },
                Ok(d) => d,
            };
            let ghost s2 = state@;
            proof {
                assert forall|e: int| 0 <= e < s2.edges.len() implies (#[trigger] s2.edges[e]).mark
                    != VisitMark::InStack by {
                    assert(s1.edges[e].mark != VisitMark::InStack);
                }
                lemma_sources_fit(c, s1.nodes.len(), s2.nodes.len());
                assert(self@.fits(s2));
                if queued_once(self@, s1) {
                    lemma_queue_kept(self@, s1, s2);
                }
            }
            match self.plan_dyndeps(scan, state, notes, file, &ddf, depth) {
                Err(f) => {
                    return Err(f);
                },
                Ok(_) => {},
            }
            proof {
                lemma_sources_fit(c, s2.nodes.len(), state@.nodes.len());
            }
            k += 1;
        }
        Ok(())
    }

    /// Update the plan after a dyndep file has been loaded.
    pub fn dyndeps_loaded<'a, D: DiskInterface>(
        &mut self,
        scan: &DependencyScan<'a, D>,
        state: &mut State,
        notes: &mut Option<Explanations>,
        node: NodeId,
        ddf: &DyndepFile,
    ) -> (r: Result<(), Error>)
        requires
            old(state).wf(),
            old(self)@.fits(old(state)@),
            at_rest(old(state)@),
            sources_fit(scan.sources(), old(state)@.nodes.len()),
            node.0 < old(state)@.nodes.len(),
            entries_ok(ddf@, old(state)@),
        ensures
            final(state).wf(),
            old(state)@.nodes.len() <= final(state)@.nodes.len(),
            r is Ok ==> final(self)@.fits(final(state)@) && at_rest(final(state)@)
                && final(state)@.edges.len() == old(state)@.edges.len(),
            r is Ok && queued_once(old(self)@, old(state)@) ==> queued_once(
                final(self)@,
                final(state)@,
            ),
            match (r, dyndeps_planned::<D>(
                scan.sources(),
                scanned(old(self)@, old(state)@, *old(notes)),
                node,
                ddf@,
                old(state)@.nodes.len(),
            )) {
                (Ok(_), Ok(w)) => scanned(final(self)@, final(state)@, *final(notes)) == w,
                (Err(e), Err(f)) => e@ == f.error && scanned(final(self)@, final(state)@, *final(notes))
                    == f.at,
                _ => false,
            },
    {
        let depth: usize = state.node_count();
        self.plan_dyndeps(scan, state, notes, node, ddf, depth)
    }
}

proof fn lemma_entries_kept(v: Entries, s: StateView, t: StateView)
    requires
        entries_ok(v, s),
        s.nodes.len() <= t.nodes.len(),
        s.edges.len() == t.edges.len(),
    ensures
        entries_ok(v, t),
{
    assert forall|i: int| 0 <= i < v.len() implies (#[trigger] v[i]).0.0 < t.edges.len()
        && crate::dyndep::entry_ok(v[i].1, t) by {
        assert(crate::dyndep::entry_ok(v[i].1, s));
    }
}

/// Whether no edge runs before one that stands in front of it.
pub open spec fn is_ordered(v: Seq<ReadyEdge>) -> bool {
    forall|i: int, j: int|
        0 <= i < j < v.len() ==> !runs_before(#[trigger] v[j], #[trigger] v[i])
}

proof fn lemma_ready_place(v: Seq<ReadyEdge>, x: ReadyEdge, k: int)
    requires
        is_ordered(v),
        0 <= k <= v.len(),
        forall|i: int| 0 <= i < k ==> !runs_before(x, #[trigger] v[i]),
    ensures
        k <= ready_place(v, x, k) <= v.len(),
        forall|i: int| 0 <= i < ready_place(v, x, k) ==> !runs_before(x, #[trigger] v[i]),
        forall|i: int| ready_place(v, x, k) <= i < v.len() ==> !runs_before(#[trigger] v[i], x),
    decreases v.len() - k,
{
    if k < v.len() && !runs_before(x, v[k]) {
        lemma_ready_place(v, x, k + 1);
    } else if k < v.len() {
        assert forall|i: int| k <= i < v.len() implies !runs_before(#[trigger] v[i], x) by {
            if i > k {
                assert(!runs_before(v[i], v[k]));
            }
        }
    }
}

/// The queue stays in order: what [`Plan::find_work`] takes is never run before
/// by another edge that is ready.
pub proof fn law_ready_queue_stays_ordered(v: Seq<ReadyEdge>, x: ReadyEdge)
    requires
        is_ordered(v),
    ensures
        is_ordered(ready_with(v, x)),
        ready_with(v, x).len() == v.len() + 1,
        ready_with(v, x).contains(x),
        v.len() > 0 ==> is_ordered(v.drop_first()),
{
    lemma_ready_place(v, x, 0);
    let k = ready_place(v, x, 0);
    let w = ready_with(v, x);
    assert(w[k] == x);
    assert forall|i: int, j: int| 0 <= i < j < w.len() implies !runs_before(
        #[trigger] w[j],
        #[trigger] w[i],
    ) by {
        let a = if i < k {
            i
        } else {
            i - 1
        };
        let b = if j < k {
            j
        } else {
            j - 1
        };
        if i != k {
            assert(w[i] == v[a]);
        }
        if j != k {
            assert(w[j] == v[b]);
        }
    }
    if v.len() > 0 {
        let d = v.drop_first();
        assert forall|i: int, j: int| 0 <= i < j < d.len() implies !runs_before(
            #[trigger] d[j],
            #[trigger] d[i],
        ) by {
            assert(d[i] == v[i + 1] && d[j] == v[j + 1]);
        }
    }
}

/// The number of edges that are to run.
pub open spec fn to_run(v: Seq<Option<Want>>) -> nat
    decreases v.len(),
{
    if v.len() == 0 {
        0
    } else {
        to_run(v.drop_last()) + one_if_wanted(v.last())
    }
}

/// 1 for an edge that is to run.
pub open spec fn one_if_wanted(w: Option<Want>) -> nat {
    if w == Some(Want::ToStart) || w == Some(Want::ToFinish) {
        1
    } else {
        0
    }
}

/// Whether the plan counts exactly the edges that are to run.
pub open spec fn counts_right(p: PlanView) -> bool {
    p.wanted_edges == to_run(p.want)
}

proof fn lemma_to_run_padded(v: Seq<Option<Want>>, u: Seq<Option<Want>>)
    requires
        v.len() <= u.len(),
        forall|i: int| 0 <= i < v.len() ==> u[i] == v[i],
        forall|i: int| v.len() <= i < u.len() ==> (#[trigger] u[i]) is None,
    ensures
        to_run(u) == to_run(v),
    decreases u.len(),
{
    if u.len() > v.len() {
        lemma_to_run_padded(v, u.drop_last());
        assert(u[u.len() - 1] == u.last());
    } else {
        assert(u =~= v);
    }
}

proof fn lemma_to_run_set(v: Seq<Option<Want>>, edge: EdgeId, w: Option<Want>)
    ensures
        to_run(with_want(v, edge, w)) + one_if_wanted(want_of(v, edge)) == to_run(v)
            + one_if_wanted(w),
        to_run(v) <= v.len(),
    decreases v.len(),
{
    let u = with_want(v, edge, w);
    if v.len() > 0 {
        lemma_to_run_set(v.drop_last(), edge, w);
    }
    if edge.0 < v.len() {
        if edge.0 == v.len() - 1 {
            assert(u.drop_last() =~= v.drop_last());
        } else {
            assert(u.drop_last() =~= with_want(v.drop_last(), edge, w));
        }
    } else {
        let x = u.drop_last();
        lemma_to_run_padded(v, x);
        assert(u.last() == w);
    }
}

/// Adding targets keeps the count of the edges that are to run right.
pub proof fn law_planning_counts_what_is_to_run(
    w: Walk,
    walking: bool,
    s: StateView,
    node: NodeId,
    dependent: Option<NodeId>,
    depth: nat,
)
    requires
        counts_right(w.plan),
        s.wf(),
        s.edges.len() < i64::MAX,
        w.plan.want.len() <= s.edges.len(),
        node.0 < s.nodes.len(),
    ensures
        with_sub_target(w, walking, s, node, dependent, depth) matches Ok((x, _)) ==> counts_right(
            x.plan,
        ) && x.plan.want.len() <= s.edges.len(),
    decreases depth, 1nat, 0nat,
{
    let n = s.nodes[node.0 as int];
    assert(s.node_ok(n));
    if n.in_edge is Some && !s.edges[(n.in_edge->0).0 as int].outputs_ready {
        let edge = n.in_edge->0;
        let first = w.plan.wants(edge) is None;
        let p1 = if first {
            w.plan.with_want(edge, Some(Want::Nothing))
        } else {
            w.plan
        };
        lemma_to_run_set(w.plan.want, edge, Some(Want::Nothing));
        lemma_to_run_set(p1.want, edge, Some(Want::ToStart));
        assert(counts_right(p1));
        if !(walking && p1.wants(edge) == Some(Want::ToFinish)) {
            let p2 = if n.dirty && p1.wants(edge) == Some(Want::Nothing) {
                p1.with_want(edge, Some(Want::ToStart)).edge_wanted(s, edge)
            } else {
                p1
            };
            assert(counts_right(p2));
            let x = Walk {
                plan: p2,
                seen: if walking {
                    w.seen.update(edge.0 as int, true)
                } else {
                    w.seen
                },
            };
            if first && depth > 0 {
                assert(s.edge_ok(s.edges[edge.0 as int]));
                lemma_planning_inputs(
                    x,
                    walking,
                    s,
                    s.edges[edge.0 as int].inputs,
                    Some(node),
                    0,
                    (depth - 1) as nat,
                );
            }
        }
    }
}

proof fn lemma_planning_inputs(
    w: Walk,
    walking: bool,
    s: StateView,
    nodes: Seq<NodeId>,
    dependent: Option<NodeId>,
    k: int,
    depth: nat,
)
    requires
        counts_right(w.plan),
        s.wf(),
        s.edges.len() < i64::MAX,
        w.plan.want.len() <= s.edges.len(),
        nodes_below(nodes, s.nodes.len()),
        0 <= k,
    ensures
        with_sub_targets(w, walking, s, nodes, dependent, k, depth) matches Ok(x) ==> counts_right(
            x.plan,
        ) && x.plan.want.len() <= s.edges.len(),
    decreases depth, 2nat, nodes.len() - k,
{
    if k < nodes.len() {
        law_planning_counts_what_is_to_run(w, walking, s, nodes[k], dependent, depth);
        match with_sub_target(w, walking, s, nodes[k], dependent, depth) {
            Err(_) => {},
            Ok((x, _)) => {
                lemma_planning_inputs(x, walking, s, nodes, dependent, k + 1, depth);
            },
        }
    }
}

proof fn lemma_made_ready_wants(w: Work, pool: PoolId, edges: Seq<DelayedEdge>, k: int)
    ensures
        made_ready(w, pool, edges, k).plan.want == w.plan.want,
        made_ready(w, pool, edges, k).plan.wanted_edges == w.plan.wanted_edges,
    decreases edges.len() - k,
{
    if 0 <= k < edges.len() {
        lemma_made_ready_wants(
            Work {
                plan: w.plan.with_ready(w.state, edges[k].edge),
                state: w.state.pool_taken(pool),
                ..w
            },
            pool,
            edges,
            k + 1,
        );
    }
}

proof fn lemma_retrieved_wants(w: Work, pool: PoolId)
    ensures
        retrieved(w, pool).plan.want == w.plan.want,
        retrieved(w, pool).plan.wanted_edges == w.plan.wanted_edges,
{
    reveal(retrieved);
    let edges = promoted(w.plan, w.state, pool);
    let x = Work {
        plan: PlanView {
            delayed: without_promoted(w.plan.delayed, w.state, pool, edges, edges.len() as int),
            ..w.plan
        },
        ..w
    };
    lemma_made_ready_wants(x, pool, edges, 0);
}

proof fn lemma_scheduled_counts(w: Work, edge: EdgeId)
    requires
        counts_right(w.plan),
        w.plan.wants(edge) == Some(Want::ToStart) || w.plan.wants(edge) == Some(Want::ToFinish),
    ensures
        counts_right(scheduled(w, edge).plan),
{
    let pool = w.state.edges[edge.0 as int].pool;
    let p = w.plan.with_want(edge, Some(Want::ToFinish));
    lemma_to_run_set(w.plan.want, edge, Some(Want::ToFinish));
    lemma_retrieved_wants(Work { plan: p.with_delayed(w.state, edge), ..w }, pool);
}

proof fn lemma_ended_counts(w: Work, edge: EdgeId, result: EdgeResult, depth: nat)
    requires
        counts_right(w.plan),
        w.plan.wants(edge) is Some,
    ensures
        counts_right(edge_ended(w, edge, result, depth).plan),
    decreases depth, 0nat, 0nat,
{
    if depth > 0 {
        let pool = w.state.edges[edge.0 as int].pool;
        let wanted = w.plan.wants(edge) != Some(Want::Nothing);
        let freed = if wanted {
            Work { state: w.state.pool_freed(pool), ..w }
        } else {
            w
        };
        lemma_retrieved_wants(freed, pool);
        let x = retrieved(freed, pool);
        if result == EdgeResult::Succeeded {
            lemma_to_run_set(x.plan.want, edge, None);
            assert(one_if_wanted(w.plan.wants(edge)) == if wanted {
                1nat
            } else {
                0nat
            }) by {
                match w.plan.wants(edge)->0 {
                    Want::Nothing => {},
                    Want::ToStart => {},
                    Want::ToFinish => {},
                }
            }
            let y = Work {
                plan: PlanView {
                    wanted_edges: if wanted {
                        x.plan.wanted_edges.wrapping_sub(1)
                    } else {
                        x.plan.wanted_edges
                    },
                    ..x.plan.with_want(edge, None)
                },
                state: with_outputs_ready(x.state, edge),
                ..x
            };
            lemma_nodes_counts(y, y.state.edges[edge.0 as int].outputs, 0, (depth - 1) as nat);
        }
    }
}

proof fn lemma_nodes_counts(w: Work, nodes: Seq<NodeId>, k: int, depth: nat)
    requires
        counts_right(w.plan),
    ensures
        counts_right(nodes_ended(w, nodes, k, depth).plan),
    decreases depth, 3nat, nodes.len() - k,
{
    if 0 <= k < nodes.len() {
        let n = w.state.nodes[nodes[k].0 as int];
        let x = if n.dyndep_pending {
            Work { pending: w.pending.push(nodes[k]), ..w }
        } else {
            edges_maybe_ready(w, n.out_edges, 0, depth)
        };
        if !n.dyndep_pending {
            lemma_edges_counts(w, n.out_edges, 0, depth);
        }
        lemma_nodes_counts(x, nodes, k + 1, depth);
    }
}

proof fn lemma_edges_counts(w: Work, edges: Seq<EdgeId>, k: int, depth: nat)
    requires
        counts_right(w.plan),
    ensures
        counts_right(edges_maybe_ready(w, edges, k, depth).plan),
    decreases depth, 2nat, edges.len() - k,
{
    if 0 <= k < edges.len() {
        lemma_maybe_counts(w, edges[k], depth);
        lemma_edges_counts(maybe_ready(w, edges[k], depth), edges, k + 1, depth);
    }
}

proof fn lemma_maybe_counts(w: Work, edge: EdgeId, depth: nat)
    requires
        counts_right(w.plan),
    ensures
        counts_right(maybe_ready(w, edge, depth).plan),
    decreases depth, 1nat, 0nat,
{
    if w.plan.wants(edge) is Some && w.state.inputs_ready(edge.0 as int) {
        if w.plan.wants(edge) == Some(Want::Nothing) {
            lemma_ended_counts(w, edge, EdgeResult::Succeeded, depth);
        } else {
            assert(one_if_wanted(w.plan.wants(edge)) == 1) by {
                match w.plan.wants(edge)->0 {
                    Want::Nothing => {},
                    Want::ToStart => {},
                    Want::ToFinish => {},
                }
            }
            lemma_scheduled_counts(w, edge);
        }
    }
}

proof fn lemma_initial_counts(w: Work, queued: Seq<bool>, k: int, n: int)
    requires
        counts_right(w.plan),
        n <= usize::MAX,
    ensures
        counts_right(initial_edges(w, queued, k, n).0.plan),
    decreases n - k,
{
    if 0 <= k < n {
        let e = EdgeId(k as usize);
        let pool = w.state.edges[k].pool;
        if w.plan.wants(e) != Some(Want::ToStart) || !w.state.inputs_ready(k) {
            lemma_initial_counts(w, queued, k + 1, n);
        } else if w.state.pools[pool.0 as int].depth != 0 {
            lemma_to_run_set(w.plan.want, e, Some(Want::ToFinish));
            lemma_initial_counts(
                Work {
                    plan: w.plan.with_want(e, Some(Want::ToFinish)).with_delayed(w.state, e),
                    ..w
                },
                queued.update(pool.0 as int, true),
                k + 1,
                n,
            );
        } else {
            lemma_scheduled_counts(w, e);
            lemma_initial_counts(scheduled(w, e), queued, k + 1, n);
        }
    }
}

proof fn lemma_pools_counts(w: Work, queued: Seq<bool>, k: int)
    requires
        counts_right(w.plan),
    ensures
        counts_right(pools_retrieved(w, queued, k).plan),
    decreases queued.len() - k,
{
    if 0 <= k < queued.len() {
        let pool = PoolId(k as usize);
        lemma_retrieved_wants(w, pool);
        if queued[k] {
            lemma_pools_counts(retrieved(w, pool), queued, k + 1);
        } else {
            lemma_pools_counts(w, queued, k + 1);
        }
    }
}

/// Filling the queue of a plan, and noting that an edge of the plan has ended,
/// keep the count of the edges that are to run right, so that a build is not
/// over while there is one.
pub proof fn law_running_counts_what_is_to_run(w: Work, edge: EdgeId, result: EdgeResult, depth: nat)
    requires
        counts_right(w.plan),
        w.plan.wants(edge) is Some,
        w.plan.want.len() <= usize::MAX,
    ensures
        counts_right(initially_scheduled(w).plan),
        counts_right(edge_ended(w, edge, result, depth).plan),
{
    lemma_ended_counts(w, edge, result, depth);
    let none = Seq::new(w.state.pools.len(), |i: int| false);
    let n = w.plan.want.len() as int;
    lemma_initial_counts(w, none, 0, n);
    let (x, queued) = initial_edges(w, none, 0, n);
    lemma_pools_counts(x, queued, 0);
}

/// Whether a plan and its graph have only lost work: no node has become dirty,
/// and no edge is to run that was not.
pub open spec fn only_less(w: Scanned, x: Scanned) -> bool {
    &&& forall|n: int|
        0 <= n < w.state.nodes.len() && (#[trigger] x.state.nodes[n]).dirty ==> w.state.nodes[n].dirty
    &&& forall|e: EdgeId|
        one_if_wanted(#[trigger] x.plan.wants(e)) <= one_if_wanted(w.plan.wants(e))
}

/// Whether the graph has no cycles, as ranks of its edges show: what uses an
/// output of an edge ranks above it.
pub open spec fn users_rank_higher(s: StateView, rank: Seq<nat>) -> bool {
    &&& rank.len() == s.edges.len()
    &&& forall|n: int, k: int|
        #![trigger s.nodes[n].out_edges[k]]
        0 <= n < s.nodes.len() && 0 <= k < s.nodes[n].out_edges.len() && s.nodes[n].in_edge is Some
            ==> rank[(s.nodes[n].in_edge->0).0 as int] < rank[s.nodes[n].out_edges[k].0 as int]
}

spec fn linked_as(s: StateView, t: StateView) -> bool {
    &&& t.edges == s.edges
    &&& t.nodes.len() == s.nodes.len()
    &&& forall|n: int|
        0 <= n < s.nodes.len() ==> (#[trigger] t.nodes[n]).in_edge == s.nodes[n].in_edge
            && t.nodes[n].out_edges == s.nodes[n].out_edges
}

spec fn spared(s: StateView, rank: Seq<nat>, low: nat, w: Scanned, x: Scanned) -> bool {
    &&& linked_as(s, x.state)
    &&& only_less(w, x)
    &&& counts_right(x.plan)
    &&& forall|e: EdgeId|
        e.0 < rank.len() && rank[e.0 as int] < low ==> #[trigger] x.plan.wants(e) == w.plan.wants(e)
}

proof fn lemma_spared_twice(
    s: StateView,
    rank: Seq<nat>,
    low: nat,
    w: Scanned,
    x: Scanned,
    y: Scanned,
)
    requires
        linked_as(s, w.state),
        spared(s, rank, low, w, x),
        spared(s, rank, low, x, y),
    ensures
        spared(s, rank, low, w, y),
{
    assert forall|n: int|
        0 <= n < w.state.nodes.len() && (#[trigger] y.state.nodes[n]).dirty implies w.state.nodes[n].dirty by {
        assert(x.state.nodes[n].dirty);
    }
    assert forall|e: EdgeId| one_if_wanted(#[trigger] y.plan.wants(e)) <= one_if_wanted(
        w.plan.wants(e),
    ) by {
        assert(one_if_wanted(x.plan.wants(e)) <= one_if_wanted(w.plan.wants(e)));
    }
    assert forall|e: EdgeId|
        e.0 < rank.len() && rank[e.0 as int] < low implies #[trigger] y.plan.wants(e)
        == w.plan.wants(e) by {
        assert(x.plan.wants(e) == w.plan.wants(e));
    }
}

spec fn node_held(a: NodeView, b: NodeView) -> bool {
    b.dirty == a.dirty && b.in_edge == a.in_edge && b.out_edges == a.out_edges
}

proof fn lemma_output_checked_nodes(
    log: Option<crate::build_log::Entries>,
    p: Progress,
    edge: EdgeId,
    newest: Option<NodeId>,
    command: Seq<char>,
    output: NodeId,
)
    requires
        output.0 < p.state.nodes.len(),
    ensures
        ({
            let q = output_checked(log, p, edge, newest, command, output).0;
            &&& q.state.edges == p.state.edges
            &&& q.state.nodes.len() == p.state.nodes.len()
            &&& forall|n: int|
                0 <= n < p.state.nodes.len() ==> node_held(
                    p.state.nodes[n],
                    #[trigger] q.state.nodes[n],
                )
        }),
{
    reveal(output_checked);
    let q = output_checked(log, p, edge, newest, command, output).0;
    assert(q.state == p.state || exists|v: NodeView|
        node_held(p.state.nodes[output.0 as int], v) && q.state == #[trigger] p.state.with_node(
            output.0 as int,
            v,
        )) by {
        if let Some(m) = newest {
            let v = p.state.nodes[output.0 as int].raised(p.state.nodes[m.0 as int].mtime);
            assert(node_held(p.state.nodes[output.0 as int], v));
            let t = p.state.with_node(output.0 as int, v);
        }
    }
}

proof fn lemma_checked_nodes(
    log: Option<crate::build_log::Entries>,
    p: Progress,
    edge: EdgeId,
    newest: Option<NodeId>,
    command: Seq<char>,
    outputs: Seq<NodeId>,
    k: int,
)
    requires
        nodes_below(outputs, p.state.nodes.len()),
    ensures
        ({
            let q = outputs_checked(log, p, edge, newest, command, outputs, k).0;
            &&& q.state.edges == p.state.edges
            &&& q.state.nodes.len() == p.state.nodes.len()
            &&& forall|n: int|
                0 <= n < p.state.nodes.len() ==> node_held(
                    p.state.nodes[n],
                    #[trigger] q.state.nodes[n],
                )
        }),
    decreases outputs.len() - k,
{
    if 0 <= k < outputs.len() {
        let (q, dirty) = output_checked(log, p, edge, newest, command, outputs[k]);
        lemma_output_checked_nodes(log, p, edge, newest, command, outputs[k]);
        if !dirty {
            lemma_checked_nodes(log, q, edge, newest, command, outputs, k + 1);
            let r = outputs_checked(log, q, edge, newest, command, outputs, k + 1).0;
            assert forall|n: int| 0 <= n < p.state.nodes.len() implies node_held(
                p.state.nodes[n],
                #[trigger] r.state.nodes[n],
            ) by {
                assert(node_held(p.state.nodes[n], q.state.nodes[n]));
            }
        }
    }
}

proof fn lemma_dropped_counts(s: StateView, rank: Seq<nat>, low: nat, w: Scanned, edge: EdgeId)
    requires
        linked_as(s, w.state),
        counts_right(w.plan),
        edge.0 < rank.len(),
        low <= rank[edge.0 as int],
        one_if_wanted(w.plan.wants(edge)) == 1,
    ensures
        spared(s, rank, low, w, Scanned { plan: edge_dropped(w.plan, w.state, edge), ..w }),
{
    let q = edge_dropped(w.plan, w.state, edge);
    lemma_to_run_set(w.plan.want, edge, Some(Want::Nothing));
    assert(q.want == with_want(w.plan.want, edge, Some(Want::Nothing)));
    assert forall|e: EdgeId| one_if_wanted(#[trigger] q.wants(e)) <= one_if_wanted(
        w.plan.wants(e),
    ) by {
        if e.0 != edge.0 {
            assert(q.wants(e) == w.plan.wants(e));
        }
    }
    assert forall|e: EdgeId|
        e.0 < rank.len() && rank[e.0 as int] < low implies #[trigger] q.wants(e) == w.plan.wants(
        e,
    ) by {
        assert(e.0 != edge.0);
    }
}

/// Finding that an output has not changed only ever takes work away, and keeps
/// the count of the edges that are to run right, wherever the graph has no
/// cycle.
pub proof fn law_unchanged_outputs_spare_work(
    log: Option<crate::build_log::Entries>,
    w: Scanned,
    rank: Seq<nat>,
    node: NodeId,
    depth: nat,
)
    requires
        w.state.wf(),
        users_rank_higher(w.state, rank),
        counts_right(w.plan),
        node.0 < w.state.nodes.len(),
    ensures
        cleaned(log, w, node, depth) matches Ok(x) ==> only_less(w, x) && counts_right(x.plan)
            && !x.state.nodes[node.0 as int].dirty,
{
    assert(linked_as(w.state, w.state));
    lemma_node_spared(log, w.state, rank, 0, w, node, depth);
}

proof fn lemma_node_spared(
    log: Option<crate::build_log::Entries>,
    s: StateView,
    rank: Seq<nat>,
    low: nat,
    w: Scanned,
    node: NodeId,
    depth: nat,
)
    requires
        s.wf(),
        users_rank_higher(s, rank),
        linked_as(s, w.state),
        counts_right(w.plan),
        node.0 < s.nodes.len(),
        forall|k: int|
            0 <= k < s.nodes[node.0 as int].out_edges.len() ==> low <= rank[(
            #[trigger] s.nodes[node.0 as int].out_edges[k]).0 as int],
    ensures
        cleaned(log, w, node, depth) matches Ok(x) ==> spared(s, rank, low, w, x)
            && !x.state.nodes[node.0 as int].dirty,
    decreases depth, 1nat, 0nat,
{
    if depth > 0 {
        let i = node.0 as int;
        let n = w.state.nodes[i];
        let x = Scanned { state: w.state.with_node(i, NodeView { dirty: false, ..n }), ..w };
        assert(spared(s, rank, low, w, x));
        assert(s.node_ok(s.nodes[i]));
        lemma_edges_spared(log, s, rank, low, x, n.out_edges, 0, (depth - 1) as nat);
        if let Ok(y) = edges_cleaned(log, x, n.out_edges, 0, (depth - 1) as nat) {
            lemma_spared_twice(s, rank, low, w, x, y);
            assert(!x.state.nodes[i].dirty);
            assert(!y.state.nodes[i].dirty);
        }
    }
}

proof fn lemma_nodes_spared(
    log: Option<crate::build_log::Entries>,
    s: StateView,
    rank: Seq<nat>,
    low: nat,
    w: Scanned,
    nodes: Seq<NodeId>,
    k: int,
    depth: nat,
)
    requires
        s.wf(),
        users_rank_higher(s, rank),
        linked_as(s, w.state),
        counts_right(w.plan),
        nodes_below(nodes, s.nodes.len()),
        forall|j: int, i: int|
            #![trigger s.nodes[nodes[j].0 as int].out_edges[i]]
            0 <= j < nodes.len() && 0 <= i < s.nodes[nodes[j].0 as int].out_edges.len() ==> low
                <= rank[s.nodes[nodes[j].0 as int].out_edges[i].0 as int],
    ensures
        nodes_cleaned(log, w, nodes, k, depth) matches Ok(x) ==> spared(s, rank, low, w, x),
    decreases depth, 2nat, nodes.len() - k,
{
    if 0 <= k < nodes.len() {
        lemma_node_spared(log, s, rank, low, w, nodes[k], depth);
        if let Ok(x) = cleaned(log, w, nodes[k], depth) {
            lemma_nodes_spared(log, s, rank, low, x, nodes, k + 1, depth);
            if let Ok(y) = nodes_cleaned(log, x, nodes, k + 1, depth) {
                lemma_spared_twice(s, rank, low, w, x, y);
            }
        }
    }
}

proof fn lemma_edges_spared(
    log: Option<crate::build_log::Entries>,
    s: StateView,
    rank: Seq<nat>,
    low: nat,
    w: Scanned,
    edges: Seq<EdgeId>,
    k: int,
    depth: nat,
)
    requires
        s.wf(),
        users_rank_higher(s, rank),
        linked_as(s, w.state),
        counts_right(w.plan),
        edges_below(edges, s.edges.len()),
        forall|j: int| 0 <= j < edges.len() ==> low <= rank[(#[trigger] edges[j]).0 as int],
    ensures
        edges_cleaned(log, w, edges, k, depth) matches Ok(x) ==> spared(s, rank, low, w, x),
    decreases depth, 3nat, edges.len() - k,
{
    if 0 <= k < edges.len() {
        let e = edges[k];
        let edge = w.state.edges[e.0 as int];
        if !may_be_clean(w, e) {
            lemma_edges_spared(log, s, rank, low, w, edges, k + 1, depth);
        } else {
            let newest = newest_of(w.state, solid_inputs(edge), 0, None);
            let (p, dirty) = edge_checked(log, scan_start(w), e, newest);
            let x = Scanned { state: p.state, notes: p.notes, ..w };
            assert(s.edge_ok(s.edges[e.0 as int]));
            lemma_checked_nodes(
                log,
                scan_start(w),
                e,
                newest,
                w.state.hashed_command(e.0 as int),
                edge.outputs,
                0,
            );
            assert(spared(s, rank, low, w, x)) by {
                assert forall|n: int| 0 <= n < s.nodes.len() implies (
                #[trigger] x.state.nodes[n]).in_edge == s.nodes[n].in_edge
                    && x.state.nodes[n].out_edges == s.nodes[n].out_edges by {
                    assert(node_held(w.state.nodes[n], x.state.nodes[n]));
                }
                assert forall|n: int|
                    0 <= n < w.state.nodes.len() && (#[trigger] x.state.nodes[n]).dirty implies w.state.nodes[n].dirty by {
                    assert(node_held(w.state.nodes[n], x.state.nodes[n]));
                }
            }
            if dirty {
                lemma_edges_spared(log, s, rank, low, x, edges, k + 1, depth);
                if let Ok(y) = edges_cleaned(log, x, edges, k + 1, depth) {
                    lemma_spared_twice(s, rank, low, w, x, y);
                }
            } else {
                let above = rank[e.0 as int] + 1;
                let outs = edge.outputs;
                assert(s.outputs_linked(e.0 as int));
                assert forall|j: int, i: int|
                    #![trigger s.nodes[outs[j].0 as int].out_edges[i]]
                    0 <= j < outs.len() && 0 <= i < s.nodes[outs[j].0 as int].out_edges.len() implies above
                    <= rank[s.nodes[outs[j].0 as int].out_edges[i].0 as int] by {
                    assert(s.edges[e.0 as int].outputs[j] == outs[j]);
                    assert(s.nodes[outs[j].0 as int].in_edge == Some(EdgeId(e.0 as int as usize)));
                }
                lemma_nodes_spared(log, s, rank, above, x, outs, 0, depth);
                if let Ok(y) = nodes_cleaned(log, x, outs, 0, depth) {
                    assert(spared(s, rank, low, x, y)) by {
                        assert forall|f: EdgeId|
                            f.0 < rank.len() && rank[f.0 as int] < low implies #[trigger] y.plan.wants(
                            f,
                        ) == x.plan.wants(f) by {
                            assert(rank[f.0 as int] < above);
                        }
                    }
                    lemma_spared_twice(s, rank, low, w, x, y);
                    assert(y.plan.wants(e) == x.plan.wants(e));
                    assert(one_if_wanted(w.plan.wants(e)) == 1) by {
                        match w.plan.wants(e)->0 {
                            Want::Nothing => {},
                            Want::ToStart => {},
                            Want::ToFinish => {},
                        }
                    }
                    let z = Scanned { plan: edge_dropped(y.plan, y.state, e), ..y };
                    lemma_dropped_counts(s, rank, low, y, e);
                    lemma_spared_twice(s, rank, low, w, y, z);
                    lemma_edges_spared(log, s, rank, low, z, edges, k + 1, depth);
                    if let Ok(u) = edges_cleaned(log, z, edges, k + 1, depth) {
                        lemma_spared_twice(s, rank, low, w, z, u);
                    }
                }
            }
        }
    }
}

/// Whether no edge is queued before all of its inputs are ready.
pub open spec fn inputs_first(p: PlanView, s: StateView) -> bool {
    &&& forall|i: int| 0 <= i < p.ready.len() ==> s.inputs_ready((#[trigger] p.ready[i]).edge.0 as int)
    &&& forall|i: int|
        0 <= i < p.delayed.len() ==> s.inputs_ready((#[trigger] p.delayed[i]).edge.0 as int)
}

spec fn ready_stays(s: StateView, t: StateView) -> bool {
    &&& same_graph(s, t)
    &&& forall|i: int|
        0 <= i < s.edges.len() && s.edges[i].outputs_ready ==> (#[trigger] t.edges[i]).outputs_ready
}

spec fn in_order(s: StateView, w: Work) -> bool {
    &&& ready_stays(s, w.state)
    &&& w.plan.fits(w.state)
    &&& inputs_first(w.plan, w.state)
}

proof fn lemma_ready_stays_twice(s: StateView, t: StateView, u: StateView)
    requires
        ready_stays(s, t),
        ready_stays(t, u),
    ensures
        ready_stays(s, u),
{
    lemma_same_graph_twice(s, t, u);
    assert forall|i: int| 0 <= i < s.edges.len() && s.edges[i].outputs_ready implies (
    #[trigger] u.edges[i]).outputs_ready by {
        assert(t.edges[i].outputs_ready);
    }
}

proof fn lemma_same_graph_wf(s: StateView, t: StateView)
    requires
        s.wf(),
        same_graph(s, t),
        t.pools.len() == s.pools.len(),
    ensures
        forall|i: int| 0 <= i < t.nodes.len() ==> t.node_ok(#[trigger] t.nodes[i]),
        forall|i: int| 0 <= i < t.edges.len() ==> t.edge_ok(#[trigger] t.edges[i]),
{
    assert forall|i: int| 0 <= i < t.nodes.len() implies t.node_ok(#[trigger] t.nodes[i]) by {
        assert(s.node_ok(s.nodes[i]));
    }
    assert forall|i: int| 0 <= i < t.edges.len() implies t.edge_ok(#[trigger] t.edges[i]) by {
        assert(s.edge_ok(s.edges[i]));
    }
}

proof fn lemma_inputs_first_later(s: StateView, w: Work, t: StateView)
    requires
        s.wf(),
        in_order(s, w),
        ready_stays(w.state, t),
    ensures
        in_order(s, Work { state: t, ..w }),
{
    lemma_ready_stays_twice(s, w.state, t);
    lemma_fits_same_graph(w.plan, w.state, t);
    lemma_same_graph_wf(s, w.state);
    let p = w.plan;
    assert forall|i: int| 0 <= i < p.ready.len() implies t.inputs_ready(
        (#[trigger] p.ready[i]).edge.0 as int,
    ) by {
        lemma_ready_inputs(w.state, t, p.ready[i].edge.0 as int);
    }
    assert forall|i: int| 0 <= i < p.delayed.len() implies t.inputs_ready(
        (#[trigger] p.delayed[i]).edge.0 as int,
    ) by {
        lemma_ready_inputs(w.state, t, p.delayed[i].edge.0 as int);
    }
}

proof fn lemma_ready_inputs(s: StateView, t: StateView, edge: int)
    requires
        forall|i: int| 0 <= i < s.nodes.len() ==> s.node_ok(#[trigger] s.nodes[i]),
        forall|i: int| 0 <= i < s.edges.len() ==> s.edge_ok(#[trigger] s.edges[i]),
        ready_stays(s, t),
        0 <= edge < s.edges.len(),
        s.inputs_ready(edge),
    ensures
        t.inputs_ready(edge),
{
    assert(t.edges[edge].inputs == s.edges[edge].inputs);
    assert(s.edge_ok(s.edges[edge]));
    assert forall|k: int| 0 <= k < t.edges[edge].inputs.len() implies match t.nodes[(
    #[trigger] t.edges[edge].inputs[k]).0 as int].in_edge {
        Some(e) => t.edges[e.0 as int].outputs_ready,
        None => true,
    } by {
        let n = s.edges[edge].inputs[k].0 as int;
        assert(s.node_ok(s.nodes[n]));
        if s.nodes[n].in_edge is Some {
            let e = (s.nodes[n].in_edge->0).0 as int;
            assert(s.edges[e].outputs_ready);
            assert(t.edges[e].outputs_ready);
        }
    }
}

proof fn lemma_ready_place_bounds(v: Seq<ReadyEdge>, x: ReadyEdge, k: int)
    requires
        0 <= k <= v.len(),
    ensures
        k <= ready_place(v, x, k) <= v.len(),
    decreases v.len() - k,
{
    if k < v.len() && !runs_before(x, v[k]) {
        lemma_ready_place_bounds(v, x, k + 1);
    }
}

proof fn lemma_delayed_place_bounds(v: Seq<DelayedEdge>, x: DelayedEdge, k: int)
    requires
        0 <= k <= v.len(),
    ensures
        k <= delayed_place(v, x, k) <= v.len(),
    decreases v.len() - k,
{
    if k < v.len() && waits_before(v[k], x) {
        lemma_delayed_place_bounds(v, x, k + 1);
    }
}

proof fn lemma_queued_in_order(s: StateView, w: Work, edge: EdgeId)
    requires
        s.wf(),
        in_order(s, w),
        edge.0 < s.edges.len(),
        w.state.inputs_ready(edge.0 as int),
    ensures
        in_order(s, Work { plan: w.plan.with_ready(w.state, edge), ..w }),
        in_order(s, Work { plan: w.plan.with_delayed(w.state, edge), ..w }),
{
    let p = w.plan;
    lemma_same_graph_wf(s, w.state);
    assert(w.state.edge_ok(w.state.edges[edge.0 as int]));
    let x = ReadyEdge { weight: w.state.edges[edge.0 as int].critical_path_weight, edge };
    lemma_ready_place_bounds(p.ready, x, 0);
    let k = ready_place(p.ready, x, 0);
    let q = p.with_ready(w.state, edge);
    assert forall|i: int| 0 <= i < q.ready.len() implies w.state.inputs_ready(
        (#[trigger] q.ready[i]).edge.0 as int,
    ) && q.ready[i].edge.0 < w.state.edges.len() by {
        if i < k {
            assert(q.ready[i] == p.ready[i]);
        } else if i > k {
            assert(q.ready[i] == p.ready[i - 1]);
        }
    }
    assert(q.delayed == p.delayed && q.targets == p.targets && q.want == p.want);
    let y = delayed_edge(w.state, edge);
    lemma_delayed_place_bounds(p.delayed, y, 0);
    let j = delayed_place(p.delayed, y, 0);
    let u = p.with_delayed(w.state, edge);
    assert forall|i: int| 0 <= i < u.delayed.len() implies w.state.inputs_ready(
        (#[trigger] u.delayed[i]).edge.0 as int,
    ) && u.delayed[i].edge.0 < w.state.edges.len() && u.delayed[i].pool.0 < w.state.pools.len() by {
        if u.delayed != p.delayed {
            if i < j {
                assert(u.delayed[i] == p.delayed[i]);
            } else if i > j {
                assert(u.delayed[i] == p.delayed[i - 1]);
            }
        }
    }
    assert(u.ready == p.ready && u.targets == p.targets && u.want == p.want);
}

proof fn lemma_pool_use(s: StateView, pool: PoolId)
    requires
        pool.0 < s.pools.len(),
    ensures
        ready_stays(s, s.pool_taken(pool)),
        ready_stays(s, s.pool_freed(pool)),
{
}

proof fn lemma_without_promoted(
    v: Seq<DelayedEdge>,
    s: StateView,
    pool: PoolId,
    edges: Seq<DelayedEdge>,
    k: int,
    i: int,
)
    requires
        0 <= i < without_promoted(v, s, pool, edges, k).len(),
    ensures
        v.contains(without_promoted(v, s, pool, edges, k)[i]),
    decreases k,
{
    if k > 0 {
        let u = without_promoted(v, s, pool, edges, k - 1);
        let e = edges[k - 1].edge;
        let key = DelayedEdge { pool, weight: s.edges[e.0 as int].critical_path_weight, edge: e };
        lemma_filter_member(u, other_than(key), i);
        let j = choose|j: int| 0 <= j < u.len() && u[j] == without_promoted(v, s, pool, edges, k)[i];
        lemma_without_promoted(v, s, pool, edges, k - 1, j);
    } else {
        assert(v[i] == without_promoted(v, s, pool, edges, k)[i]);
    }
}

proof fn lemma_made_ready_in_order(
    s: StateView,
    w: Work,
    pool: PoolId,
    edges: Seq<DelayedEdge>,
    k: int,
)
    requires
        s.wf(),
        in_order(s, w),
        pool.0 < s.pools.len(),
        0 <= k,
        forall|i: int|
            0 <= i < edges.len() ==> (#[trigger] edges[i]).edge.0 < s.edges.len()
                && w.state.inputs_ready(edges[i].edge.0 as int),
    ensures
        in_order(s, made_ready(w, pool, edges, k)),
        ready_stays(w.state, made_ready(w, pool, edges, k).state),
    decreases edges.len() - k,
{
    if k < edges.len() {
        let e = edges[k].edge;
        lemma_queued_in_order(s, w, e);
        let x = Work { plan: w.plan.with_ready(w.state, e), ..w };
        lemma_pool_use(w.state, pool);
        let t = w.state.pool_taken(pool);
        lemma_inputs_first_later(s, x, t);
        lemma_same_graph_wf(s, w.state);
        let y = Work { state: t, ..x };
        assert forall|i: int| 0 <= i < edges.len() implies (#[trigger] edges[i]).edge.0
            < s.edges.len() && t.inputs_ready(edges[i].edge.0 as int) by {
            lemma_ready_inputs(w.state, t, edges[i].edge.0 as int);
        }
        lemma_made_ready_in_order(s, y, pool, edges, k + 1);
        lemma_ready_stays_twice(w.state, t, made_ready(y, pool, edges, k + 1).state);
    }
}

proof fn lemma_retrieved_in_order(s: StateView, w: Work, pool: PoolId)
    requires
        s.wf(),
        in_order(s, w),
        pool.0 < s.pools.len(),
    ensures
        in_order(s, retrieved(w, pool)),
        ready_stays(w.state, retrieved(w, pool).state),
{
    reveal(retrieved);
    let p = w.plan;
    let edges = promoted(p, w.state, pool);
    let d = without_promoted(p.delayed, w.state, pool, edges, edges.len() as int);
    let q = PlanView { delayed: d, ..p };
    assert forall|i: int| 0 <= i < edges.len() implies (#[trigger] edges[i]).edge.0 < s.edges.len()
        && w.state.inputs_ready(edges[i].edge.0 as int) by {
        lemma_filter_member(p.delayed, of_pool(pool), i);
        let k = choose|k: int| 0 <= k < p.delayed.len() && p.delayed[k] == edges[i];
        assert(p.delayed[k] == edges[i]);
    }
    assert forall|i: int| 0 <= i < q.delayed.len() implies w.state.inputs_ready(
        (#[trigger] q.delayed[i]).edge.0 as int,
    ) && q.delayed[i].edge.0 < w.state.edges.len() && q.delayed[i].pool.0 < w.state.pools.len() by {
        lemma_without_promoted(p.delayed, w.state, pool, edges, edges.len() as int, i);
        let k = choose|k: int| 0 <= k < p.delayed.len() && p.delayed[k] == q.delayed[i];
        assert(p.delayed[k] == q.delayed[i]);
    }
    assert(q.ready == p.ready && q.targets == p.targets && q.want == p.want);
    lemma_made_ready_in_order(s, Work { plan: q, ..w }, pool, edges, 0);
}

proof fn lemma_wanted_in_order(s: StateView, w: Work, edge: EdgeId, v: Option<Want>)
    requires
        in_order(s, w),
        edge.0 < s.edges.len(),
    ensures
        in_order(s, Work { plan: w.plan.with_want(edge, v), ..w }),
{
    let q = w.plan.with_want(edge, v);
    assert(q.ready == w.plan.ready && q.delayed == w.plan.delayed && q.targets == w.plan.targets);
}

proof fn lemma_scheduled_in_order(s: StateView, w: Work, edge: EdgeId)
    requires
        s.wf(),
        in_order(s, w),
        edge.0 < s.edges.len(),
        w.state.inputs_ready(edge.0 as int),
    ensures
        in_order(s, scheduled(w, edge)),
{
    lemma_same_graph_wf(s, w.state);
    assert(w.state.edge_ok(w.state.edges[edge.0 as int]));
    let pool = w.state.edges[edge.0 as int].pool;
    lemma_wanted_in_order(s, w, edge, Some(Want::ToFinish));
    let x = Work { plan: w.plan.with_want(edge, Some(Want::ToFinish)), ..w };
    lemma_queued_in_order(s, x, edge);
    lemma_pool_use(w.state, pool);
    lemma_inputs_first_later(
        s,
        Work { plan: x.plan.with_ready(w.state, edge), ..w },
        w.state.pool_taken(pool),
    );
    lemma_retrieved_in_order(s, Work { plan: x.plan.with_delayed(w.state, edge), ..w }, pool);
}

proof fn lemma_ended_in_order(s: StateView, w: Work, edge: EdgeId, result: EdgeResult, depth: nat)
    requires
        s.wf(),
        in_order(s, w),
        edge.0 < s.edges.len(),
    ensures
        in_order(s, edge_ended(w, edge, result, depth)),
    decreases depth, 0nat, 0nat,
{
    if depth > 0 {
        lemma_same_graph_wf(s, w.state);
        assert(w.state.edge_ok(w.state.edges[edge.0 as int]));
        let pool = w.state.edges[edge.0 as int].pool;
        let wanted = w.plan.wants(edge) != Some(Want::Nothing);
        lemma_pool_use(w.state, pool);
        lemma_inputs_first_later(s, w, w.state.pool_freed(pool));
        let freed = if wanted {
            Work { state: w.state.pool_freed(pool), ..w }
        } else {
            w
        };
        lemma_retrieved_in_order(s, freed, pool);
        let x = retrieved(freed, pool);
        if result == EdgeResult::Succeeded {
            lemma_wanted_in_order(s, x, edge, None);
            let plan = PlanView {
                wanted_edges: if wanted {
                    x.plan.wanted_edges.wrapping_sub(1)
                } else {
                    x.plan.wanted_edges
                },
                ..x.plan.with_want(edge, None)
            };
            let mid = Work { plan, ..x };
            assert(in_order(s, mid)) by {
                let q = x.plan.with_want(edge, None);
                assert(plan.ready == q.ready && plan.delayed == q.delayed && plan.targets
                    == q.targets && plan.want == q.want);
            }
            let t = with_outputs_ready(x.state, edge);
            assert(ready_stays(x.state, t));
            lemma_inputs_first_later(s, mid, t);
            let y = Work { state: t, ..mid };
            lemma_same_graph_wf(s, t);
            assert(t.edge_ok(t.edges[edge.0 as int]));
            lemma_nodes_in_order(s, y, t.edges[edge.0 as int].outputs, 0, (depth - 1) as nat);
        }
    }
}

proof fn lemma_nodes_in_order(s: StateView, w: Work, nodes: Seq<NodeId>, k: int, depth: nat)
    requires
        s.wf(),
        in_order(s, w),
        nodes_below(nodes, s.nodes.len()),
        0 <= k,
    ensures
        in_order(s, nodes_ended(w, nodes, k, depth)),
    decreases depth, 3nat, nodes.len() - k,
{
    if k < nodes.len() {
        let n = w.state.nodes[nodes[k].0 as int];
        assert(s.node_ok(s.nodes[nodes[k].0 as int]));
        let x = if n.dyndep_pending {
            Work { pending: w.pending.push(nodes[k]), ..w }
        } else {
            edges_maybe_ready(w, n.out_edges, 0, depth)
        };
        if !n.dyndep_pending {
            lemma_edges_in_order(s, w, n.out_edges, 0, depth);
        }
        lemma_nodes_in_order(s, x, nodes, k + 1, depth);
    }
}

proof fn lemma_edges_in_order(s: StateView, w: Work, edges: Seq<EdgeId>, k: int, depth: nat)
    requires
        s.wf(),
        in_order(s, w),
        edges_below(edges, s.edges.len()),
        0 <= k,
    ensures
        in_order(s, edges_maybe_ready(w, edges, k, depth)),
    decreases depth, 2nat, edges.len() - k,
{
    if k < edges.len() {
        lemma_maybe_in_order(s, w, edges[k], depth);
        lemma_edges_in_order(s, maybe_ready(w, edges[k], depth), edges, k + 1, depth);
    }
}

proof fn lemma_maybe_in_order(s: StateView, w: Work, edge: EdgeId, depth: nat)
    requires
        s.wf(),
        in_order(s, w),
        edge.0 < s.edges.len(),
    ensures
        in_order(s, maybe_ready(w, edge, depth)),
    decreases depth, 1nat, 0nat,
{
    if w.plan.wants(edge) is Some && w.state.inputs_ready(edge.0 as int) {
        if w.plan.wants(edge) == Some(Want::Nothing) {
            lemma_ended_in_order(s, w, edge, EdgeResult::Succeeded, depth);
        } else {
            lemma_scheduled_in_order(s, w, edge);
        }
    }
}

proof fn lemma_initial_in_order(s: StateView, w: Work, queued: Seq<bool>, k: int, n: int)
    requires
        s.wf(),
        in_order(s, w),
        0 <= k,
        n <= s.edges.len(),
        queued.len() == s.pools.len(),
    ensures
        in_order(s, initial_edges(w, queued, k, n).0),
        initial_edges(w, queued, k, n).1.len() == s.pools.len(),
    decreases n - k,
{
    if k < n {
        let e = EdgeId(k as usize);
        let pool = w.state.edges[k].pool;
        if w.plan.wants(e) != Some(Want::ToStart) || !w.state.inputs_ready(k) {
            lemma_initial_in_order(s, w, queued, k + 1, n);
        } else if w.state.pools[pool.0 as int].depth != 0 {
            lemma_wanted_in_order(s, w, e, Some(Want::ToFinish));
            let x = Work { plan: w.plan.with_want(e, Some(Want::ToFinish)), ..w };
            lemma_queued_in_order(s, x, e);
            lemma_initial_in_order(
                s,
                Work { plan: x.plan.with_delayed(w.state, e), ..w },
                queued.update(pool.0 as int, true),
                k + 1,
                n,
            );
        } else {
            lemma_scheduled_in_order(s, w, e);
            lemma_initial_in_order(s, scheduled(w, e), queued, k + 1, n);
        }
    }
}

proof fn lemma_pools_in_order(s: StateView, w: Work, queued: Seq<bool>, k: int)
    requires
        s.wf(),
        in_order(s, w),
        0 <= k,
        queued.len() == s.pools.len(),
        s.pools.len() <= usize::MAX,
    ensures
        in_order(s, pools_retrieved(w, queued, k)),
    decreases queued.len() - k,
{
    if k < queued.len() {
        let pool = PoolId(k as usize);
        if queued[k] {
            lemma_retrieved_in_order(s, w, pool);
            lemma_pools_in_order(s, retrieved(w, pool), queued, k + 1);
        } else {
            lemma_pools_in_order(s, w, queued, k + 1);
        }
    }
}

proof fn lemma_filled_in_order(w: Work)
    requires
        w.state.wf(),
        w.plan.fits(w.state),
        inputs_first(w.plan, w.state),
        w.state.edges.len() <= usize::MAX,
        w.state.pools.len() <= usize::MAX,
    ensures
        ({
            let x = initially_scheduled(w);
            inputs_first(x.plan, x.state)
        }),
{
    let s = w.state;
    let none = Seq::new(s.pools.len(), |i: int| false);
    let n = w.plan.want.len() as int;
    lemma_initial_in_order(s, w, none, 0, n);
    let (x, queued) = initial_edges(w, none, 0, n);
    lemma_pools_in_order(s, x, queued, 0);
}

/// Nothing runs before what it needs: filling the queue of a plan, and noting
/// that an edge has ended, only ever queue edges all of whose inputs are ready,
/// and what is queued keeps its inputs ready.
pub proof fn law_inputs_come_first(w: Work, edge: EdgeId, result: EdgeResult, depth: nat)
    requires
        w.state.wf(),
        w.plan.fits(w.state),
        inputs_first(w.plan, w.state),
        edge.0 < w.state.edges.len(),
        w.state.edges.len() <= usize::MAX,
        w.state.pools.len() <= usize::MAX,
    ensures
        ({
            let x = initially_scheduled(w);
            inputs_first(x.plan, x.state)
        }),
        ({
            let x = edge_ended(w, edge, result, depth);
            inputs_first(x.plan, x.state)
        }),
{
    let s = w.state;
    lemma_ended_in_order(s, w, edge, result, depth);
    lemma_filled_in_order(w);
}

/// Whether `edge` is ready to run or waits for its pool.
pub open spec fn is_queued(p: PlanView, edge: EdgeId) -> bool {
    ||| exists|i: int| 0 <= i < p.ready.len() && (#[trigger] p.ready[i]).edge == edge
    ||| exists|i: int| 0 <= i < p.delayed.len() && (#[trigger] p.delayed[i]).edge == edge
}

/// Whether the waiting edges differ from each other.
pub open spec fn differ(v: Seq<DelayedEdge>) -> bool {
    forall|i: int, j: int|
        0 <= i < j < v.len() ==> (#[trigger] v[i]).edge != (#[trigger] v[j]).edge
}

/// Whether what is ready to run is in order, nothing twice, and has the priority
/// that the graph gives it.
pub open spec fn in_turn(p: PlanView, s: StateView) -> bool {
    &&& is_ordered(p.ready)
    &&& forall|i: int, j: int|
        0 <= i < j < p.ready.len() ==> (#[trigger] p.ready[i]).edge != (#[trigger] p.ready[j]).edge
    &&& forall|i: int|
        0 <= i < p.ready.len() ==> (#[trigger] p.ready[i]).edge.0 < s.edges.len()
            && p.ready[i].weight == s.edges[p.ready[i].edge.0 as int].critical_path_weight
}

/// Whether no edge is queued twice, the queue is in order, and everything that
/// is queued is about to run and has the priority that the graph gives it.
pub open spec fn queued_once(p: PlanView, s: StateView) -> bool {
    &&& in_turn(p, s)
    &&& differ(p.delayed)
    &&& forall|i: int, j: int|
        0 <= i < p.ready.len() && 0 <= j < p.delayed.len() ==> (#[trigger] p.ready[i]).edge != (
        #[trigger] p.delayed[j]).edge
    &&& forall|i: int|
        0 <= i < p.ready.len() ==> p.wants((#[trigger] p.ready[i]).edge) == Some(Want::ToFinish)
    &&& forall|i: int|
        0 <= i < p.delayed.len() ==> (#[trigger] p.delayed[i]).edge.0 < s.edges.len()
            && p.delayed[i] == delayed_edge(s, p.delayed[i].edge) && p.wants(p.delayed[i].edge)
            == Some(Want::ToFinish)
}

spec fn well_queued(s: StateView, w: Work) -> bool {
    &&& same_graph(s, w.state)
    &&& queued_once(w.plan, w.state)
}

proof fn lemma_pushed_once(p: PlanView, s: StateView, edge: EdgeId)
    requires
        queued_once(p, s),
        !is_queued(p, edge),
        edge.0 < s.edges.len(),
        p.wants(edge) == Some(Want::ToFinish),
    ensures
        queued_once(p.with_ready(s, edge), s),
        queued_once(p.with_delayed(s, edge), s),
        forall|e: EdgeId| #[trigger] is_queued(p.with_ready(s, edge), e) ==> e == edge || is_queued(p, e),
        forall|e: EdgeId| #[trigger]
            is_queued(p.with_delayed(s, edge), e) ==> e == edge || is_queued(p, e),
{
    let x = ReadyEdge { weight: s.edges[edge.0 as int].critical_path_weight, edge };
    let q = p.with_ready(s, edge);
    law_ready_queue_stays_ordered(p.ready, x);
    lemma_ready_place(p.ready, x, 0);
    let k = ready_place(p.ready, x, 0);
    assert(q.ready == p.ready.insert(k, x));
    assert forall|i: int| 0 <= i < q.ready.len() && i != k implies p.ready[if i < k {
        i
    } else {
        i - 1
    }] == #[trigger] q.ready[i] by {}
    assert(q.ready[k] == x);
    assert forall|i: int, j: int| 0 <= i < j < q.ready.len() implies (#[trigger] q.ready[i]).edge != (
    #[trigger] q.ready[j]).edge by {
        let a = if i < k {
            i
        } else {
            i - 1
        };
        let b = if j < k {
            j
        } else {
            j - 1
        };
        if i != k {
            assert(q.ready[i] == p.ready[a]);
        }
        if j != k {
            assert(q.ready[j] == p.ready[b]);
        }
    }
    assert forall|i: int, j: int| 0 <= i < q.ready.len() && 0 <= j < q.delayed.len() implies (
    #[trigger] q.ready[i]).edge != (#[trigger] q.delayed[j]).edge by {
        assert(q.delayed[j] == p.delayed[j]);
        if i < k {
            assert(q.ready[i] == p.ready[i]);
        } else if i > k {
            assert(q.ready[i] == p.ready[i - 1]);
        }
    }
    assert forall|i: int| 0 <= i < q.ready.len() implies (#[trigger] q.ready[i]).edge.0
        < s.edges.len() && q.ready[i].weight
        == s.edges[q.ready[i].edge.0 as int].critical_path_weight && q.wants(q.ready[i].edge)
        == Some(Want::ToFinish) by {
        if i < k {
            assert(q.ready[i] == p.ready[i]);
        } else if i > k {
            assert(q.ready[i] == p.ready[i - 1]);
        }
    }
    assert forall|e: EdgeId| #[trigger] is_queued(q, e) implies e == edge || is_queued(p, e) by {
        if exists|i: int| 0 <= i < q.ready.len() && (#[trigger] q.ready[i]).edge == e {
            let i = choose|i: int| 0 <= i < q.ready.len() && (#[trigger] q.ready[i]).edge == e;
            if i < k {
                assert(p.ready[i].edge == e);
            } else if i > k {
                assert(p.ready[i - 1].edge == e);
            }
        } else {
            let i = choose|i: int| 0 <= i < q.delayed.len() && (#[trigger] q.delayed[i]).edge == e;
            assert(p.delayed[i].edge == e);
        }
    }
    let y = delayed_edge(s, edge);
    let u = p.with_delayed(s, edge);
    lemma_delayed_place_bounds(p.delayed, y, 0);
    let m = delayed_place(p.delayed, y, 0);
    assert(!(m < p.delayed.len() && p.delayed[m] == y));
    assert(u.delayed == p.delayed.insert(m, y));
    assert forall|i: int, j: int| 0 <= i < j < u.delayed.len() implies (
    #[trigger] u.delayed[i]).edge != (#[trigger] u.delayed[j]).edge by {
        let a = if i < m {
            i
        } else {
            i - 1
        };
        let b = if j < m {
            j
        } else {
            j - 1
        };
        if i != m {
            assert(u.delayed[i] == p.delayed[a]);
        }
        if j != m {
            assert(u.delayed[j] == p.delayed[b]);
        }
    }
    assert forall|i: int, j: int| 0 <= i < u.ready.len() && 0 <= j < u.delayed.len() implies (
    #[trigger] u.ready[i]).edge != (#[trigger] u.delayed[j]).edge by {
        assert(u.ready[i] == p.ready[i]);
        if j < m {
            assert(u.delayed[j] == p.delayed[j]);
        } else if j > m {
            assert(u.delayed[j] == p.delayed[j - 1]);
        }
    }
    assert forall|i: int| 0 <= i < u.delayed.len() implies (#[trigger] u.delayed[i]).edge.0
        < s.edges.len() && u.delayed[i] == delayed_edge(s, u.delayed[i].edge) && u.wants(
        u.delayed[i].edge,
    ) == Some(Want::ToFinish) by {
        if i < m {
            assert(u.delayed[i] == p.delayed[i]);
        } else if i > m {
            assert(u.delayed[i] == p.delayed[i - 1]);
        }
    }
    assert forall|e: EdgeId| #[trigger] is_queued(u, e) implies e == edge || is_queued(p, e) by {
        if exists|i: int| 0 <= i < u.ready.len() && (#[trigger] u.ready[i]).edge == e {
            let i = choose|i: int| 0 <= i < u.ready.len() && (#[trigger] u.ready[i]).edge == e;
            assert(p.ready[i].edge == e);
        } else {
            let i = choose|i: int| 0 <= i < u.delayed.len() && (#[trigger] u.delayed[i]).edge == e;
            if i < m {
                assert(p.delayed[i].edge == e);
            } else if i > m {
                assert(p.delayed[i - 1].edge == e);
            }
        }
    }
}

/// Whether edges keep their pools and priorities from one graph to the other.
pub open spec fn priorities_kept(s: StateView, t: StateView) -> bool {
    &&& t.edges.len() == s.edges.len()
    &&& forall|i: int|
        0 <= i < s.edges.len() ==> (#[trigger] t.edges[i]).pool == s.edges[i].pool
            && t.edges[i].critical_path_weight == s.edges[i].critical_path_weight
}

pub proof fn lemma_queue_kept(p: PlanView, s: StateView, t: StateView)
    requires
        queued_once(p, s),
        priorities_kept(s, t),
    ensures
        queued_once(p, t),
{
    assert forall|i: int| 0 <= i < p.ready.len() implies (#[trigger] p.ready[i]).edge.0
        < t.edges.len() && p.ready[i].weight
        == t.edges[p.ready[i].edge.0 as int].critical_path_weight by {
        assert(t.edges[p.ready[i].edge.0 as int].critical_path_weight
            == s.edges[p.ready[i].edge.0 as int].critical_path_weight);
    }
    assert forall|i: int| 0 <= i < p.delayed.len() implies (#[trigger] p.delayed[i]).edge.0
        < t.edges.len() && p.delayed[i] == delayed_edge(t, p.delayed[i].edge) by {
        let e = p.delayed[i].edge.0 as int;
        assert(t.edges[e].critical_path_weight == s.edges[e].critical_path_weight);
        assert(t.edges[e].pool == s.edges[e].pool);
    }
}

proof fn lemma_queued_later(p: PlanView, s: StateView, t: StateView)
    requires
        queued_once(p, s),
        same_graph(s, t),
    ensures
        queued_once(p, t),
{
    lemma_queue_kept(p, s, t);
}

proof fn lemma_unready_kept(p: PlanView, s: StateView, q: PlanView, t: StateView)
    requires
        runs_unready(p, s),
        t.edges.len() == s.edges.len(),
        forall|i: int|
            0 <= i < s.edges.len() ==> (#[trigger] t.edges[i]).outputs_ready
                == s.edges[i].outputs_ready,
        q.want == p.want,
    ensures
        runs_unready(q, t),
{
    assert forall|e: EdgeId|
        (#[trigger] q.wants(e)) is Some && q.wants(e) != Some(Want::Nothing) && e.0
            < t.edges.len() implies !t.edges[e.0 as int].outputs_ready by {
        assert(p.wants(e) == q.wants(e));
    }
}

proof fn lemma_unready_moved(p: PlanView, s: StateView, edge: EdgeId)
    requires
        runs_unready(p, s),
        p.wants(edge) is Some,
        p.wants(edge) != Some(Want::Nothing),
    ensures
        runs_unready(p.with_want(edge, Some(Want::ToFinish)), s),
{
    let q = p.with_want(edge, Some(Want::ToFinish));
    assert forall|e: EdgeId|
        (#[trigger] q.wants(e)) is Some && q.wants(e) != Some(Want::Nothing) && e.0
            < s.edges.len() implies !s.edges[e.0 as int].outputs_ready by {
        if e != edge {
            assert(p.wants(e) == q.wants(e));
        } else {
            assert(p.wants(edge) is Some);
        }
    }
}

proof fn lemma_unready_wanted(p: PlanView, s: StateView, edge: EdgeId, v: Option<Want>)
    requires
        runs_unready(p, s),
        !s.edges[edge.0 as int].outputs_ready,
    ensures
        runs_unready(p.with_want(edge, v), s),
{
    let q = p.with_want(edge, v);
    assert forall|e: EdgeId|
        (#[trigger] q.wants(e)) is Some && q.wants(e) != Some(Want::Nothing) && e.0
            < s.edges.len() implies !s.edges[e.0 as int].outputs_ready by {
        if e != edge {
            assert(p.wants(e) == q.wants(e));
        }
    }
}

proof fn lemma_made_ready_once(
    s: StateView,
    w: Work,
    pool: PoolId,
    edges: Seq<DelayedEdge>,
    k: int,
)
    requires
        well_queued(s, w),
        pool.0 < s.pools.len(),
        0 <= k,
        differ(edges),
        forall|i: int|
            k <= i < edges.len() ==> (#[trigger] edges[i]).edge.0 < s.edges.len() && !is_queued(
                w.plan,
                edges[i].edge,
            ) && w.plan.wants(edges[i].edge) == Some(Want::ToFinish),
    ensures
        runs_unready(w.plan, w.state) ==> runs_unready(
            made_ready(w, pool, edges, k).plan,
            made_ready(w, pool, edges, k).state,
        ),
        well_queued(s, made_ready(w, pool, edges, k)),
        made_ready(w, pool, edges, k).plan.want == w.plan.want,
        forall|e: EdgeId| #[trigger]
            is_queued(made_ready(w, pool, edges, k).plan, e) ==> is_queued(w.plan, e) || exists|
                i: int,
            | k <= i < edges.len() && (#[trigger] edges[i]).edge == e,
    decreases edges.len() - k,
{
    if k < edges.len() {
        let e = edges[k].edge;
        lemma_pushed_once(w.plan, w.state, e);
        let t = w.state.pool_taken(pool);
        let p = w.plan.with_ready(w.state, e);
        lemma_queued_later(p, w.state, t);
        lemma_same_graph_twice(s, w.state, t);
        let x = Work { plan: p, state: t, ..w };
        assert forall|i: int| k + 1 <= i < edges.len() implies (#[trigger] edges[i]).edge.0
            < s.edges.len() && !is_queued(x.plan, edges[i].edge) && x.plan.wants(edges[i].edge)
            == Some(Want::ToFinish) by {
            assert(edges[k].edge != edges[i].edge);
            if is_queued(x.plan, edges[i].edge) {
                assert(is_queued(w.plan, edges[i].edge));
            }
        }
        if runs_unready(w.plan, w.state) {
            lemma_unready_kept(w.plan, w.state, p, t);
        }
        lemma_made_ready_once(s, x, pool, edges, k + 1);
        let y = made_ready(x, pool, edges, k + 1);
        assert forall|f: EdgeId| #[trigger] is_queued(y.plan, f) implies is_queued(w.plan, f)
            || exists|i: int| k <= i < edges.len() && (#[trigger] edges[i]).edge == f by {
            if is_queued(x.plan, f) {
                if f == e {
                    assert(edges[k].edge == f);
                }
            } else {
                let i = choose|i: int| k + 1 <= i < edges.len() && (#[trigger] edges[i]).edge == f;
                assert(edges[i].edge == f);
            }
        }
    }
}

proof fn lemma_filter_differs(v: Seq<DelayedEdge>, keep: spec_fn(DelayedEdge) -> bool)
    requires
        differ(v),
    ensures
        differ(v.filter(keep)),
        forall|i: int|
            0 <= i < v.filter(keep).len() ==> keep(#[trigger] v.filter(keep)[i]) && v.contains(
                v.filter(keep)[i],
            ),
    decreases v.len(),
{
    reveal(Seq::filter);
    let f = v.filter(keep);
    if v.len() > 0 {
        let d = v.drop_last();
        assert(differ(d)) by {
            assert forall|i: int, j: int| 0 <= i < j < d.len() implies (#[trigger] d[i]).edge != (
            #[trigger] d[j]).edge by {
                assert(d[i] == v[i] && d[j] == v[j]);
            }
        }
        lemma_filter_differs(d, keep);
        let g = d.filter(keep);
        assert forall|i: int| 0 <= i < f.len() implies keep(#[trigger] f[i]) && v.contains(f[i]) by {
            if i < g.len() {
                assert(f[i] == g[i]);
                assert(d.contains(g[i]));
                let j = choose|j: int| 0 <= j < d.len() && d[j] == g[i];
                assert(v[j] == f[i]);
            } else {
                assert(v[v.len() - 1] == f[i]);
            }
        }
        assert forall|i: int, j: int| 0 <= i < j < f.len() implies (#[trigger] f[i]).edge != (
        #[trigger] f[j]).edge by {
            assert(f[i] == g[i]);
            assert(d.contains(g[i]));
            let a = choose|a: int| 0 <= a < d.len() && d[a] == g[i];
            assert(v[a] == f[i]);
            if j < g.len() {
                assert(f[j] == g[j]);
            } else {
                assert(f[j] == v[v.len() - 1]);
            }
        }
    }
}

proof fn lemma_promoted_gone(
    v: Seq<DelayedEdge>,
    s: StateView,
    pool: PoolId,
    edges: Seq<DelayedEdge>,
    k: int,
)
    requires
        differ(v),
        0 <= k <= edges.len(),
        forall|i: int|
            0 <= i < edges.len() ==> (#[trigger] edges[i]) == (DelayedEdge {
                pool,
                weight: s.edges[edges[i].edge.0 as int].critical_path_weight,
                edge: edges[i].edge,
            }),
    ensures
        differ(without_promoted(v, s, pool, edges, k)),
        forall|i: int, j: int|
            0 <= i < without_promoted(v, s, pool, edges, k).len() && 0 <= j < k ==> (
            #[trigger] without_promoted(v, s, pool, edges, k)[i]) != #[trigger] edges[j],
    decreases k,
{
    if k > 0 {
        let u = without_promoted(v, s, pool, edges, k - 1);
        lemma_promoted_gone(v, s, pool, edges, k - 1);
        let e = edges[k - 1].edge;
        let key = DelayedEdge { pool, weight: s.edges[e.0 as int].critical_path_weight, edge: e };
        assert(edges[k - 1] == key);
        lemma_filter_differs(u, other_than(key));
        let f = without_promoted(v, s, pool, edges, k);
        assert forall|i: int, j: int| 0 <= i < f.len() && 0 <= j < k implies (#[trigger] f[i])
            != #[trigger] edges[j] by {
            assert(u.contains(f[i]));
            let a = choose|a: int| 0 <= a < u.len() && u[a] == f[i];
            assert(u[a] == f[i]);
            if j < k - 1 {
                assert(u[a] != edges[j]);
            }
        }
    }
}

proof fn lemma_retrieved_once(s: StateView, w: Work, pool: PoolId)
    requires
        well_queued(s, w),
        pool.0 < s.pools.len(),
    ensures
        runs_unready(w.plan, w.state) ==> runs_unready(
            retrieved(w, pool).plan,
            retrieved(w, pool).state,
        ),
        well_queued(s, retrieved(w, pool)),
        retrieved(w, pool).plan.want == w.plan.want,
        forall|e: EdgeId| #[trigger] is_queued(retrieved(w, pool).plan, e) ==> is_queued(w.plan, e),
{
    reveal(retrieved);
    let p = w.plan;
    let all = waiting_in(p.delayed, pool);
    let edges = promoted(p, w.state, pool);
    lemma_filter_differs(p.delayed, of_pool(pool));
    assert(differ(edges)) by {
        assert forall|i: int, j: int| 0 <= i < j < edges.len() implies (#[trigger] edges[i]).edge != (
        #[trigger] edges[j]).edge by {
            assert(edges[i] == all[i] && edges[j] == all[j]);
        }
    }
    assert forall|i: int| 0 <= i < edges.len() implies p.delayed.contains(#[trigger] edges[i])
        && edges[i].pool == pool by {
        assert(edges[i] == all[i]);
    }
    assert forall|i: int| 0 <= i < edges.len() implies (#[trigger] edges[i]) == (DelayedEdge {
        pool,
        weight: w.state.edges[edges[i].edge.0 as int].critical_path_weight,
        edge: edges[i].edge,
    }) && edges[i].edge.0 < s.edges.len() && p.wants(edges[i].edge) == Some(Want::ToFinish) by {
        let a = choose|a: int| 0 <= a < p.delayed.len() && p.delayed[a] == edges[i];
        assert(p.delayed[a] == edges[i]);
    }
    let n = edges.len() as int;
    let d = without_promoted(p.delayed, w.state, pool, edges, n);
    lemma_promoted_gone(p.delayed, w.state, pool, edges, n);
    let q = PlanView { delayed: d, ..p };
    assert forall|i: int| 0 <= i < d.len() implies p.delayed.contains(#[trigger] d[i]) by {
        lemma_without_promoted(p.delayed, w.state, pool, edges, n, i);
    }
    assert forall|i: int, j: int| 0 <= i < q.ready.len() && 0 <= j < q.delayed.len() implies (
    #[trigger] q.ready[i]).edge != (#[trigger] q.delayed[j]).edge by {
        let a = choose|a: int| 0 <= a < p.delayed.len() && p.delayed[a] == d[j];
        assert(p.ready[i].edge != p.delayed[a].edge);
    }
    assert forall|i: int| 0 <= i < q.delayed.len() implies (#[trigger] q.delayed[i]).edge.0
        < w.state.edges.len() && q.delayed[i] == delayed_edge(w.state, q.delayed[i].edge)
        && q.wants(q.delayed[i].edge) == Some(Want::ToFinish) by {
        let a = choose|a: int| 0 <= a < p.delayed.len() && p.delayed[a] == d[i];
        assert(p.delayed[a] == d[i]);
    }
    assert forall|i: int| 0 <= i < q.ready.len() implies (#[trigger] q.ready[i]).edge.0
        < w.state.edges.len() && q.ready[i].weight
        == w.state.edges[q.ready[i].edge.0 as int].critical_path_weight && q.wants(
        q.ready[i].edge,
    ) == Some(Want::ToFinish) by {
        assert(p.ready[i] == q.ready[i]);
    }
    assert(queued_once(q, w.state));
    assert forall|e: EdgeId| #[trigger] is_queued(q, e) implies is_queued(p, e) by {
        if exists|i: int| 0 <= i < q.ready.len() && (#[trigger] q.ready[i]).edge == e {
            let i = choose|i: int| 0 <= i < q.ready.len() && (#[trigger] q.ready[i]).edge == e;
            assert(p.ready[i].edge == e);
        } else {
            let i = choose|i: int| 0 <= i < q.delayed.len() && (#[trigger] q.delayed[i]).edge == e;
            let a = choose|a: int| 0 <= a < p.delayed.len() && p.delayed[a] == d[i];
            assert(p.delayed[a].edge == e);
        }
    }
    assert forall|i: int| 0 <= i < edges.len() implies !is_queued(q, (#[trigger] edges[i]).edge) by {
        let a = choose|a: int| 0 <= a < p.delayed.len() && p.delayed[a] == edges[i];
        assert(p.delayed[a] == edges[i]);
        assert forall|j: int| 0 <= j < q.ready.len() implies (#[trigger] q.ready[j]).edge
            != edges[i].edge by {
            assert(p.ready[j].edge != p.delayed[a].edge);
        }
        assert forall|j: int| 0 <= j < q.delayed.len() implies (#[trigger] q.delayed[j]).edge
            != edges[i].edge by {
            let b = choose|b: int| 0 <= b < p.delayed.len() && p.delayed[b] == d[j];
            assert(p.delayed[b] == d[j]);
            assert(d[j] != edges[i]);
            if a < b {
                assert(p.delayed[a].edge != p.delayed[b].edge);
            } else if b < a {
                assert(p.delayed[b].edge != p.delayed[a].edge);
            }
        }
    }
    let x = Work { plan: q, ..w };
    if runs_unready(p, w.state) {
        lemma_unready_kept(p, w.state, q, w.state);
    }
    lemma_made_ready_once(s, x, pool, edges, 0);
    let y = made_ready(x, pool, edges, 0);
    assert forall|e: EdgeId| #[trigger] is_queued(y.plan, e) implies is_queued(p, e) by {
        if !is_queued(q, e) {
            let i = choose|i: int| 0 <= i < edges.len() && (#[trigger] edges[i]).edge == e;
            let a = choose|a: int| 0 <= a < p.delayed.len() && p.delayed[a] == edges[i];
            assert(p.delayed[a].edge == e);
        }
    }
}

proof fn lemma_wanted_once(p: PlanView, s: StateView, edge: EdgeId, v: Option<Want>)
    requires
        queued_once(p, s),
        !is_queued(p, edge),
    ensures
        queued_once(p.with_want(edge, v), s),
        !is_queued(p.with_want(edge, v), edge),
{
    let q = p.with_want(edge, v);
    assert(q.ready == p.ready && q.delayed == p.delayed);
    assert forall|i: int| 0 <= i < q.ready.len() implies (#[trigger] q.ready[i]).edge.0
        < s.edges.len() && q.ready[i].weight
        == s.edges[q.ready[i].edge.0 as int].critical_path_weight && q.wants(q.ready[i].edge)
        == Some(Want::ToFinish) by {
        assert(p.ready[i].edge != edge);
        assert(p.wants(p.ready[i].edge) == Some(Want::ToFinish));
    }
    assert forall|i: int| 0 <= i < q.delayed.len() implies (#[trigger] q.delayed[i]).edge.0
        < s.edges.len() && q.delayed[i] == delayed_edge(s, q.delayed[i].edge) && q.wants(
        q.delayed[i].edge,
    ) == Some(Want::ToFinish) by {
        assert(p.delayed[i].edge != edge);
        assert(p.wants(p.delayed[i].edge) == Some(Want::ToFinish));
    }
}

proof fn lemma_not_queued(p: PlanView, s: StateView, edge: EdgeId)
    requires
        queued_once(p, s),
        p.wants(edge) != Some(Want::ToFinish),
    ensures
        !is_queued(p, edge),
{
}

proof fn lemma_scheduled_once(s: StateView, w: Work, edge: EdgeId)
    requires
        s.wf(),
        well_queued(s, w),
        edge.0 < s.edges.len(),
    ensures
        w.plan.wants(edge) is Some && w.plan.wants(edge) != Some(Want::Nothing) && runs_unready(
            w.plan,
            w.state,
        ) ==> runs_unready(
            scheduled(w, edge).plan,
            scheduled(w, edge).state,
        ),
        well_queued(s, scheduled(w, edge)),
{
    if w.plan.wants(edge) != Some(Want::ToFinish) {
        lemma_same_graph_wf(s, w.state);
        assert(w.state.edge_ok(w.state.edges[edge.0 as int]));
        let pool = w.state.edges[edge.0 as int].pool;
        let p = w.plan.with_want(edge, Some(Want::ToFinish));
        lemma_not_queued(w.plan, w.state, edge);
        lemma_wanted_once(w.plan, w.state, edge, Some(Want::ToFinish));
        lemma_pushed_once(p, w.state, edge);
        if runs_unready(w.plan, w.state) && w.plan.wants(edge) is Some && w.plan.wants(edge)
            != Some(Want::Nothing) {
            lemma_unready_moved(w.plan, w.state, edge);
            lemma_unready_kept(p, w.state, p.with_delayed(w.state, edge), w.state);
            lemma_unready_kept(
                p,
                w.state,
                p.with_ready(w.state, edge),
                w.state.pool_taken(pool),
            );
        }
        if w.state.pools[pool.0 as int].depth != 0 {
            lemma_retrieved_once(s, Work { plan: p.with_delayed(w.state, edge), ..w }, pool);
        } else {
            let t = w.state.pool_taken(pool);
            lemma_queued_later(p.with_ready(w.state, edge), w.state, t);
            lemma_same_graph_twice(s, w.state, t);
        }
    }
}

proof fn lemma_ended_once(s: StateView, w: Work, edge: EdgeId, result: EdgeResult, depth: nat)
    requires
        s.wf(),
        well_queued(s, w),
        edge.0 < s.edges.len(),
        !is_queued(w.plan, edge),
    ensures
        runs_unready(w.plan, w.state) ==> runs_unready(
            edge_ended(w, edge, result, depth).plan,
            edge_ended(w, edge, result, depth).state,
        ),
        well_queued(s, edge_ended(w, edge, result, depth)),
    decreases depth, 0nat, 0nat,
{
    if depth > 0 {
        lemma_same_graph_wf(s, w.state);
        assert(w.state.edge_ok(w.state.edges[edge.0 as int]));
        let pool = w.state.edges[edge.0 as int].pool;
        let wanted = w.plan.wants(edge) != Some(Want::Nothing);
        let freed = if wanted {
            Work { state: w.state.pool_freed(pool), ..w }
        } else {
            w
        };
        if wanted {
            if runs_unready(w.plan, w.state) {
                lemma_unready_kept(w.plan, w.state, w.plan, freed.state);
            }
            lemma_queued_later(w.plan, w.state, freed.state);
            lemma_same_graph_twice(s, w.state, freed.state);
        }
        lemma_retrieved_once(s, freed, pool);
        let x = retrieved(freed, pool);
        if result == EdgeResult::Succeeded {
            lemma_wanted_once(x.plan, x.state, edge, None);
            let plan = PlanView {
                wanted_edges: if wanted {
                    x.plan.wanted_edges.wrapping_sub(1)
                } else {
                    x.plan.wanted_edges
                },
                ..x.plan.with_want(edge, None)
            };
            assert(queued_once(plan, x.state)) by {
                let q = x.plan.with_want(edge, None);
                assert(plan.ready == q.ready && plan.delayed == q.delayed && plan.want == q.want);
            }
            let t = with_outputs_ready(x.state, edge);
            lemma_queued_later(plan, x.state, t);
            lemma_same_graph_twice(s, x.state, t);
            let y = Work { plan, state: t, ..x };
            if runs_unready(x.plan, x.state) {
                assert forall|e: EdgeId|
                    (#[trigger] plan.wants(e)) is Some && plan.wants(e) != Some(Want::Nothing)
                        && e.0 < t.edges.len() implies !t.edges[e.0 as int].outputs_ready by {
                    assert(e != edge);
                    assert(x.plan.wants(e) == plan.wants(e));
                    assert(t.edges[e.0 as int] == x.state.edges[e.0 as int]);
                }
            }
            lemma_same_graph_wf(s, t);
            assert(t.edge_ok(t.edges[edge.0 as int]));
            lemma_nodes_once(s, y, t.edges[edge.0 as int].outputs, 0, (depth - 1) as nat);
        }
    }
}

proof fn lemma_nodes_once(s: StateView, w: Work, nodes: Seq<NodeId>, k: int, depth: nat)
    requires
        s.wf(),
        well_queued(s, w),
        nodes_below(nodes, s.nodes.len()),
        0 <= k,
    ensures
        runs_unready(w.plan, w.state) ==> runs_unready(
            nodes_ended(w, nodes, k, depth).plan,
            nodes_ended(w, nodes, k, depth).state,
        ),
        well_queued(s, nodes_ended(w, nodes, k, depth)),
    decreases depth, 3nat, nodes.len() - k,
{
    if k < nodes.len() {
        let n = w.state.nodes[nodes[k].0 as int];
        assert(s.node_ok(s.nodes[nodes[k].0 as int]));
        let x = if n.dyndep_pending {
            Work { pending: w.pending.push(nodes[k]), ..w }
        } else {
            edges_maybe_ready(w, n.out_edges, 0, depth)
        };
        if !n.dyndep_pending {
            lemma_edges_once(s, w, n.out_edges, 0, depth);
        }
        lemma_nodes_once(s, x, nodes, k + 1, depth);
    }
}

proof fn lemma_edges_once(s: StateView, w: Work, edges: Seq<EdgeId>, k: int, depth: nat)
    requires
        s.wf(),
        well_queued(s, w),
        edges_below(edges, s.edges.len()),
        0 <= k,
    ensures
        runs_unready(w.plan, w.state) ==> runs_unready(
            edges_maybe_ready(w, edges, k, depth).plan,
            edges_maybe_ready(w, edges, k, depth).state,
        ),
        well_queued(s, edges_maybe_ready(w, edges, k, depth)),
    decreases depth, 2nat, edges.len() - k,
{
    if k < edges.len() {
        lemma_maybe_once(s, w, edges[k], depth);
        lemma_edges_once(s, maybe_ready(w, edges[k], depth), edges, k + 1, depth);
    }
}

proof fn lemma_maybe_once(s: StateView, w: Work, edge: EdgeId, depth: nat)
    requires
        s.wf(),
        well_queued(s, w),
        edge.0 < s.edges.len(),
    ensures
        runs_unready(w.plan, w.state) ==> runs_unready(
            maybe_ready(w, edge, depth).plan,
            maybe_ready(w, edge, depth).state,
        ),
        well_queued(s, maybe_ready(w, edge, depth)),
    decreases depth, 1nat, 0nat,
{
    if w.plan.wants(edge) is Some && w.state.inputs_ready(edge.0 as int) {
        if w.plan.wants(edge) == Some(Want::Nothing) {
            lemma_not_queued(w.plan, w.state, edge);
            lemma_ended_once(s, w, edge, EdgeResult::Succeeded, depth);
        } else {
            lemma_scheduled_once(s, w, edge);
        }
    }
}

proof fn lemma_initial_once(s: StateView, w: Work, queued: Seq<bool>, k: int, n: int)
    requires
        s.wf(),
        well_queued(s, w),
        0 <= k,
        n <= s.edges.len(),
        s.edges.len() <= usize::MAX,
        queued.len() == s.pools.len(),
    ensures
        runs_unready(w.plan, w.state) ==> runs_unready(
            initial_edges(w, queued, k, n).0.plan,
            initial_edges(w, queued, k, n).0.state,
        ),
        well_queued(s, initial_edges(w, queued, k, n).0),
        initial_edges(w, queued, k, n).1.len() == s.pools.len(),
    decreases n - k,
{
    if k < n {
        let e = EdgeId(k as usize);
        let pool = w.state.edges[k].pool;
        if w.plan.wants(e) != Some(Want::ToStart) || !w.state.inputs_ready(k) {
            lemma_initial_once(s, w, queued, k + 1, n);
        } else if w.state.pools[pool.0 as int].depth != 0 {
            lemma_not_queued(w.plan, w.state, e);
            lemma_wanted_once(w.plan, w.state, e, Some(Want::ToFinish));
            let p = w.plan.with_want(e, Some(Want::ToFinish));
            lemma_pushed_once(p, w.state, e);
            if runs_unready(w.plan, w.state) {
                lemma_unready_moved(w.plan, w.state, e);
                lemma_unready_kept(p, w.state, p.with_delayed(w.state, e), w.state);
            }
            lemma_initial_once(
                s,
                Work { plan: p.with_delayed(w.state, e), ..w },
                queued.update(pool.0 as int, true),
                k + 1,
                n,
            );
        } else {
            lemma_scheduled_once(s, w, e);
            lemma_initial_once(s, scheduled(w, e), queued, k + 1, n);
        }
    }
}

proof fn lemma_pools_once(s: StateView, w: Work, queued: Seq<bool>, k: int)
    requires
        well_queued(s, w),
        0 <= k,
        queued.len() == s.pools.len(),
        s.pools.len() <= usize::MAX,
    ensures
        runs_unready(w.plan, w.state) ==> runs_unready(
            pools_retrieved(w, queued, k).plan,
            pools_retrieved(w, queued, k).state,
        ),
        well_queued(s, pools_retrieved(w, queued, k)),
    decreases queued.len() - k,
{
    if k < queued.len() {
        let pool = PoolId(k as usize);
        if queued[k] {
            lemma_retrieved_once(s, w, pool);
            lemma_pools_once(s, retrieved(w, pool), queued, k + 1);
        } else {
            lemma_pools_once(s, w, queued, k + 1);
        }
    }
}

proof fn lemma_same_queue(p: PlanView, q: PlanView, s: StateView)
    requires
        queued_once(p, s),
        q.ready == p.ready,
        q.delayed == p.delayed,
        q.want == p.want,
    ensures
        queued_once(q, s),
{
}

proof fn lemma_sub_target_once(
    w: Walk,
    walking: bool,
    s: StateView,
    node: NodeId,
    dependent: Option<NodeId>,
    depth: nat,
)
    requires
        queued_once(w.plan, s),
    ensures
        match with_sub_target(w, walking, s, node, dependent, depth) {
            Ok((x, _)) => queued_once(x.plan, s) && (runs_unready(w.plan, s) ==> runs_unready(
                x.plan,
                s,
            )),
            Err(f) => queued_once(f.at.plan, s) && (runs_unready(w.plan, s) ==> runs_unready(
                f.at.plan,
                s,
            )),
        },
    decreases depth, 1nat, 0nat,
{
    let n = s.nodes[node.0 as int];
    let edge = n.in_edge->0;
    if n.in_edge is Some && !s.edges[edge.0 as int].outputs_ready {
        let first = w.plan.wants(edge) is None;
        let p1 = if first {
            w.plan.with_want(edge, Some(Want::Nothing))
        } else {
            w.plan
        };
        if first {
            lemma_not_queued(w.plan, s, edge);
            lemma_wanted_once(w.plan, s, edge, Some(Want::Nothing));
            if runs_unready(w.plan, s) {
                lemma_unready_wanted(w.plan, s, edge, Some(Want::Nothing));
            }
        }
        let p2 = if n.dirty && p1.wants(edge) == Some(Want::Nothing) {
            p1.with_want(edge, Some(Want::ToStart)).edge_wanted(s, edge)
        } else {
            p1
        };
        if n.dirty && p1.wants(edge) == Some(Want::Nothing) {
            lemma_not_queued(p1, s, edge);
            lemma_wanted_once(p1, s, edge, Some(Want::ToStart));
            lemma_same_queue(p1.with_want(edge, Some(Want::ToStart)), p2, s);
            if runs_unready(p1, s) {
                lemma_unready_wanted(p1, s, edge, Some(Want::ToStart));
                lemma_unready_kept(p1.with_want(edge, Some(Want::ToStart)), s, p2, s);
            }
        }
        if first && depth > 0 && !(walking && p1.wants(edge) == Some(Want::ToFinish)) {
            let x = Walk {
                plan: p2,
                seen: if walking {
                    w.seen.update(edge.0 as int, true)
                } else {
                    w.seen
                },
            };
            lemma_sub_targets_once(
                x,
                walking,
                s,
                s.edges[edge.0 as int].inputs,
                Some(node),
                0,
                (depth - 1) as nat,
            );
        }
    }
}

proof fn lemma_sub_targets_once(
    w: Walk,
    walking: bool,
    s: StateView,
    nodes: Seq<NodeId>,
    dependent: Option<NodeId>,
    k: int,
    depth: nat,
)
    requires
        queued_once(w.plan, s),
        0 <= k,
    ensures
        match with_sub_targets(w, walking, s, nodes, dependent, k, depth) {
            Ok(x) => queued_once(x.plan, s) && (runs_unready(w.plan, s) ==> runs_unready(
                x.plan,
                s,
            )),
            Err(f) => queued_once(f.at.plan, s) && (runs_unready(w.plan, s) ==> runs_unready(
                f.at.plan,
                s,
            )),
        },
    decreases depth, 2nat, nodes.len() - k,
{
    if k < nodes.len() {
        lemma_sub_target_once(w, walking, s, nodes[k], dependent, depth);
        if let Ok((x, _)) = with_sub_target(w, walking, s, nodes[k], dependent, depth) {
            lemma_sub_targets_once(x, walking, s, nodes, dependent, k + 1, depth);
        }
    }
}

proof fn lemma_target_once(p: PlanView, s: StateView, target: NodeId)
    requires
        queued_once(p, s),
    ensures
        match with_target(p, s, target) {
            Ok((q, _)) => queued_once(q, s) && (runs_unready(p, s) ==> runs_unready(q, s)),
            Err(f) => queued_once(f.at, s) && (runs_unready(p, s) ==> runs_unready(f.at, s)),
        },
{
    let w = Walk {
        plan: PlanView { targets: p.targets.push(target), ..p },
        seen: Seq::empty(),
    };
    lemma_same_queue(p, w.plan, s);
    if runs_unready(p, s) {
        lemma_unready_kept(p, s, w.plan, s);
    }
    lemma_sub_target_once(w, false, s, target, None, s.edges.len());
}

proof fn lemma_unready_once(p: PlanView, s: StateView, nodes: Seq<NodeId>, k: int)
    requires
        queued_once(p, s),
        0 <= k,
    ensures
        match with_unready_targets(p, s, nodes, k) {
            Ok(q) => queued_once(q, s),
            Err(f) => queued_once(f.at, s),
        },
    decreases nodes.len() - k,
{
    if k < nodes.len() {
        let n = s.nodes[nodes[k].0 as int];
        let edge = n.in_edge->0;
        if n.in_edge is Some && !s.edges[edge.0 as int].outputs_ready {
            lemma_target_once(p, s, nodes[k]);
            if let Ok((q, _)) = with_target(p, s, nodes[k]) {
                lemma_unready_once(q, s, nodes, k + 1);
            }
        } else {
            lemma_unready_once(p, s, nodes, k + 1);
        }
    }
}

proof fn lemma_dirty_node_once(p: PlanView, s: StateView, node: NodeId)
    requires
        queued_once(p, s),
    ensures
        queued_once(with_dirty_node(p, s, node), s),
{
    let n = s.nodes[node.0 as int];
    if n.in_edge is Some && n.dirty && p.wants(n.in_edge->0) == Some(Want::Nothing) {
        let e = n.in_edge->0;
        lemma_not_queued(p, s, e);
        lemma_wanted_once(p, s, e, Some(Want::ToStart));
        lemma_same_queue(
            p.with_want(e, Some(Want::ToStart)),
            with_dirty_node(p, s, node),
            s,
        );
    }
}

proof fn lemma_roots_once(p0: PlanView, w: Walk, s: StateView, v: Entries, k: int)
    requires
        queued_once(w.plan, s),
        0 <= k,
    ensures
        match roots_walked(p0, w, s, v, k) {
            Ok(x) => queued_once(x.plan, s),
            Err(f) => queued_once(f.at.plan, s),
        },
    decreases v.len() - k,
{
    if k < v.len() {
        let edge = v[k].0;
        if is_root(p0, s, edge) {
            let ins = v[k].1.implicit_inputs;
            let out = first_output_of(s, edge);
            lemma_sub_targets_once(w, true, s, ins, out, 0, s.edges.len());
            if let Ok(x) = with_sub_targets(w, true, s, ins, out, 0, s.edges.len()) {
                lemma_roots_once(p0, x, s, v, k + 1);
            }
        } else {
            lemma_roots_once(p0, w, s, v, k + 1);
        }
    }
}

proof fn lemma_seen_once(s: StateView, w: Work, seen: Seq<bool>, k: int, depth: nat)
    requires
        s.wf(),
        well_queued(s, w),
        0 <= k,
        seen.len() <= s.edges.len(),
        s.edges.len() <= usize::MAX,
    ensures
        well_queued(s, seen_scheduled(w, seen, k, depth)),
    decreases seen.len() - k,
{
    if k < seen.len() {
        if seen[k] {
            let e = EdgeId(k as usize);
            lemma_maybe_once(s, w, e, depth);
            lemma_seen_once(s, maybe_ready(w, e, depth), seen, k + 1, depth);
        } else {
            lemma_seen_once(s, w, seen, k + 1, depth);
        }
    }
}

proof fn lemma_filled_once(w: Work)
    requires
        w.state.wf(),
        queued_once(w.plan, w.state),
        w.plan.want.len() <= w.state.edges.len(),
        w.state.edges.len() <= usize::MAX,
        w.state.pools.len() <= usize::MAX,
    ensures
        runs_unready(w.plan, w.state) ==> runs_unready(
            initially_scheduled(w).plan,
            initially_scheduled(w).state,
        ),
        ({
            let x = initially_scheduled(w);
            queued_once(x.plan, x.state)
        }),
{
    let s = w.state;
    let none = Seq::new(s.pools.len(), |i: int| false);
    let n = w.plan.want.len() as int;
    lemma_initial_once(s, w, none, 0, n);
    let (x, queued) = initial_edges(w, none, 0, n);
    lemma_pools_once(s, x, queued, 0);
}

/// No edge is queued twice: filling the queue of a plan, and noting that an edge
/// has ended that was taken from it, keep it so. Nor do they ready anything that
/// is still to run.
pub proof fn law_edges_are_queued_once(w: Work, edge: EdgeId, result: EdgeResult, depth: nat)
    requires
        w.state.wf(),
        queued_once(w.plan, w.state),
        w.plan.want.len() <= w.state.edges.len(),
        edge.0 < w.state.edges.len(),
        !is_queued(w.plan, edge),
        w.state.edges.len() <= usize::MAX,
        w.state.pools.len() <= usize::MAX,
    ensures
        ({
            let x = initially_scheduled(w);
            &&& queued_once(x.plan, x.state)
            &&& runs_unready(w.plan, w.state) ==> runs_unready(x.plan, x.state)
        }),
        ({
            let x = edge_ended(w, edge, result, depth);
            &&& queued_once(x.plan, x.state)
            &&& runs_unready(w.plan, w.state) ==> runs_unready(x.plan, x.state)
        }),
{
    let s = w.state;
    lemma_ended_once(s, w, edge, result, depth);
    lemma_filled_once(w);
}

/// What one call of [`Plan::find_work`] after the other takes differs, and
/// falls by weight, then rises by the place in the manifest. What was taken is
/// not queued any more.
pub proof fn law_work_falls_by_weight(p: PlanView, s: StateView)
    requires
        in_turn(p, s),
        p.ready.len() > 0,
    ensures
        ({
            let a = p.ready[0].edge;
            let rest = PlanView { ready: p.ready.drop_first(), ..p };
            &&& in_turn(rest, s)
            &&& queued_once(p, s) ==> queued_once(rest, s) && !is_queued(rest, a)
            &&& orderly(p, s) ==> orderly(rest, s)
            &&& rest.ready.len() > 0 ==> ({
                let b = rest.ready[0].edge;
                let x = s.edges[a.0 as int].critical_path_weight;
                let y = s.edges[b.0 as int].critical_path_weight;
                a != b && (x > y || (x == y && a.0 < b.0))
            })
        }),
{
    let d = p.ready.drop_first();
    let rest = PlanView { ready: d, ..p };
    law_ready_queue_stays_ordered(p.ready, p.ready[0]);
    assert forall|i: int| 0 <= i < d.len() implies #[trigger] d[i] == p.ready[i + 1] by {}
    assert forall|i: int, j: int| 0 <= i < j < d.len() implies (#[trigger] d[i]).edge != (
    #[trigger] d[j]).edge by {
        assert(p.ready[i + 1].edge != p.ready[j + 1].edge);
    }
    assert forall|i: int| 0 <= i < d.len() implies (#[trigger] rest.ready[i]).edge.0 < s.edges.len()
        && rest.ready[i].weight == s.edges[rest.ready[i].edge.0 as int].critical_path_weight by {
        assert(rest.ready[i] == p.ready[i + 1]);
    }
    assert(in_turn(rest, s));
    if queued_once(p, s) {
        assert forall|i: int, j: int| 0 <= i < d.len() && 0 <= j < p.delayed.len() implies (
        #[trigger] rest.ready[i]).edge != (#[trigger] rest.delayed[j]).edge by {
            assert(p.ready[i + 1].edge != p.delayed[j].edge);
        }
        assert forall|i: int| 0 <= i < d.len() implies rest.wants((#[trigger] rest.ready[i]).edge)
            == Some(Want::ToFinish) by {
            assert(p.wants(p.ready[i + 1].edge) == Some(Want::ToFinish));
        }
        assert forall|i: int| 0 <= i < rest.delayed.len() implies (
        #[trigger] rest.delayed[i]).edge.0 < s.edges.len() && rest.delayed[i] == delayed_edge(
            s,
            rest.delayed[i].edge,
        ) && rest.wants(rest.delayed[i].edge) == Some(Want::ToFinish) by {
            assert(p.wants(p.delayed[i].edge) == Some(Want::ToFinish));
        }
        assert(queued_once(rest, s));
        assert forall|i: int| 0 <= i < d.len() implies (#[trigger] rest.ready[i]).edge
            != p.ready[0].edge by {
            assert(p.ready[0].edge != p.ready[i + 1].edge);
        }
        assert forall|i: int| 0 <= i < rest.delayed.len() implies (#[trigger] rest.delayed[i]).edge
            != p.ready[0].edge by {
            assert(p.ready[0].edge != p.delayed[i].edge);
        }
    }
    if orderly(p, s) {
        lemma_unready_kept(p, s, rest, s);
        assert forall|i: int| 0 <= i < d.len() implies s.inputs_ready(
            (#[trigger] rest.ready[i]).edge.0 as int,
        ) by {
            assert(s.inputs_ready(p.ready[i + 1].edge.0 as int));
        }
    }
    if d.len() > 0 {
        assert(!runs_before(p.ready[1], p.ready[0]));
        assert(p.ready[0].edge != p.ready[1].edge);
    }
}

/// Whether no pool with a depth is filled beyond it.
pub open spec fn within_depths(s: StateView) -> bool {
    forall|i: int|
        0 <= i < s.pools.len() && (#[trigger] s.pools[i]).depth != 0 ==> s.pools[i].current_use
            <= s.pools[i].depth
}

spec fn in_depth(s: StateView, w: Work) -> bool {
    &&& same_graph(s, w.state)
    &&& within_depths(w.state)
}

proof fn lemma_made_ready_depths(
    s: StateView,
    w: Work,
    pool: PoolId,
    edges: Seq<DelayedEdge>,
    k: int,
)
    requires
        in_depth(s, w),
        pool.0 < s.pools.len(),
        0 <= k <= edges.len(),
        w.state.pools[pool.0 as int].depth != 0 ==> w.state.pools[pool.0 as int].current_use + (
        edges.len() - k) <= w.state.pools[pool.0 as int].depth,
    ensures
        in_depth(s, made_ready(w, pool, edges, k)),
    decreases edges.len() - k,
{
    if k < edges.len() {
        let x = Work {
            plan: w.plan.with_ready(w.state, edges[k].edge),
            state: w.state.pool_taken(pool),
            ..w
        };
        lemma_same_graph_twice(s, w.state, x.state);
        lemma_made_ready_depths(s, x, pool, edges, k + 1);
    }
}

proof fn lemma_retrieved_depths(s: StateView, w: Work, pool: PoolId)
    requires
        in_depth(s, w),
        pool.0 < s.pools.len(),
    ensures
        in_depth(s, retrieved(w, pool)),
{
    reveal(retrieved);
    let edges = promoted(w.plan, w.state, pool);
    assert(edges.len() <= room_in(w.state, pool));
    lemma_made_ready_depths(
        s,
        Work {
            plan: PlanView {
                delayed: without_promoted(
                    w.plan.delayed,
                    w.state,
                    pool,
                    edges,
                    edges.len() as int,
                ),
                ..w.plan
            },
            ..w
        },
        pool,
        edges,
        0,
    );
}

proof fn lemma_scheduled_depths(s: StateView, w: Work, edge: EdgeId)
    requires
        s.wf(),
        in_depth(s, w),
        edge.0 < s.edges.len(),
    ensures
        in_depth(s, scheduled(w, edge)),
{
    lemma_same_graph_wf(s, w.state);
    assert(w.state.edge_ok(w.state.edges[edge.0 as int]));
    let pool = w.state.edges[edge.0 as int].pool;
    let p = w.plan.with_want(edge, Some(Want::ToFinish));
    lemma_retrieved_depths(s, Work { plan: p.with_delayed(w.state, edge), ..w }, pool);
    lemma_same_graph_twice(s, w.state, w.state.pool_taken(pool));
}

proof fn lemma_ended_depths(s: StateView, w: Work, edge: EdgeId, result: EdgeResult, depth: nat)
    requires
        s.wf(),
        in_depth(s, w),
        edge.0 < s.edges.len(),
        w.plan.wants(edge) == Some(Want::Nothing)
            || w.state.pools[w.state.edges[edge.0 as int].pool.0 as int].current_use > i32::MIN,
    ensures
        in_depth(s, edge_ended(w, edge, result, depth)),
    decreases depth, 0nat, 0nat,
{
    if depth > 0 {
        lemma_same_graph_wf(s, w.state);
        assert(w.state.edge_ok(w.state.edges[edge.0 as int]));
        let pool = w.state.edges[edge.0 as int].pool;
        let wanted = w.plan.wants(edge) != Some(Want::Nothing);
        let freed = if wanted {
            Work { state: w.state.pool_freed(pool), ..w }
        } else {
            w
        };
        lemma_same_graph_twice(s, w.state, freed.state);
        lemma_retrieved_depths(s, freed, pool);
        let x = retrieved(freed, pool);
        if result == EdgeResult::Succeeded {
            let y = Work {
                plan: PlanView {
                    wanted_edges: if wanted {
                        x.plan.wanted_edges.wrapping_sub(1)
                    } else {
                        x.plan.wanted_edges
                    },
                    ..x.plan.with_want(edge, None)
                },
                state: with_outputs_ready(x.state, edge),
                ..x
            };
            lemma_same_graph_twice(s, x.state, y.state);
            lemma_same_graph_wf(s, y.state);
            assert(y.state.edge_ok(y.state.edges[edge.0 as int]));
            lemma_nodes_depths(s, y, y.state.edges[edge.0 as int].outputs, 0, (depth - 1) as nat);
        }
    }
}

proof fn lemma_nodes_depths(s: StateView, w: Work, nodes: Seq<NodeId>, k: int, depth: nat)
    requires
        s.wf(),
        in_depth(s, w),
        nodes_below(nodes, s.nodes.len()),
    ensures
        in_depth(s, nodes_ended(w, nodes, k, depth)),
    decreases depth, 3nat, nodes.len() - k,
{
    if 0 <= k < nodes.len() {
        let n = w.state.nodes[nodes[k].0 as int];
        assert(s.node_ok(s.nodes[nodes[k].0 as int]));
        let x = if n.dyndep_pending {
            Work { pending: w.pending.push(nodes[k]), ..w }
        } else {
            edges_maybe_ready(w, n.out_edges, 0, depth)
        };
        if !n.dyndep_pending {
            lemma_edges_depths(s, w, n.out_edges, 0, depth);
        }
        lemma_nodes_depths(s, x, nodes, k + 1, depth);
    }
}

proof fn lemma_edges_depths(s: StateView, w: Work, edges: Seq<EdgeId>, k: int, depth: nat)
    requires
        s.wf(),
        in_depth(s, w),
        edges_below(edges, s.edges.len()),
    ensures
        in_depth(s, edges_maybe_ready(w, edges, k, depth)),
    decreases depth, 2nat, edges.len() - k,
{
    if 0 <= k < edges.len() {
        lemma_maybe_depths(s, w, edges[k], depth);
        lemma_edges_depths(s, maybe_ready(w, edges[k], depth), edges, k + 1, depth);
    }
}

proof fn lemma_maybe_depths(s: StateView, w: Work, edge: EdgeId, depth: nat)
    requires
        s.wf(),
        in_depth(s, w),
        edge.0 < s.edges.len(),
    ensures
        in_depth(s, maybe_ready(w, edge, depth)),
    decreases depth, 1nat, 0nat,
{
    if w.plan.wants(edge) is Some && w.state.inputs_ready(edge.0 as int) {
        if w.plan.wants(edge) == Some(Want::Nothing) {
            lemma_ended_depths(s, w, edge, EdgeResult::Succeeded, depth);
        } else {
            lemma_scheduled_depths(s, w, edge);
        }
    }
}

proof fn lemma_initial_depths(s: StateView, w: Work, queued: Seq<bool>, k: int, n: int)
    requires
        s.wf(),
        in_depth(s, w),
        n <= s.edges.len(),
        s.edges.len() <= usize::MAX,
        queued.len() == s.pools.len(),
    ensures
        in_depth(s, initial_edges(w, queued, k, n).0),
        initial_edges(w, queued, k, n).1.len() == s.pools.len(),
    decreases n - k,
{
    if 0 <= k < n {
        let e = EdgeId(k as usize);
        let pool = w.state.edges[k].pool;
        lemma_same_graph_wf(s, w.state);
        assert(w.state.edge_ok(w.state.edges[k]));
        if w.plan.wants(e) != Some(Want::ToStart) || !w.state.inputs_ready(k) {
            lemma_initial_depths(s, w, queued, k + 1, n);
        } else if w.state.pools[pool.0 as int].depth != 0 {
            lemma_initial_depths(
                s,
                Work {
                    plan: w.plan.with_want(e, Some(Want::ToFinish)).with_delayed(w.state, e),
                    ..w
                },
                queued.update(pool.0 as int, true),
                k + 1,
                n,
            );
        } else {
            lemma_scheduled_depths(s, w, e);
            lemma_initial_depths(s, scheduled(w, e), queued, k + 1, n);
        }
    }
}

proof fn lemma_pools_depths(s: StateView, w: Work, queued: Seq<bool>, k: int)
    requires
        in_depth(s, w),
        queued.len() == s.pools.len(),
        s.pools.len() <= usize::MAX,
    ensures
        in_depth(s, pools_retrieved(w, queued, k)),
    decreases queued.len() - k,
{
    if 0 <= k < queued.len() {
        let pool = PoolId(k as usize);
        if queued[k] {
            lemma_retrieved_depths(s, w, pool);
            lemma_pools_depths(s, retrieved(w, pool), queued, k + 1);
        } else {
            lemma_pools_depths(s, w, queued, k + 1);
        }
    }
}

/// No pool is ever filled beyond its depth: neither by filling the queue of a
/// plan, nor by noting that an edge has ended. (The use of a pool is counted
/// down once for the edge, so that the count must not be the lowest there is.)
pub proof fn law_pools_stay_within_their_depths(w: Work, edge: EdgeId, result: EdgeResult, depth: nat)
    requires
        w.state.wf(),
        w.plan.fits(w.state),
        within_depths(w.state),
        edge.0 < w.state.edges.len(),
        w.state.edges.len() <= usize::MAX,
        w.state.pools.len() <= usize::MAX,
        w.state.pools[w.state.edges[edge.0 as int].pool.0 as int].current_use > i32::MIN,
    ensures
        within_depths(initially_scheduled(w).state),
        within_depths(edge_ended(w, edge, result, depth).state),
{
    let s = w.state;
    lemma_ended_depths(s, w, edge, result, depth);
    let none = Seq::new(s.pools.len(), |i: int| false);
    let n = w.plan.want.len() as int;
    lemma_initial_depths(s, w, none, 0, n);
    let (x, queued) = initial_edges(w, none, 0, n);
    lemma_pools_depths(s, x, queued, 0);
}

/// Whether `p` makes an input of edge `e`.
pub open spec fn makes_input_of(s: StateView, p: EdgeId, e: int) -> bool {
    exists|k: int|
        0 <= k < s.edges[e].inputs.len() && s.nodes[(#[trigger] s.edges[e].inputs[k]).0 as int].in_edge
            == Some(p)
}

/// Whether the edges of `reach`, with which it holds all that make their inputs,
/// are in no cycle, as ranks show: what makes an input of an edge ranks below it.
pub open spec fn acyclic_by(s: StateView, rank: Seq<nat>, reach: Seq<bool>) -> bool {
    &&& rank.len() == s.edges.len()
    &&& reach.len() == s.edges.len()
    &&& forall|p: EdgeId, e: int|
        0 <= e < s.edges.len() && reach[e] && #[trigger] makes_input_of(s, p, e) ==> p.0
            < s.edges.len() && reach[p.0 as int] && rank[p.0 as int] < rank[e]
}

/// Whether what makes the targets is among the edges of `reach`.
pub open spec fn makers_reached(s: StateView, targets: Seq<NodeId>, reach: Seq<bool>) -> bool {
    forall|i: int|
        0 <= i < targets.len() ==> match s.nodes[(#[trigger] targets[i]).0 as int].in_edge {
            Some(e) => e.0 < reach.len() && reach[e.0 as int],
            None => true,
        }
}

/// Whether the edges are distinct, and each stands behind all that make its
/// inputs.
pub open spec fn producers_first(s: StateView, v: Seq<EdgeId>) -> bool {
    &&& edges_below(v, s.edges.len())
    &&& v.no_duplicates()
    &&& forall|i: int, p: EdgeId|
        0 <= i < v.len() && #[trigger] makes_input_of(s, p, v[i].0 as int) ==> v.take(i).contains(p)
}

spec fn edge_of(x: Step) -> EdgeId {
    match x {
        Step::Visit(e) => e,
        Step::Emit(e) => e,
    }
}

spec fn stands_above(steps: Seq<Step>, x: Step, i: int) -> bool {
    exists|j: int| i < j < steps.len() && #[trigger] steps[j] == x
}

spec fn provided(steps: Seq<Step>, sorted: Seq<EdgeId>, p: EdgeId, i: int) -> bool {
    ||| sorted.contains(p)
    ||| stands_above(steps, Step::Visit(p), i)
    ||| stands_above(steps, Step::Emit(p), i)
}

spec fn walk_ok(
    s: StateView,
    rank: Seq<nat>,
    reach: Seq<bool>,
    seen: Seq<bool>,
    steps: Seq<Step>,
    sorted: Seq<EdgeId>,
) -> bool {
    &&& seen.len() == s.edges.len()
    &&& producers_first(s, sorted)
    &&& forall|i: int|
        0 <= i < steps.len() ==> edge_of(#[trigger] steps[i]).0 < s.edges.len() && reach[edge_of(
            steps[i],
        ).0 as int]
    &&& forall|i: int| 0 <= i < sorted.len() ==> seen[(#[trigger] sorted[i]).0 as int]
    &&& forall|i: int|
        0 <= i < steps.len() && (#[trigger] steps[i]) is Emit ==> seen[edge_of(steps[i]).0 as int]
            && !sorted.contains(edge_of(steps[i]))
    &&& forall|e: int|
        0 <= e < seen.len() && #[trigger] seen[e] ==> sorted.contains(EdgeId(e as usize))
            || stands_above(steps, Step::Emit(EdgeId(e as usize)), -1)
    &&& forall|i: int, j: int|
        0 <= i < j < steps.len() && (#[trigger] steps[i]) is Emit ==> rank[edge_of(
            #[trigger] steps[j],
        ).0 as int] < rank[edge_of(steps[i]).0 as int]
    &&& forall|i: int, p: EdgeId|
        0 <= i < steps.len() && steps[i] is Emit && #[trigger] makes_input_of(
            s,
            p,
            edge_of(steps[i]).0 as int,
        ) ==> provided(steps, sorted, p, i)
}

proof fn lemma_producer_steps(
    s: StateView,
    seen: Seq<bool>,
    steps: Seq<Step>,
    e: int,
    k: int,
)
    requires
        0 <= e < s.edges.len(),
        0 <= k,
    ensures
        ({
            let inputs = s.edges[e].inputs;
            let r = producer_steps(s, seen, steps, inputs, k);
            &&& steps.len() <= r.len()
            &&& forall|i: int| 0 <= i < steps.len() ==> #[trigger] r[i] == steps[i]
            &&& forall|i: int|
                steps.len() <= i < r.len() ==> (#[trigger] r[i]) is Visit && makes_input_of(
                    s,
                    edge_of(r[i]),
                    e,
                )
            &&& forall|j: int|
                k <= j < inputs.len() ==> match s.nodes[(#[trigger] inputs[j]).0 as int].in_edge {
                    Some(p) => seen[p.0 as int] || stands_above(
                        r,
                        Step::Visit(p),
                        steps.len() - 1,
                    ),
                    None => true,
                }
        }),
    decreases s.edges[e].inputs.len() - k,
{
    let inputs = s.edges[e].inputs;
    if k < inputs.len() {
        let made = s.nodes[inputs[k].0 as int].in_edge;
        let more = match made {
            Some(p) => if seen[p.0 as int] {
                steps
            } else {
                steps.push(Step::Visit(p))
            },
            None => steps,
        };
        lemma_producer_steps(s, seen, more, e, k + 1);
        let r = producer_steps(s, seen, more, inputs, k + 1);
        if more.len() > steps.len() {
            let at = steps.len() as int;
            assert(r[at] == more[at]);
            assert(edge_of(r[at]) == made->0);
            assert(makes_input_of(s, made->0, e));
        }
        assert forall|i: int| 0 <= i < steps.len() implies #[trigger] r[i] == steps[i] by {
            assert(r[i] == more[i]);
        }
        assert forall|j: int| k <= j < inputs.len() implies match s.nodes[(
        #[trigger] inputs[j]).0 as int].in_edge {
            Some(p) => seen[p.0 as int] || stands_above(r, Step::Visit(p), steps.len() - 1),
            None => true,
        } by {
            if j > k && s.nodes[inputs[j].0 as int].in_edge is Some {
                let p = s.nodes[inputs[j].0 as int].in_edge->0;
                if !seen[p.0 as int] {
                    let q = choose|q: int|
                        more.len() - 1 < q < r.len() && #[trigger] r[q] == Step::Visit(p);
                    assert(r[q] == Step::Visit(p));
                }
            }
        }
    }
}

proof fn lemma_emitted(
    s: StateView,
    rank: Seq<nat>,
    reach: Seq<bool>,
    seen: Seq<bool>,
    steps: Seq<Step>,
    sorted: Seq<EdgeId>,
    e: EdgeId,
)
    requires
        s.edges.len() <= usize::MAX,
        acyclic_by(s, rank, reach),
        walk_ok(s, rank, reach, seen, steps, sorted),
        steps.len() > 0,
        steps.last() == Step::Emit(e),
    ensures
        walk_ok(s, rank, reach, seen, steps.drop_last(), sorted.push(e)),
{
    let rest = steps.drop_last();
    let more = sorted.push(e);
    let top = steps.len() - 1;
    assert(steps[top] == Step::Emit(e));
    assert(edge_of(steps[top]) == e);
    assert(more.last() == e);
    assert(more.contains(e)) by {
        assert(more[sorted.len() as int] == e);
    }
    assert forall|x: EdgeId| #[trigger] sorted.contains(x) implies more.contains(x) by {
        let k = choose|k: int| 0 <= k < sorted.len() && sorted[k] == x;
        assert(more[k] == x);
    }
    assert forall|i: int, p: EdgeId|
        0 <= i < more.len() && #[trigger] makes_input_of(s, p, more[i].0 as int) implies more.take(
        i,
    ).contains(p) by {
        if i < sorted.len() {
            assert(more[i] == sorted[i]);
            assert(sorted.take(i).contains(p));
            assert(more.take(i) =~= sorted.take(i));
        } else {
            assert(makes_input_of(s, p, edge_of(steps[top]).0 as int));
            assert(provided(steps, sorted, p, top));
            assert(sorted.contains(p));
            assert(more.take(i) =~= sorted);
        }
    }
    assert(more.no_duplicates()) by {
        assert forall|i: int, j: int| 0 <= i < more.len() && 0 <= j < more.len() && i != j implies
            more[i] != more[j] by {
            if i == sorted.len() {
                assert(sorted[j] == more[j]);
                assert(!sorted.contains(e));
            } else if j == sorted.len() {
                assert(sorted[i] == more[i]);
                assert(!sorted.contains(e));
            } else {
                assert(sorted[i] == more[i] && sorted[j] == more[j]);
            }
        }
    }
    assert forall|i: int| 0 <= i < rest.len() && (#[trigger] rest[i]) is Emit implies seen[edge_of(
        rest[i],
    ).0 as int] && !more.contains(edge_of(rest[i])) by {
        assert(rest[i] == steps[i]);
        assert(rank[edge_of(steps[top]).0 as int] < rank[edge_of(steps[i]).0 as int]);
        if more.contains(edge_of(rest[i])) {
            let k = choose|k: int| 0 <= k < more.len() && more[k] == edge_of(rest[i]);
            if k < sorted.len() {
                assert(sorted[k] == edge_of(rest[i]));
            }
        }
    }
    assert forall|x: int| 0 <= x < seen.len() && #[trigger] seen[x] implies more.contains(
        EdgeId(x as usize),
    ) || stands_above(rest, Step::Emit(EdgeId(x as usize)), -1) by {
        let y = EdgeId(x as usize);
        if !sorted.contains(y) {
            let j = choose|j: int| -1 < j < steps.len() && #[trigger] steps[j] == Step::Emit(y);
            if j < top {
                assert(rest[j] == Step::Emit(y));
            } else {
                assert(y == e);
            }
        }
    }
    assert forall|i: int, p: EdgeId|
        0 <= i < rest.len() && rest[i] is Emit && #[trigger] makes_input_of(
            s,
            p,
            edge_of(rest[i]).0 as int,
        ) implies provided(rest, more, p, i) by {
        assert(rest[i] == steps[i]);
        assert(makes_input_of(s, p, edge_of(steps[i]).0 as int));
        assert(provided(steps, sorted, p, i));
        if stands_above(steps, Step::Visit(p), i) {
            let j = choose|j: int| i < j < steps.len() && #[trigger] steps[j] == Step::Visit(p);
            assert(rest[j] == steps[j]);
        } else if stands_above(steps, Step::Emit(p), i) {
            let j = choose|j: int| i < j < steps.len() && #[trigger] steps[j] == Step::Emit(p);
            if j < top {
                assert(rest[j] == steps[j]);
            } else {
                assert(p == e);
            }
        }
    }
}

proof fn lemma_skipped(
    s: StateView,
    rank: Seq<nat>,
    reach: Seq<bool>,
    seen: Seq<bool>,
    steps: Seq<Step>,
    sorted: Seq<EdgeId>,
    e: EdgeId,
)
    requires
        s.edges.len() <= usize::MAX,
        acyclic_by(s, rank, reach),
        walk_ok(s, rank, reach, seen, steps, sorted),
        steps.len() > 0,
        steps.last() == Step::Visit(e),
        seen[e.0 as int],
    ensures
        walk_ok(s, rank, reach, seen, steps.drop_last(), sorted),
{
    let rest = steps.drop_last();
    let top = steps.len() - 1;
    assert(steps[top] == Step::Visit(e));
    assert(edge_of(steps[top]) == e);
    assert forall|x: int| 0 <= x < seen.len() && #[trigger] seen[x] implies sorted.contains(
        EdgeId(x as usize),
    ) || stands_above(rest, Step::Emit(EdgeId(x as usize)), -1) by {
        let y = EdgeId(x as usize);
        if !sorted.contains(y) {
            let j = choose|j: int| -1 < j < steps.len() && #[trigger] steps[j] == Step::Emit(y);
            assert(rest[j] == Step::Emit(y));
        }
    }
    assert forall|i: int, p: EdgeId|
        0 <= i < rest.len() && rest[i] is Emit && #[trigger] makes_input_of(
            s,
            p,
            edge_of(rest[i]).0 as int,
        ) implies provided(rest, sorted, p, i) by {
        assert(rest[i] == steps[i]);
        assert(makes_input_of(s, p, edge_of(steps[i]).0 as int));
        assert(provided(steps, sorted, p, i));
        if stands_above(steps, Step::Emit(p), i) {
            let j = choose|j: int| i < j < steps.len() && #[trigger] steps[j] == Step::Emit(p);
            assert(rest[j] == steps[j]);
        } else if !sorted.contains(p) {
            let j = choose|j: int| i < j < steps.len() && #[trigger] steps[j] == Step::Visit(p);
            if j < top {
                assert(rest[j] == steps[j]);
            } else {
                assert(p == e);
                assert(EdgeId(e.0 as int as usize) == e);
                assert(seen[e.0 as int]);
                let q = choose|q: int| -1 < q < steps.len() && #[trigger] steps[q] == Step::Emit(e);
                assert(steps[q] == Step::Emit(e));
                assert(edge_of(steps[q]) == e);
                if q < i {
                    assert(rank[edge_of(steps[i]).0 as int] < rank[edge_of(steps[q]).0 as int]);
                }
                assert(q > i);
                assert(rest[q] == steps[q]);
            }
        }
    }
}

proof fn lemma_visited(
    s: StateView,
    rank: Seq<nat>,
    reach: Seq<bool>,
    seen: Seq<bool>,
    steps: Seq<Step>,
    sorted: Seq<EdgeId>,
    e: EdgeId,
)
    requires
        s.edges.len() <= usize::MAX,
        acyclic_by(s, rank, reach),
        walk_ok(s, rank, reach, seen, steps, sorted),
        steps.len() > 0,
        steps.last() == Step::Visit(e),
        !seen[e.0 as int],
    ensures
        ({
            let now = seen.update(e.0 as int, true);
            walk_ok(
                s,
                rank,
                reach,
                now,
                producer_steps(
                    s,
                    now,
                    steps.drop_last().push(Step::Emit(e)),
                    s.edges[e.0 as int].inputs,
                    0,
                ),
                sorted,
            )
        }),
{
    let now = seen.update(e.0 as int, true);
    let top = steps.len() - 1;
    let base = steps.drop_last().push(Step::Emit(e));
    let inputs = s.edges[e.0 as int].inputs;
    let r = producer_steps(s, now, base, inputs, 0);
    assert(steps[top] == Step::Visit(e));
    assert(edge_of(steps[top]) == e);
    lemma_producer_steps(s, now, base, e.0 as int, 0);
    assert(r[top] == base[top]);
    assert(r[top] == Step::Emit(e));
    assert(edge_of(r[top]) == e);
    assert(!sorted.contains(e)) by {
        if sorted.contains(e) {
            let k = choose|k: int| 0 <= k < sorted.len() && sorted[k] == e;
            assert(seen[sorted[k].0 as int]);
        }
    }
    assert forall|i: int| 0 <= i < top implies #[trigger] r[i] == steps[i] by {
        assert(r[i] == base[i]);
    }
    assert forall|i: int| 0 <= i < r.len() implies edge_of(#[trigger] r[i]).0 < s.edges.len()
        && reach[edge_of(r[i]).0 as int] by {
        if i < top {
            assert(r[i] == steps[i]);
        } else if i > top {
            assert(makes_input_of(s, edge_of(r[i]), e.0 as int));
        }
    }
    assert forall|i: int| 0 <= i < r.len() && (#[trigger] r[i]) is Emit implies now[edge_of(
        r[i],
    ).0 as int] && !sorted.contains(edge_of(r[i])) by {
        if i < top {
            assert(r[i] == steps[i]);
        }
    }
    assert forall|x: int| 0 <= x < now.len() && #[trigger] now[x] implies sorted.contains(
        EdgeId(x as usize),
    ) || stands_above(r, Step::Emit(EdgeId(x as usize)), -1) by {
        let y = EdgeId(x as usize);
        if y == e {
            assert(r[top] == Step::Emit(y));
        } else {
            assert(seen[x]);
            if !sorted.contains(y) {
                let j = choose|j: int| -1 < j < steps.len() && #[trigger] steps[j] == Step::Emit(y);
                assert(r[j] == Step::Emit(y));
            }
        }
    }
    assert forall|i: int, j: int|
        0 <= i < j < r.len() && (#[trigger] r[i]) is Emit implies rank[edge_of(
        #[trigger] r[j],
    ).0 as int] < rank[edge_of(r[i]).0 as int] by {
        assert(i <= top);
        if j > top {
            assert(makes_input_of(s, edge_of(r[j]), e.0 as int));
        }
        if i < top {
            assert(r[i] == steps[i]);
            assert(rank[edge_of(steps[top]).0 as int] < rank[edge_of(steps[i]).0 as int]);
            if j < top {
                assert(r[j] == steps[j]);
            }
        }
    }
    assert forall|i: int, p: EdgeId|
        0 <= i < r.len() && r[i] is Emit && #[trigger] makes_input_of(
            s,
            p,
            edge_of(r[i]).0 as int,
        ) implies provided(r, sorted, p, i) by {
        assert(i <= top);
        if i < top {
            assert(r[i] == steps[i]);
            assert(makes_input_of(s, p, edge_of(steps[i]).0 as int));
            assert(provided(steps, sorted, p, i));
            if stands_above(steps, Step::Emit(p), i) {
                let j = choose|j: int| i < j < steps.len() && #[trigger] steps[j] == Step::Emit(p);
                assert(r[j] == steps[j]);
            } else if !sorted.contains(p) {
                let j = choose|j: int| i < j < steps.len() && #[trigger] steps[j] == Step::Visit(p);
                if j < top {
                    assert(r[j] == steps[j]);
                } else {
                    assert(r[top] == Step::Emit(p));
                }
            }
        } else {
            let k = choose|k: int|
                0 <= k < s.edges[e.0 as int].inputs.len() && s.nodes[(
                #[trigger] s.edges[e.0 as int].inputs[k]).0 as int].in_edge == Some(p);
            assert(inputs[k] == s.edges[e.0 as int].inputs[k]);
            assert(rank[p.0 as int] < rank[e.0 as int]);
            if now[p.0 as int] {
                assert(seen[p.0 as int]);
                assert(EdgeId(p.0 as int as usize) == p);
                if !sorted.contains(p) {
                    let q = choose|q: int|
                        -1 < q < steps.len() && #[trigger] steps[q] == Step::Emit(p);
                    assert(edge_of(steps[q]) == p);
                    assert(rank[edge_of(steps[top]).0 as int] < rank[edge_of(steps[q]).0 as int]);
                }
            } else {
                assert(stands_above(r, Step::Visit(p), base.len() - 1));
            }
        }
    }
}

proof fn lemma_walked(
    s: StateView,
    rank: Seq<nat>,
    reach: Seq<bool>,
    seen: Seq<bool>,
    steps: Seq<Step>,
    sorted: Seq<EdgeId>,
)
    requires
        s.edges.len() <= usize::MAX,
        acyclic_by(s, rank, reach),
        walk_ok(s, rank, reach, seen, steps, sorted),
    ensures
        producers_first(s, walked(s, seen, steps, sorted)),
    decreases unseen(seen), steps.len(),
{
    if steps.len() > 0 {
        let top = steps.len() - 1;
        assert(steps[top] == steps.last());
        match steps.last() {
            Step::Emit(e) => {
                lemma_emitted(s, rank, reach, seen, steps, sorted, e);
                lemma_walked(s, rank, reach, seen, steps.drop_last(), sorted.push(e));
            },
            Step::Visit(e) => {
                assert(edge_of(steps[top]) == e);
                if seen[e.0 as int] {
                    lemma_skipped(s, rank, reach, seen, steps, sorted, e);
                    lemma_walked(s, rank, reach, seen, steps.drop_last(), sorted);
                } else {
                    lemma_visited(s, rank, reach, seen, steps, sorted, e);
                    lemma_unseen(seen, e.0 as int);
                    let now = seen.update(e.0 as int, true);
                    lemma_walked(
                        s,
                        rank,
                        reach,
                        now,
                        producer_steps(
                            s,
                            now,
                            steps.drop_last().push(Step::Emit(e)),
                            s.edges[e.0 as int].inputs,
                            0,
                        ),
                        sorted,
                    );
                }
            },
        }
    }
}

proof fn lemma_target_steps(s: StateView, targets: Seq<NodeId>, reach: Seq<bool>)
    requires
        s.wf(),
        nodes_below(targets, s.nodes.len()),
        makers_reached(s, targets, reach),
    ensures
        forall|i: int|
            0 <= i < target_steps(s, targets).len() ==> (#[trigger] target_steps(s, targets)[i]) is Visit
                && edge_of(target_steps(s, targets)[i]).0 < s.edges.len() && reach[edge_of(
                target_steps(s, targets)[i],
            ).0 as int],
    decreases targets.len(),
{
    if targets.len() > 0 {
        assert(nodes_below(targets.drop_first(), s.nodes.len()));
        assert(s.node_ok(s.nodes[targets[0].0 as int]));
        assert(makers_reached(s, targets.drop_first(), reach)) by {
            let rest = targets.drop_first();
            assert forall|i: int| 0 <= i < rest.len() implies match s.nodes[(
            #[trigger] rest[i]).0 as int].in_edge {
                Some(e) => e.0 < reach.len() && reach[e.0 as int],
                None => true,
            } by {
                assert(rest[i] == targets[i + 1]);
            }
        }
        lemma_target_steps(s, targets.drop_first(), reach);
    }
}

/// Edges are put in an order in which each stands behind all that make its
/// inputs, where what the targets need has no cycle.
pub proof fn law_producers_are_sorted_first(s: StateView, rank: Seq<nat>, reach: Seq<bool>, targets: Seq<NodeId>)
    requires
        s.wf(),
        s.edges.len() <= usize::MAX,
        nodes_below(targets, s.nodes.len()),
        acyclic_by(s, rank, reach),
        makers_reached(s, targets, reach),
    ensures
        producers_first(s, sorted_edges(s, targets)),
{
    lemma_target_steps(s, targets, reach);
    lemma_walked(
        s,
        rank,
        reach,
        Seq::new(s.edges.len(), |i: int| false),
        target_steps(s, targets),
        Seq::empty(),
    );
}

/// The priority of an edge.
pub open spec fn priority(s: StateView, edge: EdgeId) -> i64 {
    s.edges[edge.0 as int].critical_path_weight
}

/// Whether every edge of `v` from the `k`-th on weighs less than what makes its
/// inputs, by what that weighs itself.
pub open spec fn weights_add_up(s: StateView, v: Seq<EdgeId>, k: int) -> bool {
    forall|i: int, p: EdgeId|
        k <= i < v.len() && #[trigger] makes_input_of(s, p, v[i].0 as int) ==> priority(s, v[i])
            + own_weight(s, p) <= priority(s, p)
}

#[verifier::spinoff_prover]
#[verifier::rlimit(40)]
proof fn lemma_producers_raised(s: StateView, w: i64, e: int, k: int)
    requires
        0 <= k,
        0 <= e < s.edges.len(),
        w < i64::MAX,
        forall|p: EdgeId| #[trigger] makes_input_of(s, p, e) ==> p.0 < s.edges.len(),
    ensures
        ({
            let t = producers_raised(s, w, s.edges[e].inputs, k);
            &&& same_but_weights(s, t)
            &&& forall|x: EdgeId|
                x.0 < s.edges.len() ==> priority(s, x) <= #[trigger] priority(t, x) && (priority(
                    t,
                    x,
                ) <= priority(s, x) || priority(t, x) <= w + 1)
            &&& forall|x: EdgeId|
                x.0 < s.edges.len() && !makes_input_of(s, x, e) ==> #[trigger] priority(t, x)
                    == priority(s, x)
            &&& forall|j: int|
                k <= j < s.edges[e].inputs.len() ==> match s.nodes[(
                #[trigger] s.edges[e].inputs[j]).0 as int].in_edge {
                    Some(p) => w + own_weight(s, p) <= priority(t, p),
                    None => true,
                }
        }),
    decreases s.edges[e].inputs.len() - k,
{
    let inputs = s.edges[e].inputs;
    if k < inputs.len() {
        let made = s.nodes[inputs[k].0 as int].in_edge;
        let next = match made {
            Some(p) => {
                let c = w.wrapping_add(own_weight(s, p));
                if c > s.edges[p.0 as int].critical_path_weight {
                    with_weight(s, p, c)
                } else {
                    s
                }
            },
            None => s,
        };
        if made is Some {
            assert(makes_input_of(s, made->0, e));
        }
        assert(next.edges[e].inputs == inputs);
        assert forall|p: EdgeId| #[trigger] makes_input_of(next, p, e) implies makes_input_of(s, p, e) by {
            let j = choose|j: int|
                0 <= j < next.edges[e].inputs.len() && next.nodes[(
                #[trigger] next.edges[e].inputs[j]).0 as int].in_edge == Some(p);
            assert(s.nodes[s.edges[e].inputs[j].0 as int].in_edge == Some(p));
        }
        assert forall|p: EdgeId| #[trigger] makes_input_of(s, p, e) implies makes_input_of(next, p, e) by {
            let j = choose|j: int|
                0 <= j < s.edges[e].inputs.len() && s.nodes[(
                #[trigger] s.edges[e].inputs[j]).0 as int].in_edge == Some(p);
            assert(next.nodes[next.edges[e].inputs[j].0 as int].in_edge == Some(p));
        }
        lemma_producers_raised(next, w, e, k + 1);
        let t = producers_raised(next, w, inputs, k + 1);
        assert(same_but_weights(s, next));
        lemma_same_but_weights_twice(s, next, t);
        assert forall|x: EdgeId| x.0 < s.edges.len() implies priority(s, x) <= #[trigger] priority(
            t,
            x,
        ) && (priority(t, x) <= priority(s, x) || priority(t, x) <= w + 1) by {
            assert(priority(next, x) <= priority(t, x));
        }
        assert forall|x: EdgeId|
            x.0 < s.edges.len() && !makes_input_of(s, x, e) implies #[trigger] priority(t, x)
            == priority(s, x) by {
            assert(priority(next, x) == priority(s, x));
        }
        assert forall|j: int| k <= j < inputs.len() implies match s.nodes[(
        #[trigger] s.edges[e].inputs[j]).0 as int].in_edge {
            Some(p) => w + own_weight(s, p) <= priority(t, p),
            None => true,
        } by {
            assert(next.edges[e].inputs[j] == inputs[j]);
            if s.nodes[inputs[j].0 as int].in_edge is Some {
                let p = s.nodes[inputs[j].0 as int].in_edge->0;
                assert(makes_input_of(s, p, e));
                assert(own_weight(next, p) == own_weight(s, p));
                if j == k {
                    assert(priority(next, p) <= priority(t, p));
                }
            }
        }
    }
}

proof fn lemma_same_producers(s: StateView, t: StateView, p: EdgeId, e: int)
    requires
        same_but_weights(s, t),
        0 <= e < s.edges.len(),
    ensures
        makes_input_of(t, p, e) == makes_input_of(s, p, e),
        p.0 < s.edges.len() ==> own_weight(t, p) == own_weight(s, p),
{
    assert(t.edges[e].inputs == s.edges[e].inputs);
    if makes_input_of(s, p, e) {
        let j = choose|j: int|
            0 <= j < s.edges[e].inputs.len() && s.nodes[(
            #[trigger] s.edges[e].inputs[j]).0 as int].in_edge == Some(p);
        assert(t.nodes[t.edges[e].inputs[j].0 as int].in_edge == Some(p));
    }
    if makes_input_of(t, p, e) {
        let j = choose|j: int|
            0 <= j < t.edges[e].inputs.len() && t.nodes[(
            #[trigger] t.edges[e].inputs[j]).0 as int].in_edge == Some(p);
        assert(s.nodes[s.edges[e].inputs[j].0 as int].in_edge == Some(p));
    }
}

/// Whether every edge of `v` weighs what it weighs itself, or that and what one
/// of the edges from the `k`-th on weighs that it makes an input of.
pub open spec fn weights_explained(s: StateView, v: Seq<EdgeId>, k: int) -> bool {
    forall|j: int| 0 <= j < v.len() ==> weight_explained(s, v, k, #[trigger] v[j])
}

/// Whether `e` weighs what it weighs itself, or that and what one of the edges
/// of `v` from the `k`-th on weighs that it makes an input of.
pub open spec fn weight_explained(s: StateView, v: Seq<EdgeId>, k: int, e: EdgeId) -> bool {
    ||| priority(s, e) == own_weight(s, e)
    ||| exists|i: int|
        k <= i < v.len() && makes_input_of(s, e, (#[trigger] v[i]).0 as int) && priority(s, e)
            == priority(s, v[i]) + own_weight(s, e)
}

#[verifier::spinoff_prover]
proof fn lemma_raised_exactly(s: StateView, w: i64, e: int, k: int)
    requires
        0 <= k,
        0 <= e < s.edges.len(),
        w < i64::MAX,
        forall|p: EdgeId| #[trigger] makes_input_of(s, p, e) ==> p.0 < s.edges.len(),
    ensures
        ({
            let t = producers_raised(s, w, s.edges[e].inputs, k);
            forall|x: EdgeId|
                x.0 < s.edges.len() ==> #[trigger] priority(t, x) == priority(s, x) || (
                makes_input_of(s, x, e) && priority(t, x) == w + own_weight(s, x))
        }),
    decreases s.edges[e].inputs.len() - k,
{
    let inputs = s.edges[e].inputs;
    if k < inputs.len() {
        let made = s.nodes[inputs[k].0 as int].in_edge;
        let next = match made {
            Some(p) => {
                let c = w.wrapping_add(own_weight(s, p));
                if c > s.edges[p.0 as int].critical_path_weight {
                    with_weight(s, p, c)
                } else {
                    s
                }
            },
            None => s,
        };
        if made is Some {
            assert(makes_input_of(s, made->0, e));
        }
        assert(same_but_weights(s, next));
        assert(next.edges[e].inputs == inputs);
        assert forall|p: EdgeId| #[trigger] makes_input_of(next, p, e) implies p.0
            < next.edges.len() by {
            lemma_same_producers(s, next, p, e);
        }
        lemma_raised_exactly(next, w, e, k + 1);
        let t = producers_raised(next, w, inputs, k + 1);
        assert forall|x: EdgeId| x.0 < s.edges.len() implies #[trigger] priority(t, x) == priority(
            s,
            x,
        ) || (makes_input_of(s, x, e) && priority(t, x) == w + own_weight(s, x)) by {
            lemma_same_producers(s, next, x, e);
            assert(priority(t, x) == priority(next, x) || (makes_input_of(next, x, e) && priority(
                t,
                x,
            ) == w + own_weight(next, x)));
        }
    }
}

proof fn lemma_weights_spread(s: StateView, v: Seq<EdgeId>, k: int)
    requires
        0 <= k <= v.len(),
        v.len() < i64::MAX - 1,
        producers_first(s, v),
        weights_add_up(s, v, k),
        weights_explained(s, v, k),
        forall|i: int| 0 <= i < v.len() ==> priority(s, #[trigger] v[i]) <= v.len() - k + 1,
        forall|i: int| 0 <= i < v.len() ==> own_weight(s, #[trigger] v[i]) <= priority(s, v[i]),
    ensures
        same_but_weights(s, weights_spread(s, v, k)),
        weights_add_up(weights_spread(s, v, k), v, 0),
        weights_explained(weights_spread(s, v, k), v, 0),
        forall|i: int|
            0 <= i < v.len() ==> own_weight(weights_spread(s, v, k), #[trigger] v[i]) <= priority(
                weights_spread(s, v, k),
                v[i],
            ),
    decreases k,
{
    if k > 0 {
        let e = v[k - 1];
        let x = e.0 as int;
        let w = priority(s, e);
        let t = producers_raised(s, w, s.edges[x].inputs, 0);
        assert forall|p: EdgeId| #[trigger] makes_input_of(s, p, x) implies p.0 < s.edges.len() by {
            assert(makes_input_of(s, p, v[k - 1].0 as int));
            assert(v.take(k - 1).contains(p));
            let front = v.take(k - 1);
            let j = choose|j: int| 0 <= j < front.len() && front[j] == p;
            assert(v[j] == p);
        }
        lemma_producers_raised(s, w, x, 0);
        // What is raised stands in front of the edge.
        assert forall|i: int| k - 1 <= i < v.len() implies priority(t, #[trigger] v[i]) == priority(
            s,
            v[i],
        ) by {
            if makes_input_of(s, v[i], x) {
                assert(makes_input_of(s, v[i], v[k - 1].0 as int));
                assert(v.take(k - 1).contains(v[i]));
                let front = v.take(k - 1);
                let j = choose|j: int| 0 <= j < front.len() && front[j] == v[i];
                assert(v[j] == v[i]);
            }
        }
        assert forall|i: int, p: EdgeId|
            0 <= i < v.len() && #[trigger] makes_input_of(t, p, v[i].0 as int) implies v.take(
            i,
        ).contains(p) by {
            lemma_same_producers(s, t, p, v[i].0 as int);
        }
        assert(producers_first(t, v));
        assert forall|i: int, p: EdgeId|
            k - 1 <= i < v.len() && #[trigger] makes_input_of(t, p, v[i].0 as int) implies priority(
            t,
            v[i],
        ) + own_weight(t, p) <= priority(t, p) by {
            lemma_same_producers(s, t, p, v[i].0 as int);
            assert(v.take(i).contains(p));
            let front = v.take(i);
            let j = choose|j: int| 0 <= j < front.len() && front[j] == p;
            assert(v[j] == p);
            assert(p.0 < s.edges.len());
            assert(priority(s, p) <= priority(t, p));
            if i == k - 1 {
                let q = choose|q: int|
                    0 <= q < s.edges[x].inputs.len() && s.nodes[(
                    #[trigger] s.edges[x].inputs[q]).0 as int].in_edge == Some(p);
                assert(s.nodes[s.edges[x].inputs[q].0 as int].in_edge == Some(p));
            }
        }
        assert forall|i: int| 0 <= i < v.len() implies priority(t, #[trigger] v[i]) <= v.len() - (k
            - 1) + 1 by {
            assert(v[k - 1] == e);
            assert(priority(s, v[i]) <= v.len() - k + 1);
        }
        lemma_raised_exactly(s, w, x, 0);
        assert forall|j: int| 0 <= j < v.len() implies weight_explained(
            t,
            v,
            k - 1,
            #[trigger] v[j],
        ) && own_weight(t, v[j]) <= priority(t, v[j]) by {
            let y = v[j];
            assert(weight_explained(s, v, k, y));
            lemma_same_producers(s, t, y, x);
            assert(priority(s, y) <= priority(t, y));
            assert(own_weight(s, y) <= priority(s, y));
            if priority(t, y) == priority(s, y) {
                if priority(s, y) != own_weight(s, y) {
                    let i = choose|i: int|
                        k <= i < v.len() && makes_input_of(s, y, (#[trigger] v[i]).0 as int)
                            && priority(s, y) == priority(s, v[i]) + own_weight(s, y);
                    lemma_same_producers(s, t, y, v[i].0 as int);
                    assert(priority(t, v[i]) == priority(s, v[i]));
                }
            } else {
                assert(priority(t, v[k - 1]) == w);
                assert(makes_input_of(t, y, v[k - 1].0 as int));
            }
        }
        lemma_weights_spread(t, v, k - 1);
        lemma_same_but_weights_twice(s, t, weights_spread(t, v, k - 1));
    }
}

proof fn lemma_own_weights(s: StateView, v: Seq<EdgeId>, k: int)
    requires
        0 <= k <= v.len(),
        edges_below(v, s.edges.len()),
    ensures
        same_but_weights(s, own_weights(s, v, k)),
        forall|i: int|
            0 <= i < k ==> priority(own_weights(s, v, k), #[trigger] v[i]) == own_weight(s, v[i]),
    decreases k,
{
    if k > 0 {
        lemma_own_weights(s, v, k - 1);
        let t = own_weights(s, v, k - 1);
        let u = own_weights(s, v, k);
        assert(same_but_weights(t, u));
        lemma_same_but_weights_twice(s, t, u);
        assert forall|i: int| 0 <= i < k implies priority(u, #[trigger] v[i]) == own_weight(
            s,
            v[i],
        ) by {
            assert(own_weight(t, v[i]) == own_weight(s, v[i]));
            if v[i].0 != v[k - 1].0 {
                assert(priority(t, v[i]) == own_weight(s, v[i]));
            }
        }
    }
}

proof fn lemma_weighed(s: StateView, rank: Seq<nat>, reach: Seq<bool>, targets: Seq<NodeId>)
    requires
        s.wf(),
        s.edges.len() < i64::MAX - 1,
        s.edges.len() <= usize::MAX,
        nodes_below(targets, s.nodes.len()),
        acyclic_by(s, rank, reach),
        makers_reached(s, targets, reach),
    ensures
        ({
            let t = weighed(s, targets);
            let v = sorted_edges(s, targets);
            &&& producers_first(t, v)
            &&& weights_add_up(t, v, 0)
            &&& weights_explained(t, v, 0)
            &&& forall|i: int| 0 <= i < v.len() ==> own_weight(t, #[trigger] v[i]) <= priority(t, v[i])
        }),
{
    let v = sorted_edges(s, targets);
    let n = v.len() as int;
    law_producers_are_sorted_first(s, rank, reach, targets);
    lemma_distinct_ids(v, s.edges.len());
    lemma_own_weights(s, v, n);
    let t = own_weights(s, v, n);
    assert forall|i: int, p: EdgeId|
        0 <= i < v.len() && #[trigger] makes_input_of(t, p, v[i].0 as int) implies v.take(
        i,
    ).contains(p) by {
        lemma_same_producers(s, t, p, v[i].0 as int);
    }
    assert forall|j: int| 0 <= j < v.len() implies weight_explained(t, v, n, #[trigger] v[j])
        && own_weight(t, v[j]) <= priority(t, v[j]) by {
        assert(priority(t, v[j]) == own_weight(s, v[j]));
        assert(own_weight(t, v[j]) == own_weight(s, v[j]));
    }
    lemma_weights_spread(t, v, n);
    let u = weighed(s, targets);
    assert forall|i: int, p: EdgeId|
        0 <= i < v.len() && #[trigger] makes_input_of(u, p, v[i].0 as int) implies v.take(
        i,
    ).contains(p) by {
        lemma_same_producers(t, u, p, v[i].0 as int);
    }
}

/// The longest way to a target comes first: where what the targets need has no
/// cycle, an edge that makes an input of another weighs at least as much as that
/// other edge and itself together, so that the start of a long chain of commands
/// is run before commands that less waits for.
pub proof fn law_long_chains_weigh_more(s: StateView, rank: Seq<nat>, reach: Seq<bool>, targets: Seq<NodeId>)
    requires
        s.wf(),
        s.edges.len() < i64::MAX - 1,
        s.edges.len() <= usize::MAX,
        nodes_below(targets, s.nodes.len()),
        acyclic_by(s, rank, reach),
        makers_reached(s, targets, reach),
    ensures
        weights_add_up(weighed(s, targets), sorted_edges(s, targets), 0),
{
    lemma_weighed(s, rank, reach, targets);
}

/// Whether `c` starts with `e` and holds edges of `v` each of which makes an
/// input of the next.
pub open spec fn is_chain(s: StateView, v: Seq<EdgeId>, c: Seq<EdgeId>, e: EdgeId) -> bool {
    &&& c.len() > 0
    &&& c[0] == e
    &&& forall|i: int| 0 <= i < c.len() ==> v.contains(#[trigger] c[i])
    &&& forall|i: int|
        0 <= i < c.len() - 1 ==> makes_input_of(s, #[trigger] c[i], c[i + 1].0 as int)
}

/// What the edges of a chain weigh together, each by itself.
pub open spec fn chain_weight(s: StateView, c: Seq<EdgeId>) -> int
    decreases c.len(),
{
    if c.len() == 0 {
        0
    } else {
        own_weight(s, c[0]) + chain_weight(s, c.drop_first())
    }
}

proof fn lemma_chain_bound(t: StateView, v: Seq<EdgeId>, c: Seq<EdgeId>, e: EdgeId)
    requires
        weights_add_up(t, v, 0),
        forall|i: int| 0 <= i < v.len() ==> own_weight(t, #[trigger] v[i]) <= priority(t, v[i]),
        is_chain(t, v, c, e),
    ensures
        chain_weight(t, c) <= priority(t, e),
    decreases c.len(),
{
    assert(v.contains(c[0]));
    let i = choose|i: int| 0 <= i < v.len() && v[i] == e;
    assert(own_weight(t, v[i]) <= priority(t, v[i]));
    let d = c.drop_first();
    if d.len() > 0 {
        let f = c[1];
        assert(d[0] == f);
        assert forall|k: int| 0 <= k < d.len() implies v.contains(#[trigger] d[k]) by {
            assert(c[k + 1] == d[k]);
        }
        assert forall|k: int| 0 <= k < d.len() - 1 implies makes_input_of(
            t,
            #[trigger] d[k],
            d[k + 1].0 as int,
        ) by {
            assert(c[k + 1] == d[k]);
        }
        lemma_chain_bound(t, v, d, f);
        assert(makes_input_of(t, c[0], c[0int + 1].0 as int));
        assert(v.contains(c[1]));
        let j = choose|j: int| 0 <= j < v.len() && v[j] == f;
        assert(makes_input_of(t, e, v[j].0 as int));
    } else {
        assert(chain_weight(t, d) == 0);
    }
}

proof fn lemma_chain_found(t: StateView, v: Seq<EdgeId>, j: int) -> (c: Seq<EdgeId>)
    requires
        producers_first(t, v),
        weights_explained(t, v, 0),
        0 <= j < v.len(),
    ensures
        is_chain(t, v, c, v[j]),
        chain_weight(t, c) == priority(t, v[j]),
    decreases v.len() - j,
{
    let e = v[j];
    assert(weight_explained(t, v, 0, v[j]));
    if priority(t, e) == own_weight(t, e) {
        let c = seq![e];
        assert(c.drop_first() =~= Seq::empty());
        assert(chain_weight(t, c.drop_first()) == 0);
        c
    } else {
        let i = choose|i: int|
            0 <= i < v.len() && makes_input_of(t, e, (#[trigger] v[i]).0 as int) && priority(t, e)
                == priority(t, v[i]) + own_weight(t, e);
        let front = v.take(i);
        assert(front.contains(e));
        let k = choose|k: int| 0 <= k < front.len() && front[k] == e;
        assert(v[k] == e);
        assert(k == j);
        let d = lemma_chain_found(t, v, i);
        let c = seq![e] + d;
        assert(c.drop_first() =~= d);
        assert forall|m: int| 0 <= m < c.len() implies v.contains(#[trigger] c[m]) by {
            if m > 0 {
                assert(c[m] == d[m - 1]);
            } else {
                assert(v[j] == c[0]);
            }
        }
        assert forall|m: int| 0 <= m < c.len() - 1 implies makes_input_of(
            t,
            #[trigger] c[m],
            c[m + 1].0 as int,
        ) by {
            assert(c[m + 1] == d[m]);
            if m > 0 {
                assert(c[m] == d[m - 1]);
                assert(makes_input_of(t, d[m - 1], d[m - 1 + 1].0 as int));
            }
        }
        c
    }
}

/// What an edge weighs is what the longest chain of commands weighs that waits
/// for it: where what the targets need has no cycle, no chain from the edge on
/// towards a target weighs more, and one weighs as much.
pub proof fn law_weights_are_longest_chains(
    s: StateView,
    rank: Seq<nat>,
    reach: Seq<bool>,
    targets: Seq<NodeId>,
    e: EdgeId,
)
    requires
        s.wf(),
        s.edges.len() < i64::MAX - 1,
        s.edges.len() <= usize::MAX,
        nodes_below(targets, s.nodes.len()),
        acyclic_by(s, rank, reach),
        makers_reached(s, targets, reach),
        sorted_edges(s, targets).contains(e),
    ensures
        ({
            let t = weighed(s, targets);
            let v = sorted_edges(s, targets);
            &&& forall|c: Seq<EdgeId>| #[trigger]
                is_chain(t, v, c, e) ==> chain_weight(t, c) <= priority(t, e)
            &&& exists|c: Seq<EdgeId>| #[trigger]
                is_chain(t, v, c, e) && chain_weight(t, c) == priority(t, e)
        }),
{
    lemma_weighed(s, rank, reach, targets);
    let t = weighed(s, targets);
    let v = sorted_edges(s, targets);
    assert forall|c: Seq<EdgeId>| #[trigger] is_chain(t, v, c, e) implies chain_weight(t, c)
        <= priority(t, e) by {
        lemma_chain_bound(t, v, c, e);
    }
    let j = choose|j: int| 0 <= j < v.len() && v[j] == e;
    let c = lemma_chain_found(t, v, j);
    assert(is_chain(t, v, c, e));
}

proof fn lemma_distinct_ids(v: Seq<EdgeId>, n: nat)
    requires
        v.no_duplicates(),
        edges_below(v, n),
    ensures
        v.len() <= n,
{
    let ids = Seq::new(v.len(), |i: int| v[i].0 as int);
    assert(ids.no_duplicates());
    vstd::seq_lib::seq_to_set_is_finite(ids);
    ids.unique_seq_to_set();
    vstd::set_lib::lemma_int_range(0, n as int);
    let range = vstd::set_lib::set_int_range(0, n as int);
    assert(ids.to_set().subset_of(range)) by {
        assert forall|x: int| ids.to_set().contains(x) implies range.contains(x) by {
            let k = choose|k: int| 0 <= k < ids.len() && ids[k] == x;
            assert(v[k].0 < n);
        }
    }
    vstd::set_lib::lemma_len_subset(ids.to_set(), range);
}

/// Whether a plan sees to it that there will be `node`: it is a file, or need not
/// be one as only a depfile told of it; or it is ready; or what makes it is in the
/// plan, and is to run if `node` is dirty.
pub open spec fn sees_to(p: PlanView, s: StateView, node: NodeId) -> bool {
    let n = s.nodes[node.0 as int];
    match n.in_edge {
        None => n.dirty ==> n.generated_by_dep_loader,
        Some(e) => s.edges[e.0 as int].outputs_ready || (p.wants(e) is Some && (n.dirty
            ==> p.wants(e) != Some(Want::Nothing))),
    }
}

/// Whether a plan sees to it that there will be all inputs of `edge`.
pub open spec fn sees_to_inputs(p: PlanView, s: StateView, edge: EdgeId) -> bool {
    forall|i: int|
        0 <= i < s.edges[edge.0 as int].inputs.len() ==> sees_to(
            p,
            s,
            #[trigger] s.edges[edge.0 as int].inputs[i],
        )
}

/// Whether a plan sees to the inputs of all that is in it.
pub open spec fn is_complete(p: PlanView, s: StateView) -> bool {
    forall|e: EdgeId| (#[trigger] p.wants(e)) is Some ==> sees_to_inputs(p, s, e)
}

/// Whether a plan has grown, to what is needed to make `node` only, and to running
/// only what makes something dirty.
pub open spec fn grows_for(p: PlanView, q: PlanView, s: StateView, node: NodeId) -> bool {
    forall|e: EdgeId|
        {
            &&& p.wants(e) is Some ==> (#[trigger] q.wants(e)) is Some
            &&& p.wants(e) is Some && p.wants(e) != Some(Want::Nothing) ==> q.wants(e) == p.wants(e)
            &&& q.wants(e) != p.wants(e) ==> is_needed_for(s, e, node) && !s.edges[e.0 as int].outputs_ready
            &&& q.wants(e) != p.wants(e) && q.wants(e) != Some(Want::Nothing) ==> makes_dirty(s, e)
        }
}

/// Whether `edge` makes something that `node` is made from, or `node` itself.
pub open spec fn is_needed_for(s: StateView, edge: EdgeId, node: NodeId) -> bool {
    exists|v: Seq<NodeId>| #[trigger]
        crate::clean::is_supply_line(s, v) && v[0] == node && s.nodes[v.last().0 as int].in_edge
            == Some(edge)
}

/// Whether `edge` makes something dirty.
pub open spec fn makes_dirty(s: StateView, edge: EdgeId) -> bool {
    exists|n: int|
        0 <= n < s.nodes.len() && (#[trigger] s.nodes[n]).in_edge == Some(edge) && s.nodes[n].dirty
}

/// Whether a plan has grown, and sees to the inputs of what it has grown by.
spec fn grows_closed(p: PlanView, q: PlanView, s: StateView, node: NodeId) -> bool {
    &&& grows_for(p, q, s, node)
    &&& forall|e: EdgeId|
        (#[trigger] q.wants(e)) is Some && p.wants(e) is None ==> sees_to_inputs(q, s, e)
}

proof fn lemma_sees_to_later(p: PlanView, q: PlanView, s: StateView, node: NodeId, other: NodeId)
    requires
        grows_for(p, q, s, node),
        sees_to(p, s, other),
    ensures
        sees_to(q, s, other),
{
    if let Some(e) = s.nodes[other.0 as int].in_edge {
        assert(p.wants(e) is Some ==> q.wants(e) is Some);
    }
}

proof fn lemma_grows_twice(p: PlanView, q: PlanView, r: PlanView, s: StateView, node: NodeId)
    requires
        grows_closed(p, q, s, node),
        grows_closed(q, r, s, node),
    ensures
        grows_closed(p, r, s, node),
{
    assert forall|e: EdgeId|
        {
            &&& p.wants(e) is Some ==> (#[trigger] r.wants(e)) is Some
            &&& p.wants(e) is Some && p.wants(e) != Some(Want::Nothing) ==> r.wants(e) == p.wants(e)
            &&& r.wants(e) != p.wants(e) ==> is_needed_for(s, e, node) && !s.edges[e.0 as int].outputs_ready
            &&& r.wants(e) != p.wants(e) && r.wants(e) != Some(Want::Nothing) ==> makes_dirty(s, e)
        } by {
        assert(q.wants(e) == q.wants(e));
    }
    assert forall|e: EdgeId|
        (#[trigger] r.wants(e)) is Some && p.wants(e) is None implies sees_to_inputs(r, s, e) by {
        if q.wants(e) is Some {
            assert(sees_to_inputs(q, s, e));
            assert forall|i: int| 0 <= i < s.edges[e.0 as int].inputs.len() implies sees_to(
                r,
                s,
                #[trigger] s.edges[e.0 as int].inputs[i],
            ) by {
                lemma_sees_to_later(q, r, s, node, s.edges[e.0 as int].inputs[i]);
            }
        }
    }
}

/// What is needed for an input of what makes `node` is needed for `node`.
proof fn lemma_grows_for_user(
    p: PlanView,
    q: PlanView,
    s: StateView,
    input: NodeId,
    node: NodeId,
    edge: EdgeId,
)
    requires
        grows_closed(p, q, s, input),
        s.nodes[node.0 as int].in_edge == Some(edge),
        s.edges[edge.0 as int].inputs.contains(input),
    ensures
        grows_closed(p, q, s, node),
{
    assert forall|e: EdgeId| is_needed_for(s, e, input) implies #[trigger] is_needed_for(
        s,
        e,
        node,
    ) by {
        let v = choose|v: Seq<NodeId>| #[trigger]
            crate::clean::is_supply_line(s, v) && v[0] == input && s.nodes[v.last().0 as int].in_edge
                == Some(e);
        crate::clean::lemma_line_extended(s, node, edge, v);
        let w = seq![node] + v;
        assert(crate::clean::is_supply_line(s, w));
    }
    assert forall|e: EdgeId|
        {
            &&& p.wants(e) is Some ==> (#[trigger] q.wants(e)) is Some
            &&& p.wants(e) is Some && p.wants(e) != Some(Want::Nothing) ==> q.wants(e) == p.wants(e)
            &&& q.wants(e) != p.wants(e) ==> is_needed_for(s, e, node) && !s.edges[e.0 as int].outputs_ready
            &&& q.wants(e) != p.wants(e) && q.wants(e) != Some(Want::Nothing) ==> makes_dirty(s, e)
        } by {
        if q.wants(e) != p.wants(e) {
            assert(is_needed_for(s, e, input));
        }
    }
}

proof fn lemma_sub_target_sees(
    w: Walk,
    walking: bool,
    s: StateView,
    node: NodeId,
    dependent: Option<NodeId>,
    depth: nat,
)
    requires
        s.wf(),
        node.0 < s.nodes.len(),
    ensures
        with_sub_target(w, walking, s, node, dependent, depth) matches Ok((x, _))
            ==> grows_closed(w.plan, x.plan, s, node) && sees_to(x.plan, s, node),
    decreases depth, 1nat, 0nat,
{
    let n = s.nodes[node.0 as int];
    assert(grows_closed(w.plan, w.plan, s, node));
    if n.in_edge is Some {
        let edge = n.in_edge->0;
        assert(s.node_ok(n));
        assert(s.edge_ok(s.edges[edge.0 as int]));
        if !s.edges[edge.0 as int].outputs_ready {
            let first = w.plan.wants(edge) is None;
            let p1 = if first {
                w.plan.with_want(edge, Some(Want::Nothing))
            } else {
                w.plan
            };
            let p2 = if n.dirty && p1.wants(edge) == Some(Want::Nothing) {
                p1.with_want(edge, Some(Want::ToStart)).edge_wanted(s, edge)
            } else {
                p1
            };
            let line = seq![node];
            assert(crate::clean::is_supply_line(s, line));
            assert(line[0] == node && line.last() == node);
            assert(is_needed_for(s, edge, node));
            if n.dirty {
                assert(s.nodes[node.0 as int].in_edge == Some(edge));
                assert(makes_dirty(s, edge));
            }
            assert forall|e: EdgeId| e != edge implies #[trigger] p2.wants(e) == w.plan.wants(e) by {}
            assert forall|e: EdgeId| e != edge implies #[trigger] p1.wants(e) == w.plan.wants(e) by {}
            assert(p2.wants(edge) is Some);
            assert(n.dirty ==> p2.wants(edge) != Some(Want::Nothing));
            assert(grows_for(w.plan, p2, s, node));
            assert(grows_for(w.plan, p1, s, node));
            assert(sees_to(p2, s, node));
            if walking && p1.wants(edge) == Some(Want::ToFinish) {
                assert(sees_to(p1, s, node));
                assert(!first);
            } else if first && depth > 0 {
                let x = Walk {
                    plan: p2,
                    seen: if walking {
                        w.seen.update(edge.0 as int, true)
                    } else {
                        w.seen
                    },
                };
                lemma_sub_targets_see(x, walking, s, node, edge, Some(node), 0, (depth - 1) as nat);
                if let Ok(y) = with_sub_targets(
                    x,
                    walking,
                    s,
                    s.edges[edge.0 as int].inputs,
                    Some(node),
                    0,
                    (depth - 1) as nat,
                ) {
                    let q = y.plan;
                    lemma_sees_to_later(p2, q, s, node, node);
                    assert(sees_to_inputs(q, s, edge));
                    assert(grows_closed(w.plan, q, s, node)) by {
                        assert forall|e: EdgeId|
                            {
                                &&& w.plan.wants(e) is Some ==> (#[trigger] q.wants(e)) is Some
                                &&& w.plan.wants(e) is Some && w.plan.wants(e) != Some(
                                    Want::Nothing,
                                ) ==> q.wants(e) == w.plan.wants(e)
                                &&& q.wants(e) != w.plan.wants(e) ==> is_needed_for(s, e, node)
                                    && !s.edges[e.0 as int].outputs_ready
                                &&& q.wants(e) != w.plan.wants(e) && q.wants(e) != Some(
                                    Want::Nothing,
                                ) ==> makes_dirty(s, e)
                            } by {
                            assert(p2.wants(e) == p2.wants(e));
                        }
                        assert forall|e: EdgeId|
                            (#[trigger] q.wants(e)) is Some && w.plan.wants(e) is None implies sees_to_inputs(
                            q,
                            s,
                            e,
                        ) by {
                            if e != edge {
                                assert(p2.wants(e) is None);
                            }
                        }
                    }
                }
            }
        }
    }
}

proof fn lemma_sub_targets_see(
    w: Walk,
    walking: bool,
    s: StateView,
    node: NodeId,
    edge: EdgeId,
    dependent: Option<NodeId>,
    k: int,
    depth: nat,
)
    requires
        s.wf(),
        edge.0 < s.edges.len(),
        s.nodes[node.0 as int].in_edge == Some(edge),
        0 <= k,
    ensures
        ({
            let inputs = s.edges[edge.0 as int].inputs;
            with_sub_targets(w, walking, s, inputs, dependent, k, depth) matches Ok(x) ==> {
                &&& grows_closed(w.plan, x.plan, s, node)
                &&& forall|i: int|
                    k <= i < inputs.len() ==> sees_to(x.plan, s, #[trigger] inputs[i])
            }
        }),
    decreases depth, 2nat, s.edges[edge.0 as int].inputs.len() - k,
{
    let inputs = s.edges[edge.0 as int].inputs;
    assert(s.edge_ok(s.edges[edge.0 as int]));
    if k < inputs.len() {
        lemma_sub_target_sees(w, walking, s, inputs[k], dependent, depth);
        if let Ok((x, _)) = with_sub_target(w, walking, s, inputs[k], dependent, depth) {
            assert(inputs.contains(inputs[k]));
            lemma_grows_for_user(w.plan, x.plan, s, inputs[k], node, edge);
            lemma_sub_targets_see(x, walking, s, node, edge, dependent, k + 1, depth);
            if let Ok(y) = with_sub_targets(x, walking, s, inputs, dependent, k + 1, depth) {
                lemma_grows_twice(w.plan, x.plan, y.plan, s, node);
                lemma_sees_to_later(x.plan, y.plan, s, node, inputs[k]);
            }
        }
    } else {
        assert(grows_closed(w.plan, w.plan, s, node));
    }
}

/// Planning a target plans all that it needs, and nothing else: it will be there,
/// and so will all inputs of what has been planned; what makes something dirty is
/// to run, and nothing else is; and what was planned before stays planned.
pub proof fn law_plans_are_complete(p: PlanView, s: StateView, target: NodeId)
    requires
        s.wf(),
        target.0 < s.nodes.len(),
    ensures
        with_target(p, s, target) matches Ok((q, _)) ==> {
            &&& sees_to(q, s, target)
            &&& grows_for(p, q, s, target)
            &&& is_complete(p, s) ==> is_complete(q, s)
        },
{
    let w = Walk {
        plan: PlanView { targets: p.targets.push(target), ..p },
        seen: Seq::empty(),
    };
    lemma_sub_target_sees(w, false, s, target, None, s.edges.len());
    if let Ok((q, _)) = with_target(p, s, target) {
        assert forall|e: EdgeId| w.plan.wants(e) == #[trigger] p.wants(e) by {}
        assert(grows_closed(w.plan, q, s, target));
        assert(grows_for(p, q, s, target)) by {
            assert forall|e: EdgeId|
                {
                    &&& p.wants(e) is Some ==> (#[trigger] q.wants(e)) is Some
                    &&& p.wants(e) is Some && p.wants(e) != Some(Want::Nothing) ==> q.wants(e)
                        == p.wants(e)
                    &&& q.wants(e) != p.wants(e) ==> is_needed_for(s, e, target)
                        && !s.edges[e.0 as int].outputs_ready
                    &&& q.wants(e) != p.wants(e) && q.wants(e) != Some(Want::Nothing)
                        ==> makes_dirty(s, e)
                } by {
                assert(w.plan.wants(e) == p.wants(e));
            }
        }
        if is_complete(p, s) {
            assert forall|e: EdgeId| (#[trigger] q.wants(e)) is Some implies sees_to_inputs(
                q,
                s,
                e,
            ) by {
                if p.wants(e) is Some {
                    assert(sees_to_inputs(p, s, e));
                    assert forall|i: int| 0 <= i < s.edges[e.0 as int].inputs.len() implies sees_to(
                        q,
                        s,
                        #[trigger] s.edges[e.0 as int].inputs[i],
                    ) by {
                        lemma_sees_to_later(p, q, s, target, s.edges[e.0 as int].inputs[i]);
                    }
                } else {
                    assert(w.plan.wants(e) is None);
                }
            }
        }
    }
}

/// Whether `edge` is to run and could, but is not queued.
pub open spec fn is_left_behind(w: Work, edge: EdgeId) -> bool {
    w.plan.wants(edge) == Some(Want::ToStart) && w.state.inputs_ready(edge.0 as int)
}

/// Whether nothing but some of the edges of `x` is left behind.
pub open spec fn left_only(w: Work, x: Set<EdgeId>) -> bool {
    forall|e: EdgeId|
        e.0 < w.state.edges.len() && #[trigger] is_left_behind(w, e) ==> x.contains(e)
}

/// Whether nothing but pools and queues tells two stages apart.
spec fn same_wants(w: Work, v: Work) -> bool {
    &&& v.plan.want == w.plan.want
    &&& v.state.edges == w.state.edges
    &&& v.state.nodes == w.state.nodes
}

proof fn lemma_made_ready_same(w: Work, pool: PoolId, edges: Seq<DelayedEdge>, k: int)
    requires
        0 <= k,
    ensures
        same_wants(w, made_ready(w, pool, edges, k)),
    decreases edges.len() - k,
{
    if k < edges.len() {
        lemma_made_ready_same(
            Work {
                plan: w.plan.with_ready(w.state, edges[k].edge),
                state: w.state.pool_taken(pool),
                ..w
            },
            pool,
            edges,
            k + 1,
        );
    }
}

proof fn lemma_retrieved_same(w: Work, pool: PoolId)
    ensures
        same_wants(w, retrieved(w, pool)),
{
    reveal(retrieved);
    let edges = promoted(w.plan, w.state, pool);
    let x = Work {
        plan: PlanView {
            delayed: without_promoted(w.plan.delayed, w.state, pool, edges, edges.len() as int),
            ..w.plan
        },
        ..w
    };
    lemma_made_ready_same(x, pool, edges, 0);
}

proof fn lemma_left_same(w: Work, v: Work, x: Set<EdgeId>)
    requires
        left_only(w, x),
        same_wants(w, v),
    ensures
        left_only(v, x),
{
    assert forall|e: EdgeId|
        e.0 < v.state.edges.len() && #[trigger] is_left_behind(v, e) implies x.contains(e) by {
        assert(is_left_behind(w, e)) by {
            assert(w.plan.wants(e) == v.plan.wants(e));
            assert(w.state.inputs_ready(e.0 as int)) by {
                assert forall|k: int|
                    0 <= k < w.state.edges[e.0 as int].inputs.len() implies match w.state.nodes[(
                #[trigger] w.state.edges[e.0 as int].inputs[k]).0 as int].in_edge {
                    Some(f) => w.state.edges[f.0 as int].outputs_ready,
                    None => true,
                } by {
                    assert(v.state.edges[e.0 as int].inputs[k]
                        == w.state.edges[e.0 as int].inputs[k]);
                }
            }
        }
    }
}

/// What a stage keeps of the graph `s`, with no more planned than `n`.
spec fn is_stage(s: StateView, w: Work, n: nat) -> bool {
    &&& w.state.nodes == s.nodes
    &&& w.state.edges.len() == s.edges.len()
    &&& forall|e: int|
        0 <= e < s.edges.len() ==> (#[trigger] w.state.edges[e]).inputs == s.edges[e].inputs
            && w.state.edges[e].outputs == s.edges[e].outputs
    &&& planned(w.plan.want) <= n
    &&& w.plan.want.len() <= s.edges.len()
}

proof fn lemma_scheduled_left(s: StateView, w: Work, edge: EdgeId, x: Set<EdgeId>, n: nat)
    requires
        is_stage(s, w, n),
        edge.0 < s.edges.len(),
        left_only(w, x.insert(edge)),
        w.plan.wants(edge) is Some,
    ensures
        is_stage(s, scheduled(w, edge), n),
        left_only(scheduled(w, edge), x),
{
    let v = scheduled(w, edge);
    if w.plan.wants(edge) == Some(Want::ToFinish) {
        assert forall|e: EdgeId|
            e.0 < v.state.edges.len() && #[trigger] is_left_behind(v, e) implies x.contains(e) by {
            assert(e != edge);
        }
    } else {
        let pool = w.state.edges[edge.0 as int].pool;
        let p = w.plan.with_want(edge, Some(Want::ToFinish));
        lemma_planned_set(w.plan.want, edge, Some(Want::ToFinish));
        let q = Work { plan: p.with_delayed(w.state, edge), ..w };
        lemma_retrieved_same(q, pool);
        assert(v.plan.want == p.want);
        assert(v.state.edges == w.state.edges && v.state.nodes == w.state.nodes);
        assert forall|e: EdgeId|
            e.0 < v.state.edges.len() && #[trigger] is_left_behind(v, e) implies x.contains(e) by {
            assert(e != edge);
            assert(w.plan.wants(e) == v.plan.wants(e));
            lemma_ready_same(v.state, w.state, e.0 as int);
            assert(is_left_behind(w, e));
        }
    }
}

proof fn lemma_ready_same(s: StateView, t: StateView, e: int)
    requires
        s.edges == t.edges,
        s.nodes == t.nodes,
    ensures
        s.inputs_ready(e) == t.inputs_ready(e),
{
    assert forall|k: int| 0 <= k < s.edges[e].inputs.len() implies #[trigger] s.edges[e].inputs[k]
        == t.edges[e].inputs[k] by {}
    if s.inputs_ready(e) {
        assert forall|k: int| 0 <= k < t.edges[e].inputs.len() implies match t.nodes[(
        #[trigger] t.edges[e].inputs[k]).0 as int].in_edge {
            Some(f) => t.edges[f.0 as int].outputs_ready,
            None => true,
        } by {
            assert(s.edges[e].inputs[k] == t.edges[e].inputs[k]);
        }
    }
    if t.inputs_ready(e) {
        assert forall|k: int| 0 <= k < s.edges[e].inputs.len() implies match s.nodes[(
        #[trigger] s.edges[e].inputs[k]).0 as int].in_edge {
            Some(f) => s.edges[f.0 as int].outputs_ready,
            None => true,
        } by {
            assert(t.edges[e].inputs[k] == s.edges[e].inputs[k]);
        }
    }
}

/// The edges that need one of the nodes from the `k`-th on.
spec fn users_of(s: StateView, nodes: Seq<NodeId>, k: int) -> Set<EdgeId> {
    Set::new(
        |e: EdgeId|
            exists|j: int|
                k <= j < nodes.len() && s.nodes[(
                #[trigger] nodes[j]).0 as int].out_edges.contains(e),
    )
}

/// The edges from the `k`-th on.
spec fn edges_of(edges: Seq<EdgeId>, k: int) -> Set<EdgeId> {
    Set::new(|e: EdgeId| exists|j: int| k <= j < edges.len() && #[trigger] edges[j] == e)
}

proof fn lemma_ended_left(
    s: StateView,
    w: Work,
    edge: EdgeId,
    result: EdgeResult,
    depth: nat,
    x: Set<EdgeId>,
)
    requires
        s.wf(),
        crate::scan::nothing_pending(s),
        is_stage(s, w, depth),
        edge.0 < s.edges.len(),
        w.plan.wants(edge) is Some,
        left_only(w, x),
    ensures
        is_stage(s, edge_ended(w, edge, result, depth), depth),
        planned(edge_ended(w, edge, result, depth).plan.want) <= planned(w.plan.want),
        left_only(edge_ended(w, edge, result, depth), x),
    decreases depth, 0nat, 0nat,
{
    lemma_planned_set(w.plan.want, edge, None);
    if depth > 0 {
        let i = edge.0 as int;
        let pool = w.state.edges[i].pool;
        let wanted = w.plan.wants(edge) != Some(Want::Nothing);
        let freed = if wanted {
            Work { state: w.state.pool_freed(pool), ..w }
        } else {
            w
        };
        assert(same_wants(w, freed));
        lemma_retrieved_same(freed, pool);
        let r = retrieved(freed, pool);
        assert(same_wants(w, r));
        lemma_left_same(w, r, x);
        if result == EdgeResult::Succeeded {
            let y = Work {
                plan: PlanView {
                    wanted_edges: if wanted {
                        r.plan.wanted_edges.wrapping_sub(1)
                    } else {
                        r.plan.wanted_edges
                    },
                    ..r.plan.with_want(edge, None)
                },
                state: with_outputs_ready(r.state, edge),
                ..r
            };
            let outputs = s.edges[i].outputs;
            assert(y.state.edges[i].outputs == outputs);
            assert(s.edge_ok(s.edges[i]));
            let more = x.union(users_of(s, outputs, 0));
            assert forall|e: EdgeId|
                e.0 < y.state.edges.len() && #[trigger] is_left_behind(y, e) implies more.contains(
                e,
            ) by {
                assert(e != edge);
                assert(r.plan.wants(e) == y.plan.wants(e));
                if !r.state.inputs_ready(e.0 as int) {
                    lemma_made_ready_by(s, r.state, y.state, edge, e);
                } else {
                    assert(is_left_behind(r, e));
                }
            }
            assert(is_stage(s, y, (depth - 1) as nat));
            lemma_nodes_left(s, y, outputs, 0, (depth - 1) as nat, x);
        }
    }
}

proof fn lemma_made_ready_by(s: StateView, t: StateView, u: StateView, edge: EdgeId, e: EdgeId)
    requires
        s.wf(),
        edge.0 < s.edges.len(),
        e.0 < s.edges.len(),
        t.nodes == s.nodes,
        t.edges.len() == s.edges.len(),
        t.edges[e.0 as int].inputs == s.edges[e.0 as int].inputs,
        u == with_outputs_ready(t, edge),
        !t.inputs_ready(e.0 as int),
        u.inputs_ready(e.0 as int),
    ensures
        users_of(s, s.edges[edge.0 as int].outputs, 0).contains(e),
{
    let i = e.0 as int;
    let k = choose|k: int|
        0 <= k < t.edges[i].inputs.len() && !(match t.nodes[(
        #[trigger] t.edges[i].inputs[k]).0 as int].in_edge {
            Some(f) => t.edges[f.0 as int].outputs_ready,
            None => true,
        });
    let n = s.edges[i].inputs[k];
    assert(u.edges[i].inputs[k] == n);
    assert(s.edge_ok(s.edges[i]));
    assert(s.nodes[n.0 as int].in_edge == Some(edge));
    assert(s.producer_linked(n.0 as int));
    assert(s.inputs_linked(i));
    assert(NodeId(n.0 as int as usize) == n);
    assert(EdgeId(i as usize) == e);
    let outs = s.edges[edge.0 as int].outputs;
    assert(outs.contains(n));
    let j = choose|j: int| 0 <= j < outs.len() && outs[j] == n;
    assert(s.nodes[s.edges[i].inputs[k].0 as int].out_edges.contains(EdgeId(i as usize)));
    assert(s.nodes[outs[j].0 as int].out_edges.contains(e));
}

proof fn lemma_nodes_left(
    s: StateView,
    w: Work,
    nodes: Seq<NodeId>,
    k: int,
    depth: nat,
    x: Set<EdgeId>,
)
    requires
        s.wf(),
        crate::scan::nothing_pending(s),
        is_stage(s, w, depth),
        nodes_below(nodes, s.nodes.len()),
        0 <= k,
        left_only(w, x.union(users_of(s, nodes, k))),
    ensures
        is_stage(s, nodes_ended(w, nodes, k, depth), depth),
        planned(nodes_ended(w, nodes, k, depth).plan.want) <= planned(w.plan.want),
        left_only(nodes_ended(w, nodes, k, depth), x),
    decreases depth, 3nat, nodes.len() - k,
{
    if k < nodes.len() {
        let n = s.nodes[nodes[k].0 as int];
        assert(!n.dyndep_pending);
        assert(s.node_ok(n));
        let rest = x.union(users_of(s, nodes, k + 1));
        assert(left_only(w, rest.union(edges_of(n.out_edges, 0)))) by {
            assert forall|e: EdgeId|
                e.0 < w.state.edges.len() && #[trigger] is_left_behind(w, e) implies rest.union(
                edges_of(n.out_edges, 0),
            ).contains(e) by {
                if !x.contains(e) {
                    assert(users_of(s, nodes, k).contains(e));
                    let j = choose|j: int|
                        k <= j < nodes.len() && s.nodes[(
                        #[trigger] nodes[j]).0 as int].out_edges.contains(e);
                    if j == k {
                        let i = choose|i: int|
                            0 <= i < n.out_edges.len() && n.out_edges[i] == e;
                        assert(n.out_edges[i] == e);
                        assert(edges_of(n.out_edges, 0).contains(e));
                    } else {
                        assert(users_of(s, nodes, k + 1).contains(e));
                    }
                }
            }
        }
        lemma_edges_left(s, w, n.out_edges, 0, depth, rest);
        lemma_nodes_left(
            s,
            edges_maybe_ready(w, n.out_edges, 0, depth),
            nodes,
            k + 1,
            depth,
            x,
        );
    } else {
        assert forall|e: EdgeId|
            e.0 < w.state.edges.len() && #[trigger] is_left_behind(w, e) implies x.contains(e) by {
            if users_of(s, nodes, k).contains(e) {
                let j = choose|j: int|
                    k <= j < nodes.len() && s.nodes[(
                    #[trigger] nodes[j]).0 as int].out_edges.contains(e);
            }
        }
    }
}

proof fn lemma_edges_left(
    s: StateView,
    w: Work,
    edges: Seq<EdgeId>,
    k: int,
    depth: nat,
    x: Set<EdgeId>,
)
    requires
        s.wf(),
        crate::scan::nothing_pending(s),
        is_stage(s, w, depth),
        edges_below(edges, s.edges.len()),
        0 <= k,
        left_only(w, x.union(edges_of(edges, k))),
    ensures
        is_stage(s, edges_maybe_ready(w, edges, k, depth), depth),
        planned(edges_maybe_ready(w, edges, k, depth).plan.want) <= planned(w.plan.want),
        left_only(edges_maybe_ready(w, edges, k, depth), x),
    decreases depth, 2nat, edges.len() - k,
{
    if k < edges.len() {
        let rest = x.union(edges_of(edges, k + 1));
        assert(left_only(w, rest.insert(edges[k]))) by {
            assert forall|e: EdgeId|
                e.0 < w.state.edges.len() && #[trigger] is_left_behind(w, e) implies rest.insert(
                edges[k],
            ).contains(e) by {
                if !x.contains(e) {
                    assert(edges_of(edges, k).contains(e));
                    let j = choose|j: int| k <= j < edges.len() && #[trigger] edges[j] == e;
                    if j > k {
                        assert(edges_of(edges, k + 1).contains(e));
                    }
                }
            }
        }
        lemma_maybe_left(s, w, edges[k], depth, rest);
        lemma_edges_left(s, maybe_ready(w, edges[k], depth), edges, k + 1, depth, x);
    } else {
        assert forall|e: EdgeId|
            e.0 < w.state.edges.len() && #[trigger] is_left_behind(w, e) implies x.contains(e) by {
            if edges_of(edges, k).contains(e) {
                let j = choose|j: int| k <= j < edges.len() && #[trigger] edges[j] == e;
            }
        }
    }
}

proof fn lemma_maybe_left(s: StateView, w: Work, edge: EdgeId, depth: nat, x: Set<EdgeId>)
    requires
        s.wf(),
        crate::scan::nothing_pending(s),
        is_stage(s, w, depth),
        edge.0 < s.edges.len(),
        left_only(w, x.insert(edge)),
    ensures
        is_stage(s, maybe_ready(w, edge, depth), depth),
        planned(maybe_ready(w, edge, depth).plan.want) <= planned(w.plan.want),
        left_only(maybe_ready(w, edge, depth), x),
    decreases depth, 1nat, 0nat,
{
    if w.plan.wants(edge) is None || !w.state.inputs_ready(edge.0 as int) {
        assert forall|e: EdgeId|
            e.0 < w.state.edges.len() && #[trigger] is_left_behind(w, e) implies x.contains(e) by {
            assert(e != edge);
        }
    } else if w.plan.wants(edge) == Some(Want::Nothing) {
        assert(left_only(w, x)) by {
            assert forall|e: EdgeId|
                e.0 < w.state.edges.len() && #[trigger] is_left_behind(w, e) implies x.contains(
                e,
            ) by {
                assert(e != edge);
            }
        }
        lemma_ended_left(s, w, edge, EdgeResult::Succeeded, depth, x);
    } else {
        lemma_scheduled_left(s, w, edge, x, planned(w.plan.want));
    }
}

proof fn lemma_initial_left(s: StateView, w: Work, queued: Seq<bool>, k: int, n: int)
    requires
        is_stage(s, w, s.edges.len()),
        0 <= k,
        n <= s.edges.len() <= usize::MAX,
        forall|e: EdgeId| e.0 < k && e.0 < s.edges.len() ==> !#[trigger] is_left_behind(w, e),
    ensures
        ({
            let v = initial_edges(w, queued, k, n).0;
            &&& is_stage(s, v, s.edges.len())
            &&& v.plan.want.len() == w.plan.want.len()
            &&& forall|e: EdgeId| e.0 < n ==> !#[trigger] is_left_behind(v, e)
        }),
    decreases n - k,
{
    if k < n {
        let e = EdgeId(k as usize);
        let pool = w.state.edges[k].pool;
        if w.plan.wants(e) != Some(Want::ToStart) || !w.state.inputs_ready(k) {
            lemma_initial_left(s, w, queued, k + 1, n);
        } else {
            let p = w.plan.with_want(e, Some(Want::ToFinish));
            lemma_planned_set(w.plan.want, e, Some(Want::ToFinish));
            let v = if w.state.pools[pool.0 as int].depth != 0 {
                Work { plan: p.with_delayed(w.state, e), ..w }
            } else {
                scheduled(w, e)
            };
            assert(v.plan.want == p.want && v.state.edges == w.state.edges && v.state.nodes
                == w.state.nodes);
            let more = if w.state.pools[pool.0 as int].depth != 0 {
                queued.update(pool.0 as int, true)
            } else {
                queued
            };
            assert forall|f: EdgeId| f.0 < k + 1 && f.0 < s.edges.len() implies !#[trigger] is_left_behind(
                v,
                f,
            ) by {
                if f != e {
                    assert(v.plan.wants(f) == w.plan.wants(f));
                    lemma_ready_same(v.state, w.state, f.0 as int);
                    assert(!is_left_behind(w, f));
                }
            }
            lemma_initial_left(s, v, more, k + 1, n);
        }
    }
}

proof fn lemma_pools_left(w: Work, queued: Seq<bool>, k: int)
    requires
        0 <= k,
    ensures
        same_wants(w, pools_retrieved(w, queued, k)),
    decreases queued.len() - k,
{
    if k < queued.len() {
        let pool = PoolId(k as usize);
        if queued[k] {
            lemma_retrieved_same(w, pool);
            lemma_pools_left(retrieved(w, pool), queued, k + 1);
        } else {
            lemma_pools_left(w, queued, k + 1);
        }
    }
}

/// Nothing that could run is left behind: when the queue of a plan is filled, and
/// whenever an edge has ended, every edge that is to run and has all its inputs
/// ready is queued, or waits for its pool, wherever no dyndep file is left to load.
pub proof fn law_nothing_is_left_behind(w: Work, edge: EdgeId, result: EdgeResult, depth: nat)
    requires
        w.state.wf(),
        crate::scan::nothing_pending(w.state),
        w.plan.want.len() <= w.state.edges.len() <= usize::MAX,
    ensures
        left_only(initially_scheduled(w), Set::empty()),
        edge.0 < w.state.edges.len() && w.plan.wants(edge) is Some && left_only(w, Set::empty())
            && planned(w.plan.want) <= depth ==> left_only(
            edge_ended(w, edge, result, depth),
            Set::empty(),
        ),
{
    let s = w.state;
    lemma_planned_bound(w.plan.want);
    let none = Seq::new(s.pools.len(), |i: int| false);
    let n = w.plan.want.len() as int;
    assert(is_stage(s, w, s.edges.len()));
    lemma_initial_left(s, w, none, 0, n);
    let (x, queued) = initial_edges(w, none, 0, n);
    lemma_pools_left(x, queued, 0);
    assert(left_only(x, Set::empty())) by {
        assert forall|e: EdgeId|
            e.0 < x.state.edges.len() && #[trigger] is_left_behind(x, e) implies Set::<
            EdgeId,
        >::empty().contains(e) by {
            assert(e.0 < n);
        }
    }
    lemma_left_same(x, initially_scheduled(w), Set::empty());
    if edge.0 < s.edges.len() && w.plan.wants(edge) is Some && left_only(w, Set::empty())
        && planned(w.plan.want) <= depth {
        lemma_ended_left(s, w, edge, result, depth, Set::empty());
    }
}

} // verus!
