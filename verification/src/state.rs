//! The build graph: nodes (files), edges (build statements) and pools.

use vstd::hash_map::StringHashMap;
use vstd::prelude::*;
use vstd::string::*;

use crate::canon::decanonicalize;
use crate::escape::append_escaped_for_host;
use crate::eval::{phony_rule, root_scope, Env, EvalString, Rule, RuleId, ScopeId, Scopes, Tok};
use crate::text::str_eq;
use crate::util::{wide_distance, MAX_VALID_EDIT_DISTANCE};

verus! {

broadcast use vstd::hash_map::group_hash_map_axioms;

use crate::error::ErrorView;
use crate::escape::shell_word;
use crate::eval::{bound_value, initial_scopes, RuleView, ScopesView, TokView};
use crate::text::texts;
use crate::util::{is_suggestion, no_suggestion, suggestion_distance};

/// Identifier of a node (a file) in the build graph.
#[derive(Copy, Clone, PartialEq, Eq, Structural, PartialOrd, Ord, Hash, Debug)]
pub struct NodeId(pub usize);

/// Identifier of an edge (a build statement) in the build graph.
#[derive(Copy, Clone, PartialEq, Eq, Structural, PartialOrd, Ord, Hash, Debug)]
pub struct EdgeId(pub usize);

/// Identifier of a pool.
#[derive(Copy, Clone, PartialEq, Eq, Structural, PartialOrd, Ord, Hash, Debug)]
pub struct PoolId(pub usize);

/// The implicit pool that does not limit parallelism.
#[verifier::allow_in_spec]
pub fn default_pool() -> PoolId
    returns
        PoolId(0),
{
    PoolId(0)
}

/// The built-in `console` pool (depth 1, shares the terminal).
#[verifier::allow_in_spec]
pub fn console_pool() -> PoolId
    returns
        PoolId(1),
{
    PoolId(1)
}

/// Whether a node's existence on disk is known.
#[derive(Copy, Clone, PartialEq, Eq, Structural, Debug)]
pub enum Existence {
    /// Not yet stat()ed.
    Unknown,
    /// stat()ed and absent. `mtime` holds the newest mtime of its inputs.
    Missing,
    /// stat()ed and present. `mtime` is the file's mtime.
    Exists,
}

/// A file in the build graph.
#[derive(Debug)]
pub struct Node {
    pub path: String,
    pub slash_bits: u64,
    /// -1: not examined, 0: does not exist, >0: mtime in ns since the epoch
    /// (or, for missing nodes, the newest mtime among their dependencies).
    pub mtime: i64,
    pub exists: Existence,
    /// True when the file is out of date and must be rebuilt.
    pub dirty: bool,
    /// True when dyndep information is expected from this node but has not
    /// been loaded yet.
    pub dyndep_pending: bool,
    /// True when this node came from a depfile, dyndep file or the deps log
    /// rather than from the manifest. Such nodes may be missing without
    /// failing the build.
    pub generated_by_dep_loader: bool,
    pub in_edge: Option<EdgeId>,
    pub out_edges: Vec<EdgeId>,
    pub validation_out_edges: Vec<EdgeId>,
    /// Dense id assigned by the deps log, or -1.
    pub deps_log_id: i32,
}

/// A node by what it holds.
pub struct NodeView {
    pub path: Seq<char>,
    pub slash_bits: u64,
    pub mtime: i64,
    pub exists: Existence,
    pub dirty: bool,
    pub dyndep_pending: bool,
    pub generated_by_dep_loader: bool,
    pub in_edge: Option<EdgeId>,
    pub out_edges: Seq<EdgeId>,
    pub validation_out_edges: Seq<EdgeId>,
    pub deps_log_id: i32,
}

impl View for Node {
    type V = NodeView;

    open spec fn view(&self) -> NodeView {
        NodeView {
            path: self.path@,
            slash_bits: self.slash_bits,
            mtime: self.mtime,
            exists: self.exists,
            dirty: self.dirty,
            dyndep_pending: self.dyndep_pending,
            generated_by_dep_loader: self.generated_by_dep_loader,
            in_edge: self.in_edge,
            out_edges: self.out_edges@,
            validation_out_edges: self.validation_out_edges@,
            deps_log_id: self.deps_log_id,
        }
    }
}

/// A node that nothing is known of. Nodes may be created by the deps log before
/// the manifest is parsed, so dep-loader provenance is assumed until proven
/// otherwise.
pub open spec fn new_node(path: Seq<char>, slash_bits: u64) -> NodeView {
    NodeView {
        path,
        slash_bits,
        mtime: -1i64,
        exists: Existence::Unknown,
        dirty: false,
        dyndep_pending: false,
        generated_by_dep_loader: true,
        in_edge: None,
        out_edges: Seq::empty(),
        validation_out_edges: Seq::empty(),
        deps_log_id: -1i32,
    }
}

impl NodeView {
    /// The node after a stat() that gave `mtime`.
    pub open spec fn stated(self, mtime: i64) -> NodeView {
        NodeView {
            mtime,
            exists: if mtime != 0 {
                Existence::Exists
            } else {
                Existence::Missing
            },
            ..self
        }
    }

    /// The node after it was found to be absent.
    pub open spec fn missing(self) -> NodeView {
        NodeView {
            mtime: if self.mtime == -1 {
                0
            } else {
                self.mtime
            },
            exists: Existence::Missing,
            ..self
        }
    }

    /// The node after its inputs have been seen, if there is no such file.
    pub open spec fn raised(self, mtime: i64) -> NodeView {
        if self.exists == Existence::Exists || self.mtime >= mtime {
            self
        } else {
            NodeView { mtime, ..self }
        }
    }

    /// The node after its stat results have been forgotten.
    pub open spec fn forgotten(self) -> NodeView {
        NodeView { mtime: -1i64, exists: Existence::Unknown, dirty: false, ..self }
    }
}

impl Node {
    fn new(path: String, slash_bits: u64) -> (r: Node)
        ensures
            r@ == new_node(path@, slash_bits),
    {
        let r = Node {
            path,
            slash_bits,
            mtime: -1,
            exists: Existence::Unknown,
            dirty: false,
            dyndep_pending: false,
            generated_by_dep_loader: true,
            in_edge: None,
            out_edges: Vec::new(),
            validation_out_edges: Vec::new(),
            deps_log_id: -1,
        };
        assert(r@.out_edges =~= Seq::empty());
        assert(r@.validation_out_edges =~= Seq::empty());
        r
    }

    /// The canonicalized path.
    pub fn path(&self) -> (r: &str)
        ensures
            r@ == self@.path,
    {
        self.path.as_str()
    }

    /// The canonicalized path as a string of its own, for callers that need to
    /// keep it (log keys, for instance).
    pub fn path_shared(&self) -> (r: String)
        ensures
            r@ == self@.path,
    {
        self.path.clone()
    }

    /// The path with its original separator spelling restored.
    pub fn path_decanonicalized(&self) -> (r: String)
        ensures
            r@ == self@.path,
    {
        decanonicalize(self.path.as_str(), self.slash_bits)
    }

    /// Bitmask of separators that were spelled otherwise before
    /// canonicalization.
    pub fn slash_bits(&self) -> (r: u64)
        ensures
            r == self@.slash_bits,
    {
        self.slash_bits
    }

    /// True if the file is known to exist.
    pub fn exists_on_disk(&self) -> (r: bool)
        ensures
            r == (self@.exists == Existence::Exists),
    {
        self.exists == Existence::Exists
    }

    /// True if the node has been stat()ed.
    pub fn status_known(&self) -> (r: bool)
        ensures
            r == (self@.exists != Existence::Unknown),
    {
        self.exists != Existence::Unknown
    }

    /// The edge that produces this file, if any.
    pub fn in_edge(&self) -> (r: Option<EdgeId>)
        ensures
            r == self@.in_edge,
    {
        self.in_edge
    }

    /// Edges that consume this file as an input.
    pub fn out_edges(&self) -> (r: &[EdgeId])
        ensures
            r@ == self@.out_edges,
    {
        self.out_edges.as_slice()
    }

    /// Edges that name this file as a validation target.
    pub fn validation_out_edges(&self) -> (r: &[EdgeId])
        ensures
            r@ == self@.validation_out_edges,
    {
        self.validation_out_edges.as_slice()
    }

    /// Record the result of a stat().
    pub fn set_mtime(&mut self, mtime: i64)
        ensures
            final(self)@ == old(self)@.stated(mtime),
    {
        self.mtime = mtime;
        self.exists = if mtime != 0 {
            Existence::Exists
        } else {
            Existence::Missing
        };
    }

    /// Mark the node as stat()ed and absent.
    pub fn mark_missing(&mut self)
        ensures
            final(self)@ == old(self)@.missing(),
    {
        if self.mtime == -1 {
            self.mtime = 0;
        }
        self.exists = Existence::Missing;
    }

    /// For phony outputs: expose the newest mtime of the inputs so dependents
    /// can compare against something meaningful.
    pub fn update_phony_mtime(&mut self, mtime: i64)
        ensures
            final(self)@ == old(self)@.raised(mtime),
    {
        if !self.exists_on_disk() && self.mtime < mtime {
            self.mtime = mtime;
        }
    }

    /// Forget stat results (used when the manifest is reloaded).
    pub fn reset_state(&mut self)
        ensures
            final(self)@ == old(self)@.forgotten(),
    {
        self.mtime = -1;
        self.exists = Existence::Unknown;
        self.dirty = false;
    }
}

/// How far a depth-first traversal has got with an edge.
#[derive(Copy, Clone, PartialEq, Eq, Structural, Debug)]
pub enum VisitMark {
    /// Not visited.
    Unvisited,
    /// On the current traversal stack (a second visit means a cycle).
    InStack,
    /// Fully visited.
    Done,
}

/// A build statement: inputs, outputs and the rule that connects them.
#[derive(Debug)]
pub struct Edge {
    pub rule: RuleId,
    pub pool: PoolId,
    /// Explicit inputs, then implicit inputs, then order-only inputs.
    pub inputs: Vec<NodeId>,
    /// Explicit outputs, then implicit outputs.
    pub outputs: Vec<NodeId>,
    pub validations: Vec<NodeId>,
    pub dyndep: Option<NodeId>,
    /// The scope in which this edge's bindings are resolved.
    pub scope: ScopeId,
    pub mark: VisitMark,
    pub id: usize,
    /// Scheduling priority: the longest weighted path to any target.
    pub critical_path_weight: i64,
    pub outputs_ready: bool,
    pub deps_loaded: bool,
    pub deps_missing: bool,
    pub implicit_deps: usize,
    pub order_only_deps: usize,
    pub implicit_outs: usize,
    /// Set when a dyndep file asked for `restat` behaviour on this edge.
    pub dyndep_restat: bool,
    /// mtime of the lock file when the command started, used for `restat`.
    pub command_start_time: i64,
    /// How long this edge took last time, from the build log (-1 if unknown).
    pub prev_elapsed_time_millis: i64,
}

/// An edge by what it holds.
pub struct EdgeView {
    pub rule: RuleId,
    pub pool: PoolId,
    pub inputs: Seq<NodeId>,
    pub outputs: Seq<NodeId>,
    pub validations: Seq<NodeId>,
    pub dyndep: Option<NodeId>,
    pub scope: ScopeId,
    pub mark: VisitMark,
    pub id: usize,
    pub critical_path_weight: i64,
    pub outputs_ready: bool,
    pub deps_loaded: bool,
    pub deps_missing: bool,
    pub implicit_deps: usize,
    pub order_only_deps: usize,
    pub implicit_outs: usize,
    pub dyndep_restat: bool,
    pub command_start_time: i64,
    pub prev_elapsed_time_millis: i64,
}

impl View for Edge {
    type V = EdgeView;

    open spec fn view(&self) -> EdgeView {
        EdgeView {
            rule: self.rule,
            pool: self.pool,
            inputs: self.inputs@,
            outputs: self.outputs@,
            validations: self.validations@,
            dyndep: self.dyndep,
            scope: self.scope,
            mark: self.mark,
            id: self.id,
            critical_path_weight: self.critical_path_weight,
            outputs_ready: self.outputs_ready,
            deps_loaded: self.deps_loaded,
            deps_missing: self.deps_missing,
            implicit_deps: self.implicit_deps,
            order_only_deps: self.order_only_deps,
            implicit_outs: self.implicit_outs,
            dyndep_restat: self.dyndep_restat,
            command_start_time: self.command_start_time,
            prev_elapsed_time_millis: self.prev_elapsed_time_millis,
        }
    }
}

/// An edge that connects nothing yet.
pub open spec fn new_edge(rule: RuleId, scope: ScopeId, id: usize) -> EdgeView {
    EdgeView {
        rule,
        pool: PoolId(0),
        inputs: Seq::empty(),
        outputs: Seq::empty(),
        validations: Seq::empty(),
        dyndep: None,
        scope,
        mark: VisitMark::Unvisited,
        id,
        critical_path_weight: -1i64,
        outputs_ready: false,
        deps_loaded: false,
        deps_missing: false,
        implicit_deps: 0,
        order_only_deps: 0,
        implicit_outs: 0,
        dyndep_restat: false,
        command_start_time: 0,
        prev_elapsed_time_millis: -1i64,
    }
}

/// How something ended that went wrong.
#[verifier::ext_equal]
pub struct Halt {
    /// What went wrong.
    pub error: ErrorView,
    /// The graph that had been reached.
    pub state: StateView,
}

/// The outcome where something went wrong.
pub open spec fn halted<T>(error: ErrorView, state: StateView) -> Result<T, Halt> {
    Err(Halt { error, state })
}

/// What went wrong, and how far the work had got by then.
#[verifier::ext_equal]
pub struct Cut<T> {
    pub error: ErrorView,
    pub at: T,
}

/// The end of work that went wrong when it was at `at`.
pub open spec fn cut<R, T>(error: ErrorView, at: T) -> Result<R, Cut<T>> {
    Err(Cut { error, at })
}

/// Accepts every node but `x`.
pub open spec fn other_than(x: NodeId) -> spec_fn(NodeId) -> bool {
    |i: NodeId| i != x
}

/// Accepts every edge but `x`.
pub open spec fn edge_other_than(x: EdgeId) -> spec_fn(EdgeId) -> bool {
    |i: EdgeId| i != x
}

impl EdgeView {
    /// The counts of implicit and order-only inputs and of implicit outputs fit
    /// the lists that they divide.
    pub open spec fn counts_ok(self) -> bool {
        &&& self.implicit_deps + self.order_only_deps <= self.inputs.len()
        &&& self.implicit_outs <= self.outputs.len()
    }

    /// The number of explicit inputs.
    pub open spec fn explicit(self) -> int {
        if self.implicit_deps + self.order_only_deps <= self.inputs.len() {
            self.inputs.len() - self.implicit_deps - self.order_only_deps
        } else {
            0
        }
    }

    /// The number of explicit outputs.
    pub open spec fn explicit_outs(self) -> int {
        if self.implicit_outs <= self.outputs.len() {
            self.outputs.len() - self.implicit_outs
        } else {
            0
        }
    }

    /// Whether input `i` only orders the edge.
    pub open spec fn order_only(self, i: int) -> bool {
        i + self.order_only_deps >= self.inputs.len()
    }

    /// The place of the first input that only orders the edge.
    pub open spec fn first_order_only(self) -> int {
        if self.order_only_deps <= self.inputs.len() {
            self.inputs.len() - self.order_only_deps
        } else {
            0
        }
    }

    /// A single-output phony edge, which may name its own output as an input.
    pub open spec fn maybe_phony_cycle(self) -> bool {
        self.rule == phony_rule() && self.outputs.len() == 1 && self.implicit_outs == 0
            && self.implicit_deps == 0
    }
}

impl Edge {
    fn new(rule: RuleId, scope: ScopeId, id: usize) -> (r: Edge)
        ensures
            r@ == new_edge(rule, scope, id),
    {
        let r = Edge {
            rule,
            pool: PoolId(0),
            inputs: Vec::new(),
            outputs: Vec::new(),
            validations: Vec::new(),
            dyndep: None,
            scope,
            mark: VisitMark::Unvisited,
            id,
            critical_path_weight: -1,
            outputs_ready: false,
            deps_loaded: false,
            deps_missing: false,
            implicit_deps: 0,
            order_only_deps: 0,
            implicit_outs: 0,
            dyndep_restat: false,
            command_start_time: 0,
            prev_elapsed_time_millis: -1,
        };
        assert(r@.inputs =~= Seq::empty());
        assert(r@.outputs =~= Seq::empty());
        assert(r@.validations =~= Seq::empty());
        r
    }

    /// The rule this edge uses.
    pub fn rule(&self) -> (r: RuleId)
        ensures
            r == self@.rule,
    {
        self.rule
    }

    /// The pool limiting this edge's concurrency.
    pub fn pool(&self) -> (r: PoolId)
        ensures
            r == self@.pool,
    {
        self.pool
    }

    /// All inputs, explicit first.
    pub fn inputs(&self) -> (r: &[NodeId])
        ensures
            r@ == self@.inputs,
    {
        self.inputs.as_slice()
    }

    /// All outputs, explicit first.
    pub fn outputs(&self) -> (r: &[NodeId])
        ensures
            r@ == self@.outputs,
    {
        self.outputs.as_slice()
    }

    /// Validation targets.
    pub fn validations(&self) -> (r: &[NodeId])
        ensures
            r@ == self@.validations,
    {
        self.validations.as_slice()
    }

    /// The node holding this edge's dyndep information, if any.
    pub fn dyndep(&self) -> (r: Option<NodeId>)
        ensures
            r == self@.dyndep,
    {
        self.dyndep
    }

    /// Manifest order index.
    pub fn id(&self) -> (r: usize)
        ensures
            r == self@.id,
    {
        self.id
    }

    /// Number of explicit (`$in`) inputs.
    pub fn explicit_deps(&self) -> (r: usize)
        ensures
            r == self@.explicit(),
    {
        self.inputs.len().saturating_sub(self.implicit_deps).saturating_sub(self.order_only_deps)
    }

    /// Number of implicit inputs (after `|`).
    pub fn implicit_deps(&self) -> (r: usize)
        ensures
            r == self@.implicit_deps,
    {
        self.implicit_deps
    }

    /// Number of order-only inputs (after `||`).
    pub fn order_only_deps(&self) -> (r: usize)
        ensures
            r == self@.order_only_deps,
    {
        self.order_only_deps
    }

    /// Number of implicit outputs (before `|`).
    pub fn implicit_outs(&self) -> (r: usize)
        ensures
            r == self@.implicit_outs,
    {
        self.implicit_outs
    }

    /// True if input `index` is order-only.
    pub fn is_order_only(&self, index: usize) -> (r: bool)
        ensures
            r == self@.order_only(index as int),
    {
        index >= self.inputs.len().saturating_sub(self.order_only_deps)
    }

    /// True if input `index` is implicit.
    pub fn is_implicit(&self, index: usize) -> (r: bool)
        ensures
            r == (self@.explicit() <= index && !self@.order_only(index as int)),
    {
        index >= self.explicit_deps() && !self.is_order_only(index)
    }

    /// True if output `index` is implicit.
    pub fn is_implicit_out(&self, index: usize) -> (r: bool)
        ensures
            r == (index >= self@.explicit_outs()),
    {
        index >= self.outputs.len().saturating_sub(self.implicit_outs)
    }

    /// True once all of this edge's outputs are up to date.
    pub fn outputs_ready(&self) -> (r: bool)
        ensures
            r == self@.outputs_ready,
    {
        self.outputs_ready
    }

    /// Scheduling weight (every edge weighs the same).
    pub fn weight(&self) -> (r: i32)
        ensures
            r == 1,
    {
        1
    }

    /// Priority used by the ready queue.
    pub fn critical_path_weight(&self) -> (r: i64)
        ensures
            r == self@.critical_path_weight,
    {
        self.critical_path_weight
    }

    /// Duration of the previous run in milliseconds, or -1.
    pub fn prev_elapsed_time_millis(&self) -> (r: i64)
        ensures
            r == self@.prev_elapsed_time_millis,
    {
        self.prev_elapsed_time_millis
    }

    /// Record how long this edge took last time, from the build log.
    pub fn set_prev_elapsed_time_millis(&mut self, millis: i64)
        ensures
            final(self)@ == (EdgeView { prev_elapsed_time_millis: millis, ..old(self)@ }),
    {
        self.prev_elapsed_time_millis = millis;
    }

    /// True for single-output phony edges, the kind that old generators made
    /// name themselves as inputs.
    pub fn maybe_phonycycle_diagnostic(&self) -> (r: bool)
        ensures
            r == self@.maybe_phony_cycle(),
    {
        self.rule == phony_rule() && self.outputs.len() == 1 && self.implicit_outs == 0
            && self.implicit_deps == 0
    }
}

/// A pool by what it holds.
pub struct PoolView {
    pub name: Seq<char>,
    pub depth: i32,
    pub current_use: i32,
}

/// A named limit on how many edges may run concurrently.
#[derive(Debug)]
pub struct Pool {
    pub name: String,
    /// 0 means unlimited.
    pub depth: i32,
    pub current_use: i32,
}

impl View for Pool {
    type V = PoolView;

    open spec fn view(&self) -> PoolView {
        PoolView { name: self.name@, depth: self.depth, current_use: self.current_use }
    }
}

impl Pool {
    /// A new pool. A depth of 0 means unlimited.
    pub fn new(name: String, depth: i32) -> (r: Pool)
        ensures
            r@ == (PoolView { name: name@, depth, current_use: 0 }),
    {
        Pool { name, depth, current_use: 0 }
    }

    /// The pool's name (empty for the default pool).
    pub fn name(&self) -> (r: &str)
        ensures
            r@ == self@.name,
    {
        self.name.as_str()
    }

    /// Maximum concurrent weight, 0 meaning unlimited.
    pub fn depth(&self) -> (r: i32)
        ensures
            r == self@.depth,
    {
        self.depth
    }

    /// Weight currently scheduled from this pool.
    pub fn current_use(&self) -> (r: i32)
        ensures
            r == self@.current_use,
    {
        self.current_use
    }

    /// True if this pool can delay edges.
    pub fn should_delay_edge(&self) -> (r: bool)
        ensures
            r == (self@.depth != 0),
    {
        self.depth != 0
    }

    /// Count an edge of the given weight as scheduled.
    pub fn edge_scheduled(&mut self, weight: i32)
        requires
            old(self)@.depth != 0 ==> i32::MIN <= old(self)@.current_use + weight <= i32::MAX,
        ensures
            final(self)@ == (PoolView {
                current_use: if old(self)@.depth != 0 {
                    (old(self)@.current_use + weight) as i32
                } else {
                    old(self)@.current_use
                },
                ..old(self)@
            }),
    {
        if self.depth != 0 {
            self.current_use = self.current_use + weight;
        }
    }

    /// Count an edge of the given weight as finished.
    pub fn edge_finished(&mut self, weight: i32)
        requires
            old(self)@.depth != 0 ==> i32::MIN <= old(self)@.current_use - weight <= i32::MAX,
        ensures
            final(self)@ == (PoolView {
                current_use: if old(self)@.depth != 0 {
                    (old(self)@.current_use - weight) as i32
                } else {
                    old(self)@.current_use
                },
                ..old(self)@
            }),
    {
        if self.depth != 0 {
            self.current_use = self.current_use - weight;
        }
    }

    /// Forget what is scheduled.
    pub fn reset(&mut self)
        ensures
            final(self)@ == (PoolView { current_use: 0, ..old(self)@ }),
    {
        self.current_use = 0;
    }
}

/// How `$in`/`$out` are quoted when a binding is expanded.
#[derive(Copy, Clone, PartialEq, Eq, Structural, Debug)]
pub enum Escape {
    /// Quote for the host shell (used for command lines).
    Shell,
    /// Leave paths as they are (used for depfile/rspfile/dyndep paths).
    Plain,
}

/// Whether every node id is one of the first `n`.
pub open spec fn nodes_below(ids: Seq<NodeId>, n: nat) -> bool {
    forall|k: int| 0 <= k < ids.len() ==> (#[trigger] ids[k]).0 < n
}

/// Whether every edge id is one of the first `n`.
pub open spec fn edges_below(ids: Seq<EdgeId>, n: nat) -> bool {
    forall|k: int| 0 <= k < ids.len() ==> (#[trigger] ids[k]).0 < n
}

/// The build graph by what it holds.
pub struct StateView {
    pub nodes: Seq<NodeView>,
    pub edges: Seq<EdgeView>,
    pub scopes: ScopesView,
    pub pools: Seq<PoolView>,
    pub defaults: Seq<NodeId>,
}

/// The path of a node.
pub open spec fn path_of(s: StateView, n: NodeId) -> Seq<char> {
    s.nodes[n.0 as int].path
}

/// The first node from the `k`-th on with the given path, or the number of
/// nodes.
pub open spec fn node_index(nodes: Seq<NodeView>, path: Seq<char>, k: int) -> int
    decreases nodes.len() - k,
{
    if 0 <= k < nodes.len() && nodes[k].path != path {
        node_index(nodes, path, k + 1)
    } else {
        k
    }
}

/// The first pool from the `k`-th on with the given name, or the number of
/// pools.
pub open spec fn pool_index(pools: Seq<PoolView>, name: Seq<char>, k: int) -> int
    decreases pools.len() - k,
{
    if 0 <= k < pools.len() && pools[k].name != name {
        pool_index(pools, name, k + 1)
    } else {
        k
    }
}

impl StateView {
    /// Every id a node holds is an id of the graph.
    pub open spec fn node_ok(self, n: NodeView) -> bool {
        &&& n.in_edge matches Some(e) ==> e.0 < self.edges.len()
        &&& edges_below(n.out_edges, self.edges.len())
        &&& edges_below(n.validation_out_edges, self.edges.len())
    }

    /// Every id an edge holds is an id of the graph.
    pub open spec fn edge_ok(self, e: EdgeView) -> bool {
        &&& e.rule.0 < self.scopes.rules.len()
        &&& e.scope.0 < self.scopes.scopes.len()
        &&& e.pool.0 < self.pools.len()
        &&& nodes_below(e.inputs, self.nodes.len())
        &&& nodes_below(e.outputs, self.nodes.len())
        &&& nodes_below(e.validations, self.nodes.len())
        &&& e.dyndep matches Some(d) ==> d.0 < self.nodes.len()
    }

    /// Every output of edge `e` names it as its producer.
    pub open spec fn outputs_linked(self, e: int) -> bool {
        forall|k: int|
            0 <= k < self.edges[e].outputs.len() ==> self.nodes[(
            #[trigger] self.edges[e].outputs[k]).0 as int].in_edge == Some(EdgeId(e as usize))
    }

    /// Every input of edge `e` names it among its consumers.
    pub open spec fn inputs_linked(self, e: int) -> bool {
        forall|k: int|
            0 <= k < self.edges[e].inputs.len() ==> self.nodes[(
            #[trigger] self.edges[e].inputs[k]).0 as int].out_edges.contains(EdgeId(e as usize))
    }

    /// Every consumer of node `n` lists it among its inputs.
    pub open spec fn consumers_linked(self, n: int) -> bool {
        forall|k: int|
            0 <= k < self.nodes[n].out_edges.len() ==> self.edges[(
            #[trigger] self.nodes[n].out_edges[k]).0 as int].inputs.contains(NodeId(n as usize))
    }

    /// The producer of node `n` lists it among its outputs.
    pub open spec fn producer_linked(self, n: int) -> bool {
        self.nodes[n].in_edge matches Some(e) ==> self.edges[e.0 as int].outputs.contains(
            NodeId(n as usize),
        )
    }

    /// The invariant of the graph: ids are in range, paths and pool names are
    /// distinct, edges are numbered in order, the counts of an edge fit its
    /// lists, every file has at most one producer, which knows it, and a file
    /// knows just the edges that consume it.
    pub open spec fn wf(self) -> bool {
        &&& self.scopes.wf()
        &&& self.pools.len() >= 2
        &&& nodes_below(self.defaults, self.nodes.len())
        &&& forall|i: int| 0 <= i < self.nodes.len() ==> self.node_ok(#[trigger] self.nodes[i])
        &&& forall|i: int| 0 <= i < self.edges.len() ==> self.edge_ok(#[trigger] self.edges[i])
        &&& forall|i: int| 0 <= i < self.edges.len() ==> (#[trigger] self.edges[i]).id == i
        &&& forall|i: int| 0 <= i < self.edges.len() ==> (#[trigger] self.edges[i]).counts_ok()
        &&& forall|i: int, j: int|
            0 <= i < j < self.nodes.len() ==> (#[trigger] self.nodes[i]).path != (
            #[trigger] self.nodes[j]).path
        &&& forall|i: int, j: int|
            0 <= i < j < self.pools.len() ==> (#[trigger] self.pools[i]).name != (
            #[trigger] self.pools[j]).name
        &&& forall|e: int| 0 <= e < self.edges.len() ==> #[trigger] self.outputs_linked(e)
        &&& forall|e: int| 0 <= e < self.edges.len() ==> #[trigger] self.inputs_linked(e)
        &&& forall|n: int| 0 <= n < self.nodes.len() ==> #[trigger] self.producer_linked(n)
        &&& forall|n: int| 0 <= n < self.nodes.len() ==> #[trigger] self.consumers_linked(n)
    }

    /// The node with the given path, if there is one.
    pub open spec fn find_node(self, path: Seq<char>) -> Option<NodeId> {
        let k = node_index(self.nodes, path, 0);
        if k < self.nodes.len() {
            Some(NodeId(k as usize))
        } else {
            None
        }
    }

    /// The pool with the given name, if there is one.
    pub open spec fn find_pool(self, name: Seq<char>) -> Option<PoolId> {
        let k = pool_index(self.pools, name, 0);
        if k < self.pools.len() {
            Some(PoolId(k as usize))
        } else {
            None
        }
    }

    /// The graph with node `i` replaced.
    pub open spec fn with_node(self, i: int, n: NodeView) -> StateView {
        StateView { nodes: self.nodes.update(i, n), ..self }
    }

    /// The graph with edge `i` replaced.
    pub open spec fn with_edge(self, i: int, e: EdgeView) -> StateView {
        StateView { edges: self.edges.update(i, e), ..self }
    }

    /// The graph with pool `i` replaced.
    pub open spec fn with_pool(self, i: int, p: PoolView) -> StateView {
        StateView { pools: self.pools.update(i, p), ..self }
    }

    /// The id that `path` has, or would get.
    pub open spec fn id_of(self, path: Seq<char>) -> NodeId {
        NodeId(node_index(self.nodes, path, 0) as usize)
    }

    /// The graph with a node for `path`.
    pub open spec fn interned(self, path: Seq<char>, bits: u64) -> StateView {
        match self.find_node(path) {
            Some(_) => self,
            None => StateView { nodes: self.nodes.push(new_node(path, bits)), ..self },
        }
    }

    /// The graph with one more edge.
    pub open spec fn edge_added(self, rule: RuleId, scope: ScopeId) -> StateView {
        StateView {
            edges: self.edges.push(new_edge(rule, scope, self.edges.len() as usize)),
            ..self
        }
    }

    /// The graph with `path` connected as an input of `edge`.
    pub open spec fn in_added(self, edge: EdgeId, path: Seq<char>, bits: u64) -> StateView {
        let s = self.interned(path, bits);
        let n = self.id_of(path).0 as int;
        let e = s.edges[edge.0 as int];
        s.with_node(
            n,
            NodeView {
                generated_by_dep_loader: false,
                out_edges: s.nodes[n].out_edges.push(edge),
                ..s.nodes[n]
            },
        ).with_edge(edge.0 as int, EdgeView { inputs: e.inputs.push(self.id_of(path)), ..e })
    }

    /// Why `path` cannot be an output of `edge`, if another edge, or the same
    /// one, already produces it.
    pub open spec fn out_conflict(self, edge: EdgeId, path: Seq<char>) -> Option<Seq<char>> {
        match self.find_node(path) {
            None => None,
            Some(n) => match self.nodes[n.0 as int].in_edge {
                None => None,
                Some(other) => Some(
                    if other == edge {
                        path + " is defined as an output multiple times"@
                    } else {
                        "multiple rules generate "@ + path
                    },
                ),
            },
        }
    }

    /// The graph with `path` connected as an output of `edge`.
    pub open spec fn out_added(self, edge: EdgeId, path: Seq<char>, bits: u64) -> StateView {
        let s = self.interned(path, bits);
        let n = self.id_of(path).0 as int;
        let e = s.edges[edge.0 as int];
        s.with_node(
            n,
            NodeView { in_edge: Some(edge), generated_by_dep_loader: false, ..s.nodes[n] },
        ).with_edge(edge.0 as int, EdgeView { outputs: e.outputs.push(self.id_of(path)), ..e })
    }

    /// The graph with `path` as a validation target of `edge`.
    pub open spec fn validation_added(self, edge: EdgeId, path: Seq<char>, bits: u64) -> StateView {
        let s = self.interned(path, bits);
        let n = self.id_of(path).0 as int;
        let e = s.edges[edge.0 as int];
        s.with_node(
            n,
            NodeView {
                generated_by_dep_loader: false,
                validation_out_edges: s.nodes[n].validation_out_edges.push(edge),
                ..s.nodes[n]
            },
        ).with_edge(
            edge.0 as int,
            EdgeView { validations: e.validations.push(self.id_of(path)), ..e },
        )
    }

    /// The graph with `node` as one more implicit input of `edge`, before the
    /// inputs that only order it.
    pub open spec fn input_spliced(self, edge: EdgeId, node: NodeId) -> StateView {
        let n = self.nodes[node.0 as int];
        let e = self.edges[edge.0 as int];
        self.with_node(
            node.0 as int,
            NodeView { out_edges: n.out_edges.push(edge), ..n },
        ).with_edge(
            edge.0 as int,
            EdgeView {
                inputs: e.inputs.insert(e.first_order_only(), node),
                implicit_deps: e.implicit_deps.wrapping_add(1),
                ..e
            },
        )
    }

    /// The graph with the nodes from the `k`-th on as implicit inputs of `edge`.
    pub open spec fn inputs_spliced(self, edge: EdgeId, nodes: Seq<NodeId>, k: int) -> StateView
        decreases nodes.len() - k,
    {
        if 0 <= k < nodes.len() {
            self.input_spliced(edge, nodes[k]).inputs_spliced(edge, nodes, k + 1)
        } else {
            self
        }
    }

    /// The graph in which `edge` does not consume `node`.
    pub open spec fn input_dropped(self, edge: EdgeId, node: NodeId) -> StateView {
        let n = self.nodes[node.0 as int];
        let e = self.edges[edge.0 as int];
        let keep = other_than(node);
        self.with_node(
            node.0 as int,
            NodeView { out_edges: n.out_edges.filter(edge_other_than(edge)), ..n },
        ).with_edge(
            edge.0 as int,
            EdgeView {
                inputs: e.inputs.filter(keep),
                implicit_deps: e.inputs.subrange(e.explicit(), e.first_order_only()).filter(
                    keep,
                ).len() as usize,
                order_only_deps: e.inputs.skip(e.first_order_only()).filter(keep).len() as usize,
                ..e
            },
        )
    }

    /// The graph with `node` as one more implicit output of `edge`.
    pub open spec fn output_connected(self, edge: EdgeId, node: NodeId) -> StateView {
        let n = self.nodes[node.0 as int];
        let e = self.edges[edge.0 as int];
        self.with_node(node.0 as int, NodeView { in_edge: Some(edge), ..n }).with_edge(
            edge.0 as int,
            EdgeView {
                outputs: e.outputs.push(node),
                implicit_outs: e.implicit_outs.wrapping_add(1),
                ..e
            },
        )
    }

    /// The graph with one more edge of the pool scheduled.
    pub open spec fn pool_taken(self, pool: PoolId) -> StateView {
        let p = self.pools[pool.0 as int];
        self.with_pool(
            pool.0 as int,
            PoolView {
                current_use: if p.depth != 0 {
                    p.current_use.wrapping_add(1)
                } else {
                    p.current_use
                },
                ..p
            },
        )
    }

    /// The graph with one edge of the pool less scheduled.
    pub open spec fn pool_freed(self, pool: PoolId) -> StateView {
        let p = self.pools[pool.0 as int];
        self.with_pool(
            pool.0 as int,
            PoolView {
                current_use: if p.depth != 0 {
                    p.current_use.wrapping_sub(1)
                } else {
                    p.current_use
                },
                ..p
            },
        )
    }

    /// The outputs of the first `k` edges that no edge consumes.
    pub open spec fn roots(self, k: int) -> Seq<NodeId>
        decreases k,
    {
        if 0 < k <= self.edges.len() {
            self.roots(k - 1) + self.edges[k - 1].outputs.filter(
                |n: NodeId| self.nodes[n.0 as int].out_edges.len() == 0,
            )
        } else {
            Seq::empty()
        }
    }

    /// The targets to build when none are named, or what is wrong.
    pub open spec fn default_targets(self) -> Result<Seq<NodeId>, Seq<char>> {
        if self.defaults.len() > 0 {
            Ok(self.defaults)
        } else {
            self.root_targets()
        }
    }

    /// The files that no edge consumes, or what is wrong.
    pub open spec fn root_targets(self) -> Result<Seq<NodeId>, Seq<char>> {
        let r = self.roots(self.edges.len() as int);
        if self.edges.len() > 0 && r.len() == 0 {
            Err("could not determine root nodes of build graph"@)
        } else {
            Ok(r)
        }
    }

    /// The graph before any build: stat results, marks and pool use forgotten.
    pub open spec fn reset(self) -> StateView {
        StateView {
            nodes: Seq::new(self.nodes.len(), |i: int| self.nodes[i].forgotten()),
            edges: Seq::new(
                self.edges.len(),
                |i: int|
                    EdgeView {
                        outputs_ready: false,
                        deps_loaded: false,
                        mark: VisitMark::Unvisited,
                        ..self.edges[i]
                    },
            ),
            pools: Seq::new(
                self.pools.len(),
                |i: int| PoolView { current_use: 0, ..self.pools[i] },
            ),
            ..self
        }
    }

    /// Whether every input of `edge` has been produced.
    pub open spec fn inputs_ready(self, edge: int) -> bool {
        forall|k: int|
            0 <= k < self.edges[edge].inputs.len() ==> match self.nodes[(
            #[trigger] self.edges[edge].inputs[k]).0 as int].in_edge {
                Some(e) => self.edges[e.0 as int].outputs_ready,
                None => true,
            }
    }

    /// The rule of `edge`.
    pub open spec fn rule_of(self, edge: int) -> RuleView {
        self.scopes.rules[self.edges[edge].rule.0 as int]
    }
}

/// The graph that holds the built-in rule and pools alone.
pub open spec fn initial_state() -> StateView {
    StateView {
        nodes: Seq::empty(),
        edges: Seq::empty(),
        scopes: initial_scopes(),
        pools: seq![
            PoolView { name: Seq::empty(), depth: 0, current_use: 0 },
            PoolView { name: "console"@, depth: 1, current_use: 0 },
        ],
        defaults: Seq::empty(),
    }
}

/// The first node with a path is found, and it has that path.
pub proof fn lemma_node_index(nodes: Seq<NodeView>, path: Seq<char>, k: int)
    requires
        0 <= k <= nodes.len(),
    ensures
        k <= node_index(nodes, path, k) <= nodes.len(),
        node_index(nodes, path, k) < nodes.len() ==> nodes[node_index(nodes, path, k)].path == path,
        forall|i: int|
            k <= i < node_index(nodes, path, k) ==> (#[trigger] nodes[i]).path != path,
    decreases nodes.len() - k,
{
    if k < nodes.len() && nodes[k].path != path {
        lemma_node_index(nodes, path, k + 1);
    }
}

/// The index of a pool is that of the first with the name.
pub proof fn lemma_pool_index(pools: Seq<PoolView>, name: Seq<char>, k: int)
    requires
        0 <= k <= pools.len(),
    ensures
        k <= pool_index(pools, name, k) <= pools.len(),
        pool_index(pools, name, k) < pools.len() ==> pools[pool_index(pools, name, k)].name == name,
        forall|i: int|
            k <= i < pool_index(pools, name, k) ==> (#[trigger] pools[i]).name != name,
    decreases pools.len() - k,
{
    if k < pools.len() && pools[k].name != name {
        lemma_pool_index(pools, name, k + 1);
    }
}

/// Interning a path gives it a node of its own and leaves everything else as it
/// was.
pub proof fn law_interning(s: StateView, path: Seq<char>, bits: u64)
    requires
        s.wf(),
        s.nodes.len() <= usize::MAX,
        s.find_node(path) is None ==> s.nodes.len() < usize::MAX,
    ensures
        ({
            let t = s.interned(path, bits);
            let n = s.id_of(path).0 as int;
            &&& t.wf()
            &&& n == node_index(s.nodes, path, 0)
            &&& n < t.nodes.len()
            &&& t.nodes[n].path == path
            &&& t.find_node(path) == Some(s.id_of(path))
            &&& t.id_of(path) == s.id_of(path)
            &&& t.interned(path, bits) == t
            &&& t.edges == s.edges
            &&& s.nodes.len() <= t.nodes.len()
            &&& forall|i: int| 0 <= i < s.nodes.len() ==> #[trigger] t.nodes[i] == s.nodes[i]
        }),
{
    let t = s.interned(path, bits);
    lemma_node_index(s.nodes, path, 0);
    lemma_node_index(t.nodes, path, 0);
    let k = node_index(s.nodes, path, 0);
    let m = node_index(t.nodes, path, 0);
    if k == s.nodes.len() {
        assert(t.nodes[k].path == path);
        if m < k {
            assert(t.nodes[m] == s.nodes[m]);
        }
        assert forall|i: int| 0 <= i < t.nodes.len() implies t.node_ok(#[trigger] t.nodes[i]) by {
            if i < s.nodes.len() {
                assert(s.node_ok(s.nodes[i]));
            }
        }
        assert forall|i: int| 0 <= i < t.edges.len() implies t.edge_ok(#[trigger] t.edges[i]) by {
            assert(s.edge_ok(s.edges[i]));
        }
        assert forall|e: int| 0 <= e < t.edges.len() implies #[trigger] t.outputs_linked(e) by {
            assert(s.outputs_linked(e));
            assert(s.edge_ok(s.edges[e]));
        }
        assert forall|e: int| 0 <= e < t.edges.len() implies #[trigger] t.inputs_linked(e) by {
            assert(s.inputs_linked(e));
            assert(s.edge_ok(s.edges[e]));
        }
        assert forall|n: int| 0 <= n < t.nodes.len() implies #[trigger] t.producer_linked(n) by {
            if n < s.nodes.len() {
                assert(s.producer_linked(n));
            }
        }
        assert forall|n: int| 0 <= n < t.nodes.len() implies #[trigger] t.consumers_linked(n) by {
            if n < s.nodes.len() {
                assert(s.consumers_linked(n));
            }
        }
    }
}

/// Replacing a node by one with the same path and links keeps the invariant.
pub proof fn lemma_node_update(s: StateView, i: int, n: NodeView)
    requires
        s.wf(),
        0 <= i < s.nodes.len(),
        n.path == s.nodes[i].path,
        n.in_edge == s.nodes[i].in_edge,
        n.out_edges == s.nodes[i].out_edges,
        edges_below(n.validation_out_edges, s.edges.len()),
    ensures
        s.with_node(i, n).wf(),
{
    let t = s.with_node(i, n);
    assert(s.node_ok(s.nodes[i]));
    assert forall|j: int| 0 <= j < t.nodes.len() implies t.node_ok(#[trigger] t.nodes[j]) by {
        assert(s.node_ok(s.nodes[j]));
    }
    assert forall|j: int| 0 <= j < t.edges.len() implies t.edge_ok(#[trigger] t.edges[j]) by {
        assert(s.edge_ok(s.edges[j]));
    }
    assert forall|e: int| 0 <= e < t.edges.len() implies #[trigger] t.outputs_linked(e) by {
        assert(s.outputs_linked(e));
        assert(s.edge_ok(s.edges[e]));
    }
    assert forall|e: int| 0 <= e < t.edges.len() implies #[trigger] t.inputs_linked(e) by {
        assert(s.inputs_linked(e));
        assert(s.edge_ok(s.edges[e]));
    }
    assert forall|k: int| 0 <= k < t.nodes.len() implies #[trigger] t.producer_linked(k) by {
        assert(s.producer_linked(k));
    }
    assert forall|k: int| 0 <= k < t.nodes.len() implies #[trigger] t.consumers_linked(k) by {
        assert(s.consumers_linked(k));
        assert(s.node_ok(s.nodes[k]));
    }
}

/// Replacing an edge by one with the same inputs and outputs keeps the
/// invariant.
pub proof fn lemma_edge_update(s: StateView, i: int, e: EdgeView)
    requires
        s.wf(),
        0 <= i < s.edges.len(),
        s.edge_ok(e),
        e.id == s.edges[i].id,
        e.outputs == s.edges[i].outputs,
        e.inputs == s.edges[i].inputs,
        e.counts_ok(),
    ensures
        s.with_edge(i, e).wf(),
{
    let t = s.with_edge(i, e);
    assert forall|j: int| 0 <= j < t.nodes.len() implies t.node_ok(#[trigger] t.nodes[j]) by {
        assert(s.node_ok(s.nodes[j]));
    }
    assert forall|j: int| 0 <= j < t.edges.len() implies t.edge_ok(#[trigger] t.edges[j]) by {
        assert(s.edge_ok(s.edges[j]));
    }
    assert forall|j: int| 0 <= j < t.edges.len() implies (#[trigger] t.edges[j]).id == j by {
        assert(s.edges[j].id == j);
    }
    assert forall|j: int| 0 <= j < t.edges.len() implies #[trigger] t.outputs_linked(j) by {
        assert(s.outputs_linked(j));
        assert(s.edge_ok(s.edges[j]));
        if j == i {
            assert forall|k: int| 0 <= k < t.edges[j].outputs.len() implies t.nodes[(
            #[trigger] t.edges[j].outputs[k]).0 as int].in_edge == Some(EdgeId(j as usize)) by {
                assert(s.edges[j].outputs[k] == t.edges[j].outputs[k]);
            }
        }
    }
    assert forall|j: int| 0 <= j < t.edges.len() implies #[trigger] t.inputs_linked(j) by {
        assert(s.inputs_linked(j));
        assert(s.edge_ok(s.edges[j]));
        if j == i {
            assert forall|k: int| 0 <= k < t.edges[j].inputs.len() implies t.nodes[(
            #[trigger] t.edges[j].inputs[k]).0 as int].out_edges.contains(EdgeId(j as usize)) by {
                assert(s.edges[i].inputs.contains(e.inputs[k]));
                let m = choose|m: int|
                    0 <= m < s.edges[i].inputs.len() && s.edges[i].inputs[m] == e.inputs[k];
                assert(s.nodes[s.edges[j].inputs[m].0 as int].out_edges.contains(
                    EdgeId(j as usize),
                ));
            }
        }
    }
    assert forall|k: int| 0 <= k < t.nodes.len() implies #[trigger] t.producer_linked(k) by {
        assert(s.producer_linked(k));
        assert(s.node_ok(s.nodes[k]));
    }
    assert forall|k: int| 0 <= k < t.nodes.len() implies #[trigger] t.consumers_linked(k) by {
        assert(s.consumers_linked(k));
        assert(s.node_ok(s.nodes[k]));
    }
}

/// Connecting `node` as a new input of `edge` keeps the invariant.
pub proof fn lemma_input_connected(s: StateView, edge: EdgeId, e: EdgeView, n: int, v: NodeView)
    requires
        s.wf(),
        edge.0 < s.edges.len(),
        0 <= n < s.nodes.len(),
        n <= usize::MAX,
        s.edge_ok(e),
        e.id == s.edges[edge.0 as int].id,
        e.counts_ok(),
        e.outputs == s.edges[edge.0 as int].outputs,
        forall|k: int|
            0 <= k < e.inputs.len() ==> (#[trigger] e.inputs[k]).0 == n
                || s.edges[edge.0 as int].inputs.contains(e.inputs[k]),
        e.inputs.contains(NodeId(n as usize)),
        forall|k: int|
            0 <= k < s.edges[edge.0 as int].inputs.len() ==> e.inputs.contains(
                #[trigger] s.edges[edge.0 as int].inputs[k],
            ),
        v.path == s.nodes[n].path,
        v.in_edge == s.nodes[n].in_edge,
        v.out_edges == s.nodes[n].out_edges.push(edge),
        v.validation_out_edges == s.nodes[n].validation_out_edges,
    ensures
        s.with_node(n, v).with_edge(edge.0 as int, e).wf(),
{
    let t = s.with_node(n, v).with_edge(edge.0 as int, e);
    let i = edge.0 as int;
    assert(s.node_ok(s.nodes[n]));
    assert forall|j: int| 0 <= j < t.nodes.len() implies t.node_ok(#[trigger] t.nodes[j]) by {
        assert(s.node_ok(s.nodes[j]));
    }
    assert forall|j: int| 0 <= j < t.edges.len() implies t.edge_ok(#[trigger] t.edges[j]) by {
        assert(s.edge_ok(s.edges[j]));
    }
    assert forall|j: int| 0 <= j < t.edges.len() implies (#[trigger] t.edges[j]).id == j by {
        assert(s.edges[j].id == j);
    }
    assert forall|j: int| 0 <= j < t.edges.len() implies #[trigger] t.outputs_linked(j) by {
        assert(s.outputs_linked(j));
        assert(s.edge_ok(s.edges[j]));
        assert forall|k: int| 0 <= k < t.edges[j].outputs.len() implies t.nodes[(
        #[trigger] t.edges[j].outputs[k]).0 as int].in_edge == Some(EdgeId(j as usize)) by {
            assert(s.edges[j].outputs[k] == t.edges[j].outputs[k]);
        }
    }
    assert(v.out_edges.contains(edge)) by {
        assert(v.out_edges[v.out_edges.len() - 1] == edge);
    }
    assert forall|x: EdgeId| #[trigger] s.nodes[n].out_edges.contains(x) implies v.out_edges.contains(
        x,
    ) by {
        let m = choose|m: int| 0 <= m < s.nodes[n].out_edges.len() && s.nodes[n].out_edges[m] == x;
        assert(v.out_edges[m] == x);
    }
    assert forall|j: int| 0 <= j < t.edges.len() implies #[trigger] t.inputs_linked(j) by {
        assert(s.inputs_linked(j));
        assert(s.edge_ok(s.edges[j]));
        assert forall|k: int| 0 <= k < t.edges[j].inputs.len() implies t.nodes[(
        #[trigger] t.edges[j].inputs[k]).0 as int].out_edges.contains(EdgeId(j as usize)) by {
            let x = t.edges[j].inputs[k];
            if j == i && x.0 == n {
            } else if j == i {
                assert(s.edges[i].inputs.contains(e.inputs[k]));
                let m = choose|m: int|
                    0 <= m < s.edges[i].inputs.len() && s.edges[i].inputs[m] == e.inputs[k];
                assert(s.nodes[s.edges[j].inputs[m].0 as int].out_edges.contains(
                    EdgeId(j as usize),
                ));
            } else {
                assert(s.nodes[s.edges[j].inputs[k].0 as int].out_edges.contains(
                    EdgeId(j as usize),
                ));
            }
        }
    }
    assert forall|k: int| 0 <= k < t.nodes.len() implies #[trigger] t.producer_linked(k) by {
        assert(s.producer_linked(k));
        assert(s.node_ok(s.nodes[k]));
    }
    assert forall|k: int| 0 <= k < t.nodes.len() implies #[trigger] t.consumers_linked(k) by {
        assert(s.consumers_linked(k));
        assert(s.node_ok(s.nodes[k]));
        let x = NodeId(k as usize);
        assert forall|m: int| 0 <= m < t.nodes[k].out_edges.len() implies t.edges[(
        #[trigger] t.nodes[k].out_edges[m]).0 as int].inputs.contains(x) by {
            if m < s.nodes[k].out_edges.len() {
                let f = s.nodes[k].out_edges[m];
                assert(t.nodes[k].out_edges[m] == f);
                assert(s.edges[f.0 as int].inputs.contains(x));
                if f == edge {
                    let j = choose|j: int|
                        0 <= j < s.edges[i].inputs.len() && s.edges[i].inputs[j] == x;
                    assert(e.inputs.contains(s.edges[i].inputs[j]));
                }
            }
        }
    }
}

/// Connecting `node`, which no other edge produces, as a new output of `edge`
/// keeps the invariant.
pub proof fn lemma_output_connected(s: StateView, edge: EdgeId, e: EdgeView, n: int, v: NodeView)
    requires
        s.wf(),
        edge.0 < s.edges.len(),
        0 <= n < s.nodes.len(),
        n <= usize::MAX,
        s.edge_ok(e),
        e.id == s.edges[edge.0 as int].id,
        e.counts_ok(),
        e.inputs == s.edges[edge.0 as int].inputs,
        e.outputs == s.edges[edge.0 as int].outputs.push(NodeId(n as usize)),
        s.nodes[n].in_edge is None || s.nodes[n].in_edge == Some(edge),
        v.path == s.nodes[n].path,
        v.in_edge == Some(edge),
        v.out_edges == s.nodes[n].out_edges,
        v.validation_out_edges == s.nodes[n].validation_out_edges,
    ensures
        s.with_node(n, v).with_edge(edge.0 as int, e).wf(),
{
    let t = s.with_node(n, v).with_edge(edge.0 as int, e);
    let i = edge.0 as int;
    assert(s.node_ok(s.nodes[n]));
    assert forall|j: int| 0 <= j < t.nodes.len() implies t.node_ok(#[trigger] t.nodes[j]) by {
        assert(s.node_ok(s.nodes[j]));
    }
    assert forall|j: int| 0 <= j < t.edges.len() implies t.edge_ok(#[trigger] t.edges[j]) by {
        assert(s.edge_ok(s.edges[j]));
    }
    assert forall|j: int| 0 <= j < t.edges.len() implies (#[trigger] t.edges[j]).id == j by {
        assert(s.edges[j].id == j);
    }
    assert forall|j: int| 0 <= j < t.edges.len() implies #[trigger] t.outputs_linked(j) by {
        assert(s.outputs_linked(j));
        assert(s.edge_ok(s.edges[j]));
        assert forall|k: int| 0 <= k < t.edges[j].outputs.len() implies t.nodes[(
        #[trigger] t.edges[j].outputs[k]).0 as int].in_edge == Some(EdgeId(j as usize)) by {
            if k < s.edges[j].outputs.len() {
                assert(s.edges[j].outputs[k] == t.edges[j].outputs[k]);
                assert(s.nodes[s.edges[j].outputs[k].0 as int].in_edge == Some(EdgeId(j as usize)));
            }
        }
    }
    assert forall|j: int| 0 <= j < t.edges.len() implies #[trigger] t.inputs_linked(j) by {
        assert(s.inputs_linked(j));
        assert(s.edge_ok(s.edges[j]));
        assert forall|k: int| 0 <= k < t.edges[j].inputs.len() implies t.nodes[(
        #[trigger] t.edges[j].inputs[k]).0 as int].out_edges.contains(EdgeId(j as usize)) by {
            assert(s.nodes[s.edges[j].inputs[k].0 as int].out_edges.contains(EdgeId(j as usize)));
        }
    }
    assert forall|k: int| 0 <= k < t.nodes.len() implies #[trigger] t.consumers_linked(k) by {
        assert(s.consumers_linked(k));
        assert(s.node_ok(s.nodes[k]));
        assert forall|m: int| 0 <= m < t.nodes[k].out_edges.len() implies t.edges[(
        #[trigger] t.nodes[k].out_edges[m]).0 as int].inputs.contains(NodeId(k as usize)) by {
            assert(s.nodes[k].out_edges[m] == t.nodes[k].out_edges[m]);
        }
    }
    assert forall|k: int| 0 <= k < t.nodes.len() implies #[trigger] t.producer_linked(k) by {
        assert(s.producer_linked(k));
        assert(s.node_ok(s.nodes[k]));
        if k == n {
            assert(e.outputs[e.outputs.len() - 1] == NodeId(n as usize));
        } else if s.nodes[k].in_edge == Some(edge) {
            let m = choose|m: int|
                0 <= m < s.edges[i].outputs.len() && s.edges[i].outputs[m] == NodeId(k as usize);
            assert(e.outputs[m] == NodeId(k as usize));
        }
    assert forall|k: int| 0 <= k < t.nodes.len() implies #[trigger] t.consumers_linked(k) by {
        assert(s.consumers_linked(k));
        assert(s.node_ok(s.nodes[k]));
    }
    }
}

/// Adding an edge that connects nothing keeps the invariant.
pub proof fn lemma_edge_added(s: StateView, rule: RuleId, scope: ScopeId)
    requires
        s.wf(),
        rule.0 < s.scopes.rules.len(),
        scope.0 < s.scopes.scopes.len(),
        s.edges.len() < usize::MAX,
    ensures
        s.edge_added(rule, scope).wf(),
{
    let t = s.edge_added(rule, scope);
    assert forall|j: int| 0 <= j < t.nodes.len() implies t.node_ok(#[trigger] t.nodes[j]) by {
        assert(s.node_ok(s.nodes[j]));
    }
    assert forall|j: int| 0 <= j < t.edges.len() implies t.edge_ok(#[trigger] t.edges[j]) by {
        if j < s.edges.len() {
            assert(s.edge_ok(s.edges[j]));
        }
    }
    assert forall|j: int| 0 <= j < t.edges.len() implies (#[trigger] t.edges[j]).id == j by {
        if j < s.edges.len() {
            assert(s.edges[j].id == j);
        }
    }
    assert forall|j: int| 0 <= j < t.edges.len() implies #[trigger] t.outputs_linked(j) by {
        if j < s.edges.len() {
            assert(s.outputs_linked(j));
        }
    }
    assert forall|j: int| 0 <= j < t.edges.len() implies #[trigger] t.inputs_linked(j) by {
        if j < s.edges.len() {
            assert(s.inputs_linked(j));
        }
    }
    assert forall|k: int| 0 <= k < t.nodes.len() implies #[trigger] t.producer_linked(k) by {
        assert(s.producer_linked(k));
        assert(s.node_ok(s.nodes[k]));
    }
    assert forall|k: int| 0 <= k < t.nodes.len() implies #[trigger] t.consumers_linked(k) by {
        assert(s.consumers_linked(k));
        assert(s.node_ok(s.nodes[k]));
    }
}

/// Scopes, rules, pools and defaults may grow without breaking the invariant.
pub proof fn lemma_context_grown(s: StateView, t: StateView)
    requires
        s.wf(),
        t.nodes == s.nodes,
        t.edges == s.edges,
        t.scopes.wf(),
        t.scopes.rules.len() >= s.scopes.rules.len(),
        t.scopes.scopes.len() >= s.scopes.scopes.len(),
        t.pools.len() >= s.pools.len(),
        nodes_below(t.defaults, t.nodes.len()),
        forall|i: int, j: int|
            0 <= i < j < t.pools.len() ==> (#[trigger] t.pools[i]).name != (
            #[trigger] t.pools[j]).name,
    ensures
        t.wf(),
{
    assert forall|j: int| 0 <= j < t.nodes.len() implies t.node_ok(#[trigger] t.nodes[j]) by {
        assert(s.node_ok(s.nodes[j]));
    }
    assert forall|j: int| 0 <= j < t.edges.len() implies t.edge_ok(#[trigger] t.edges[j]) by {
        assert(s.edge_ok(s.edges[j]));
    }
    assert forall|j: int| 0 <= j < t.edges.len() implies #[trigger] t.outputs_linked(j) by {
        assert(s.outputs_linked(j));
    }
    assert forall|j: int| 0 <= j < t.edges.len() implies #[trigger] t.inputs_linked(j) by {
        assert(s.inputs_linked(j));
    }
    assert forall|k: int| 0 <= k < t.nodes.len() implies #[trigger] t.producer_linked(k) by {
        assert(s.producer_linked(k));
    }
    assert forall|k: int| 0 <= k < t.nodes.len() implies #[trigger] t.consumers_linked(k) by {
        assert(s.consumers_linked(k));
        assert(s.node_ok(s.nodes[k]));
    }
}

/// No file is an output of two edges.
pub proof fn law_outputs_have_one_producer(s: StateView, e: int, k: int, f: int, m: int)
    requires
        s.wf(),
        s.edges.len() <= usize::MAX,
        0 <= e < s.edges.len(),
        0 <= f < s.edges.len(),
        0 <= k < s.edges[e].outputs.len(),
        0 <= m < s.edges[f].outputs.len(),
        s.edges[e].outputs[k] == s.edges[f].outputs[m],
    ensures
        e == f,
{
    assert(s.outputs_linked(e));
    assert(s.outputs_linked(f));
    let x = s.edges[e].outputs[k];
    assert(s.nodes[x.0 as int].in_edge == Some(EdgeId(e as usize)));
    let y = s.edges[f].outputs[m];
    assert(s.nodes[y.0 as int].in_edge == Some(EdgeId(f as usize)));
}

/// A file knows an edge as one that consumes it just where it is an input of
/// that edge.
pub proof fn law_consumers_are_known(s: StateView, n: NodeId, e: EdgeId)
    requires
        s.wf(),
        n.0 < s.nodes.len(),
        e.0 < s.edges.len(),
    ensures
        s.nodes[n.0 as int].out_edges.contains(e) <==> s.edges[e.0 as int].inputs.contains(n),
{
    let out = s.nodes[n.0 as int].out_edges;
    let ins = s.edges[e.0 as int].inputs;
    assert(s.consumers_linked(n.0 as int));
    assert(s.inputs_linked(e.0 as int));
    if out.contains(e) {
        let k = choose|k: int| 0 <= k < out.len() && out[k] == e;
        assert(s.edges[out[k].0 as int].inputs.contains(n));
    }
    if ins.contains(n) {
        let k = choose|k: int| 0 <= k < ins.len() && ins[k] == n;
        assert(s.nodes[ins[k].0 as int].out_edges.contains(e));
    }
}

/// The explicit, the implicit and the order-only inputs of an edge, in this
/// order, are its inputs.
pub proof fn law_inputs_divide(s: StateView, e: int)
    requires
        s.wf(),
        0 <= e < s.edges.len(),
    ensures
        ({
            let x = s.edges[e];
            &&& x.explicit() + x.implicit_deps + x.order_only_deps == x.inputs.len()
            &&& x.first_order_only() == x.explicit() + x.implicit_deps
            &&& x.inputs == x.inputs.take(x.explicit()) + x.inputs.subrange(
                x.explicit(),
                x.first_order_only(),
            ) + x.inputs.skip(x.first_order_only())
        }),
{
    let x = s.edges[e];
    assert(x.counts_ok());
    assert(x.inputs =~= x.inputs.take(x.explicit()) + x.inputs.subrange(
        x.explicit(),
        x.first_order_only(),
    ) + x.inputs.skip(x.first_order_only()));
}

proof fn lemma_filter_keeps<A>(v: Seq<A>, keep: spec_fn(A) -> bool)
    ensures
        v.filter(keep).len() <= v.len(),
        forall|x: A| #[trigger] v.filter(keep).contains(x) <==> v.contains(x) && keep(x),
{
    v.lemma_filter_len(keep);
    assert forall|x: A| #[trigger] v.filter(keep).contains(x) <==> v.contains(x) && keep(x) by {
        if v.filter(keep).contains(x) {
            let k = choose|k: int| 0 <= k < v.filter(keep).len() && v.filter(keep)[k] == x;
            v.lemma_filter_pred(keep, k);
            v.lemma_filter_contains_rev(keep, x);
        }
        if v.contains(x) && keep(x) {
            let k = choose|k: int| 0 <= k < v.len() && v[k] == x;
            v.lemma_filter_contains(keep, k);
        }
    }
}

/// Dropping an input keeps the invariant.
pub proof fn lemma_input_dropped(s: StateView, edge: EdgeId, node: NodeId)
    requires
        s.wf(),
        edge.0 < s.edges.len(),
        node.0 < s.nodes.len(),
        s.edges.len() <= usize::MAX,
        s.nodes.len() <= usize::MAX,
        s.edges[edge.0 as int].inputs.len() <= usize::MAX,
    ensures
        s.input_dropped(edge, node).wf(),
        ({
            let x = s.edges[edge.0 as int];
            let keep = other_than(node);
            x.inputs.filter(keep) == x.inputs.take(x.explicit()).filter(keep) + x.inputs.subrange(
                x.explicit(),
                x.first_order_only(),
            ).filter(keep) + x.inputs.skip(x.first_order_only()).filter(keep)
        }),
{
    let t = s.input_dropped(edge, node);
    let i = edge.0 as int;
    let e = s.edges[i];
    let w = t.edges[i];
    let n0 = s.nodes[node.0 as int];
    let v = t.nodes[node.0 as int];
    let keep = other_than(node);
    let other = edge_other_than(edge);
    law_inputs_divide(s, i);
    let a = e.inputs.take(e.explicit());
    let b = e.inputs.subrange(e.explicit(), e.first_order_only());
    let c = e.inputs.skip(e.first_order_only());
    Seq::filter_distributes_over_add(a + b, c, keep);
    Seq::filter_distributes_over_add(a, b, keep);
    lemma_filter_keeps(e.inputs, keep);
    lemma_filter_keeps(b, keep);
    lemma_filter_keeps(c, keep);
    lemma_filter_keeps(n0.out_edges, other);
    assert(e.counts_ok());
    assert(w.counts_ok());
    assert(s.edge_ok(e));
    assert(s.node_ok(n0));
    assert forall|j: int| 0 <= j < t.nodes.len() implies t.node_ok(#[trigger] t.nodes[j]) by {
        assert(s.node_ok(s.nodes[j]));
        if j == node.0 {
            assert forall|k: int| 0 <= k < v.out_edges.len() implies (#[trigger] v.out_edges[k]).0
                < t.edges.len() by {
                assert(v.out_edges.contains(v.out_edges[k]));
                assert(n0.out_edges.contains(v.out_edges[k]));
            }
        }
    }
    assert forall|j: int| 0 <= j < t.edges.len() implies t.edge_ok(#[trigger] t.edges[j]) by {
        assert(s.edge_ok(s.edges[j]));
        if j == i {
            assert forall|k: int| 0 <= k < w.inputs.len() implies (#[trigger] w.inputs[k]).0
                < t.nodes.len() by {
                assert(w.inputs.contains(w.inputs[k]));
                assert(e.inputs.contains(w.inputs[k]));
            }
        }
    }
    assert forall|j: int| 0 <= j < t.edges.len() implies (#[trigger] t.edges[j]).id == j by {
        assert(s.edges[j].id == j);
    }
    assert forall|j: int| 0 <= j < t.edges.len() implies (#[trigger] t.edges[j]).counts_ok() by {
        assert(s.edges[j].counts_ok());
    }
    assert forall|j: int| 0 <= j < t.edges.len() implies #[trigger] t.outputs_linked(j) by {
        assert(s.outputs_linked(j));
        assert(s.edge_ok(s.edges[j]));
        assert forall|k: int| 0 <= k < t.edges[j].outputs.len() implies t.nodes[(
        #[trigger] t.edges[j].outputs[k]).0 as int].in_edge == Some(EdgeId(j as usize)) by {
            assert(s.edges[j].outputs[k] == t.edges[j].outputs[k]);
        }
    }
    assert forall|j: int| 0 <= j < t.edges.len() implies #[trigger] t.inputs_linked(j) by {
        assert(s.edge_ok(s.edges[j]));
        let f = EdgeId(j as usize);
        assert forall|k: int| 0 <= k < t.edges[j].inputs.len() implies t.nodes[(
        #[trigger] t.edges[j].inputs[k]).0 as int].out_edges.contains(f) by {
            let x = t.edges[j].inputs[k];
            assert(t.edges[j].inputs.contains(x));
            assert(s.edges[j].inputs.contains(x));
            law_consumers_are_known(s, x, f);
            if x == node {
                assert(f != edge);
            }
        }
    }
    assert forall|k: int| 0 <= k < t.nodes.len() implies #[trigger] t.producer_linked(k) by {
        assert(s.producer_linked(k));
        assert(s.node_ok(s.nodes[k]));
    }
    assert forall|k: int| 0 <= k < t.nodes.len() implies #[trigger] t.consumers_linked(k) by {
        assert(s.node_ok(s.nodes[k]));
        let x = NodeId(k as usize);
        assert forall|m: int| 0 <= m < t.nodes[k].out_edges.len() implies t.edges[(
        #[trigger] t.nodes[k].out_edges[m]).0 as int].inputs.contains(x) by {
            let f = t.nodes[k].out_edges[m];
            assert(t.nodes[k].out_edges.contains(f));
            assert(s.nodes[k].out_edges.contains(f));
            law_consumers_are_known(s, x, f);
            if f == edge {
                assert(x != node);
            }
        }
    }
}

fn kept_nodes(v: &Vec<NodeId>, from: usize, to: usize, x: NodeId, out: &mut Vec<NodeId>)
    requires
        from <= to <= v@.len(),
    ensures
        final(out)@ == old(out)@ + v@.subrange(from as int, to as int).filter(
            other_than(x),
        ),
{
    let ghost keep = other_than(x);
    let ghost part = v@.subrange(from as int, to as int);
    let mut i: usize = from;
    proof {
        reveal(Seq::filter);
        assert(part.take(0).filter(keep) =~= Seq::empty());
    }
    while i < to
        invariant
            keep == other_than(x),
            part == v@.subrange(from as int, to as int),
            from <= i <= to <= v@.len(),
            out@ == old(out)@ + part.take(i - from).filter(keep),
        decreases to - i,
    {
        proof {
            reveal(Seq::filter);
            assert(part.take(i + 1 - from).drop_last() =~= part.take(i - from));
        }
        if v[i] != x {
            out.push(v[i]);
            assert(out@ =~= old(out)@ + part.take(i + 1 - from).filter(keep));
        }
        i += 1;
    }
    assert(part.take(to - from) =~= part);
}

fn other_edges(v: &Vec<EdgeId>, x: EdgeId) -> (r: Vec<EdgeId>)
    ensures
        r@ == v@.filter(edge_other_than(x)),
{
    let ghost keep = edge_other_than(x);
    let mut out: Vec<EdgeId> = Vec::new();
    let mut i: usize = 0;
    proof {
        reveal(Seq::filter);
        assert(v@.take(0).filter(keep) =~= Seq::empty());
    }
    while i < v.len()
        invariant
            keep == edge_other_than(x),
            i <= v@.len(),
            out@ == v@.take(i as int).filter(keep),
        decreases v@.len() - i,
    {
        proof {
            reveal(Seq::filter);
            assert(v@.take(i + 1).drop_last() =~= v@.take(i as int));
        }
        if v[i] != x {
            out.push(v[i]);
        }
        i += 1;
    }
    assert(v@.take(v@.len() as int) =~= v@);
    out
}

/// The whole build graph plus the scopes, rules and pools it was built from.
pub struct State {
    nodes: Vec<Node>,
    edges: Vec<Edge>,
    node_by_path: StringHashMap<NodeId>,
    /// Lexical scopes and rules.
    pub scopes: Scopes,
    pools: Vec<Pool>,
    pool_by_name: StringHashMap<PoolId>,
    defaults: Vec<NodeId>,
}

/// The nodes by what they hold.
pub open spec fn node_views(v: Seq<Node>) -> Seq<NodeView> {
    Seq::new(v.len(), |i: int| v[i]@)
}

/// The edges by what they hold.
pub open spec fn edge_views(v: Seq<Edge>) -> Seq<EdgeView> {
    Seq::new(v.len(), |i: int| v[i]@)
}

/// The pools by what they hold.
pub open spec fn pool_views(v: Seq<Pool>) -> Seq<PoolView> {
    Seq::new(v.len(), |i: int| v[i]@)
}

impl View for State {
    type V = StateView;

    closed spec fn view(&self) -> StateView {
        StateView {
            nodes: node_views(self.nodes@),
            edges: edge_views(self.edges@),
            scopes: self.scopes@,
            pools: pool_views(self.pools@),
            defaults: self.defaults@,
        }
    }
}

impl State {
    closed spec fn index_ok(&self) -> bool {
        &&& forall|i: int|
            0 <= i < self.nodes@.len() ==> self.node_by_path@.contains_key(
                (#[trigger] self.nodes@[i]).path@,
            ) && self.node_by_path@[self.nodes@[i].path@] == NodeId(i as usize)
        &&& forall|p: Seq<char>| #[trigger]
            self.node_by_path@.contains_key(p) ==> self.node_by_path@[p].0 < self.nodes@.len()
                && self.nodes@[self.node_by_path@[p].0 as int].path@ == p
    }

    closed spec fn pool_index_ok(&self) -> bool {
        &&& forall|i: int|
            0 <= i < self.pools@.len() ==> self.pool_by_name@.contains_key(
                (#[trigger] self.pools@[i]).name@,
            ) && self.pool_by_name@[self.pools@[i].name@] == PoolId(i as usize)
        &&& forall|p: Seq<char>| #[trigger]
            self.pool_by_name@.contains_key(p) ==> self.pool_by_name@[p].0 < self.pools@.len()
                && self.pools@[self.pool_by_name@[p].0 as int].name@ == p
    }

    /// The invariant of the graph.
    pub closed spec fn wf(&self) -> bool {
        &&& self@.wf()
        &&& self.scopes.wf()
        &&& self.index_ok()
        &&& self.pool_index_ok()
        &&& self@.nodes.len() <= usize::MAX
        &&& self@.edges.len() <= usize::MAX
        &&& self@.pools.len() <= usize::MAX
    }

    /// What a well-formed graph's model is like.
    pub proof fn lemma_wf(&self)
        requires
            self.wf(),
        ensures
            self@.wf(),
            self@.nodes.len() <= usize::MAX,
            self@.edges.len() <= usize::MAX,
            self@.pools.len() <= usize::MAX,
    {
    }

    /// A state containing only the built-in `phony` rule and the default and
    /// `console` pools.
    pub fn new() -> (r: State)
        ensures
            r.wf(),
            r@ == initial_state(),
    {
        let mut pool_by_name: StringHashMap<PoolId> = StringHashMap::new();
        pool_by_name.insert(String::new(), PoolId(0));
        pool_by_name.insert("console".to_owned(), PoolId(1));
        let mut pools: Vec<Pool> = Vec::new();
        pools.push(Pool::new(String::new(), 0));
        pools.push(Pool::new("console".to_owned(), 1));
        let r = State {
            nodes: Vec::new(),
            edges: Vec::new(),
            node_by_path: StringHashMap::new(),
            scopes: Scopes::new(),
            pools,
            pool_by_name,
            defaults: Vec::new(),
        };
        proof {
            reveal_strlit("console");
            assert("console"@.len() == 7);
            assert(r@.nodes =~= Seq::empty());
            assert(r@.edges =~= Seq::empty());
            assert(r@.pools =~= initial_state().pools);
            assert(r@.defaults =~= Seq::empty());
            r.scopes.lemma_wf();
        }
        r
    }

    /// The lexical scopes and rules.
    pub fn scopes(&self) -> (r: &Scopes)
        requires
            self.wf(),
        ensures
            r.wf(),
            r@ == self@.scopes,
    {
        &self.scopes
    }

    /// All nodes, indexed by [`NodeId`].
    pub fn nodes(&self) -> (r: &[Node])
        ensures
            node_views(r@) == self@.nodes,
            r@.len() == self@.nodes.len(),
    {
        self.nodes.as_slice()
    }

    /// All edges, in manifest order.
    pub fn edges(&self) -> (r: &[Edge])
        ensures
            edge_views(r@) == self@.edges,
            r@.len() == self@.edges.len(),
    {
        self.edges.as_slice()
    }

    /// Immutable access to one node.
    pub fn node(&self, id: NodeId) -> (r: &Node)
        requires
            id.0 < self@.nodes.len(),
        ensures
            r@ == self@.nodes[id.0 as int],
    {
        &self.nodes[id.0]
    }

    /// Mutable access to one node. The graph stays well-formed as long as the
    /// path stays and the links still fit.
    pub fn node_mut(&mut self, id: NodeId) -> (r: &mut Node)
        requires
            old(self).wf(),
            id.0 < old(self)@.nodes.len(),
        ensures
            r@ == old(self)@.nodes[id.0 as int],
            final(self)@ == old(self)@.with_node(id.0 as int, final(r)@),
            final(r)@.path == old(self)@.nodes[id.0 as int].path && final(self)@.wf() ==> final(
                self).wf(),
    {
        let ghost s = self@;
        proof {
            let v = self.nodes@;
            let i = id.0 as int;
            assert forall|x: Node| #[trigger] node_views(v.update(i, x)) == s.nodes.update(i, x@) by {
                assert(node_views(v.update(i, x)) =~= s.nodes.update(i, x@));
            }
        }
        &mut self.nodes[id.0]
    }

    /// Immutable access to one edge.
    pub fn edge(&self, id: EdgeId) -> (r: &Edge)
        requires
            id.0 < self@.edges.len(),
        ensures
            r@ == self@.edges[id.0 as int],
    {
        &self.edges[id.0]
    }

    /// Mutable access to one edge. The graph stays well-formed as long as the
    /// links still fit.
    pub fn edge_mut(&mut self, id: EdgeId) -> (r: &mut Edge)
        requires
            old(self).wf(),
            id.0 < old(self)@.edges.len(),
        ensures
            r@ == old(self)@.edges[id.0 as int],
            final(self)@ == old(self)@.with_edge(id.0 as int, final(r)@),
            final(self)@.wf() ==> final(self).wf(),
    {
        let ghost s = self@;
        proof {
            let v = self.edges@;
            let i = id.0 as int;
            assert forall|x: Edge| #[trigger] edge_views(v.update(i, x)) == s.edges.update(i, x@) by {
                assert(edge_views(v.update(i, x)) =~= s.edges.update(i, x@));
            }
        }
        &mut self.edges[id.0]
    }

    /// The number of nodes.
    pub fn node_count(&self) -> (r: usize)
        ensures
            r == self@.nodes.len(),
    {
        self.nodes.len()
    }

    /// The number of edges.
    pub fn edge_count(&self) -> (r: usize)
        ensures
            r == self@.edges.len(),
    {
        self.edges.len()
    }

    /// All ids of nodes in the graph.
    pub fn node_ids(&self) -> (r: Vec<NodeId>)
        ensures
            r@ == Seq::new(self@.nodes.len(), |i: int| NodeId(i as usize)),
    {
        let mut out: Vec<NodeId> = Vec::new();
        let mut i: usize = 0;
        while i < self.nodes.len()
            invariant
                i <= self.nodes.len(),
                out@ == Seq::new(i as nat, |i: int| NodeId(i as usize)),
            decreases self.nodes.len() - i,
        {
            out.push(NodeId(i));
            i += 1;
            assert(out@ =~= Seq::new(i as nat, |i: int| NodeId(i as usize)));
        }
        out
    }

    /// All ids of edges in the graph, in manifest order.
    pub fn edge_ids(&self) -> (r: Vec<EdgeId>)
        ensures
            r@ == Seq::new(self@.edges.len(), |i: int| EdgeId(i as usize)),
    {
        let mut out: Vec<EdgeId> = Vec::new();
        let mut i: usize = 0;
        while i < self.edges.len()
            invariant
                i <= self.edges.len(),
                out@ == Seq::new(i as nat, |i: int| EdgeId(i as usize)),
            decreases self.edges.len() - i,
        {
            out.push(EdgeId(i));
            i += 1;
            assert(out@ =~= Seq::new(i as nat, |i: int| EdgeId(i as usize)));
        }
        out
    }

    /// Look up a node by canonicalized path.
    pub fn lookup_node(&self, path: &str) -> (r: Option<NodeId>)
        requires
            self.wf(),
        ensures
            r == self@.find_node(path@),
            r matches Some(n) ==> n.0 < self@.nodes.len() && self@.nodes[n.0 as int].path == path@,
    {
        proof {
            lemma_node_index(self@.nodes, path@, 0);
        }
        let ghost k = node_index(self@.nodes, path@, 0);
        match self.node_by_path.get(path) {
            Some(id) => {
                proof {
                    let i = id.0 as int;
                    assert(self@.nodes[i].path == path@);
                    if k < i {
                        assert(self@.nodes[k].path == path@);
                    }
                }
                Some(*id)
            },
            None => {
                proof {
                    if k < self@.nodes.len() {
                        assert(self.nodes@[k].path@ == path@);
                    }
                }
                None
            },
        }
    }

    /// Look up or create a node for `path` (which must be canonicalized).
    pub fn get_node(&mut self, path: &str, slash_bits: u64) -> (r: NodeId)
        requires
            old(self).wf(),
        ensures
            final(self).wf(),
            final(self)@ == old(self)@.interned(path@, slash_bits),
            r == old(self)@.id_of(path@),
            r.0 < final(self)@.nodes.len(),
    {
        match self.lookup_node(path) {
            Some(id) => {
                proof {
                    law_interning(self@, path@, slash_bits);
                }
                return id;
            },
            None => {},
        }
        let ghost s = self@;
        let id = NodeId(self.nodes.len());
        self.nodes.push(Node::new(path.to_owned(), slash_bits));
        self.node_by_path.insert(path.to_owned(), id);
        proof {
            let n: usize = self.nodes.len();
            assert(self.nodes@.len() == s.nodes.len() + 1);
            assert(s.nodes.len() < usize::MAX);
            lemma_node_index(s.nodes, path@, 0);
            law_interning(s, path@, slash_bits);
            assert(self@.nodes =~= s.nodes.push(new_node(path@, slash_bits)));
            assert(self@.edges =~= s.edges);
            assert(self@.pools =~= s.pools);
            assert forall|i: int| 0 <= i < self.nodes@.len() implies self.node_by_path@.contains_key(
                (#[trigger] self.nodes@[i]).path@,
            ) && self.node_by_path@[self.nodes@[i].path@] == NodeId(i as usize) by {
                if i < id.0 {
                    assert(self.nodes@[i] == old(self).nodes@[i]);
                    assert(s.nodes[i].path != path@);
                }
            }
            assert forall|p: Seq<char>| #[trigger] self.node_by_path@.contains_key(p) implies
                self.node_by_path@[p].0 < self.nodes@.len() && self.nodes@[self.node_by_path@[p].0
                as int].path@ == p by {
                if p != path@ {
                    assert(old(self).node_by_path@.contains_key(p));
                    let i = old(self).node_by_path@[p].0 as int;
                    assert(self.nodes@[i] == old(self).nodes@[i]);
                }
            }
        }
        id
    }

    /// Add an edge using `rule`, resolved in `scope`.
    pub fn add_edge(&mut self, rule: RuleId, scope: ScopeId) -> (r: EdgeId)
        requires
            old(self).wf(),
            rule.0 < old(self)@.scopes.rules.len(),
            scope.0 < old(self)@.scopes.scopes.len(),
        ensures
            final(self).wf(),
            final(self)@ == old(self)@.edge_added(rule, scope),
            r.0 == old(self)@.edges.len(),
    {
        let ghost s = self@;
        let id: usize = self.edges.len();
        self.edges.push(Edge::new(rule, scope, id));
        proof {
            let n: usize = self.edges.len();
            assert(self.edges@.len() == s.edges.len() + 1);
            lemma_edge_added(s, rule, scope);
            assert(self@.edges =~= s.edges.push(new_edge(rule, scope, id)));
            assert(self@.nodes =~= s.nodes);
            assert(self@.pools =~= s.pools);
        }
        EdgeId(id)
    }

    /// Drop the most recently added edge (used when a `build` statement turns
    /// out to be wrong before it connects anything).
    pub fn pop_edge(&mut self)
        requires
            old(self).wf(),
            old(self)@.edges.len() > 0,
            old(self)@.edges.last().inputs.len() == 0,
            old(self)@.edges.last().outputs.len() == 0,
            old(self)@.edges.last().validations.len() == 0,
            forall|i: int|
                0 <= i < old(self)@.nodes.len() ==> edges_below(
                    (#[trigger] old(self)@.nodes[i]).out_edges,
                    (old(self)@.edges.len() - 1) as nat,
                ) && edges_below(
                    old(self)@.nodes[i].validation_out_edges,
                    (old(self)@.edges.len() - 1) as nat,
                ),
        ensures
            final(self).wf(),
            final(self)@ == (StateView { edges: old(self)@.edges.drop_last(), ..old(self)@ }),
    {
        let ghost s = self@;
        self.edges.pop();
        proof {
            let t = StateView { edges: s.edges.drop_last(), ..s };
            assert(self@.edges =~= s.edges.drop_last());
            assert(self@.nodes =~= s.nodes);
            assert(self@.pools =~= s.pools);
            let last = s.edges.len() - 1;
            assert forall|j: int| 0 <= j < t.nodes.len() implies t.node_ok(
                #[trigger] t.nodes[j],
            ) by {
                assert(s.node_ok(s.nodes[j]));
                assert(s.producer_linked(j));
            }
            assert forall|j: int| 0 <= j < t.edges.len() implies t.edge_ok(
                #[trigger] t.edges[j],
            ) by {
                assert(s.edge_ok(s.edges[j]));
            }
            assert forall|j: int| 0 <= j < t.edges.len() implies (#[trigger] t.edges[j]).id
                == j by {
                assert(s.edges[j].id == j);
            }
            assert forall|j: int| 0 <= j < t.edges.len() implies #[trigger] t.outputs_linked(
                j,
            ) by {
                assert(s.outputs_linked(j));
            }
            assert forall|j: int| 0 <= j < t.edges.len() implies #[trigger] t.inputs_linked(j) by {
                assert(s.inputs_linked(j));
            }
            assert forall|k: int| 0 <= k < t.nodes.len() implies #[trigger] t.producer_linked(
                k,
            ) by {
                assert(s.producer_linked(k));
                assert(s.node_ok(s.nodes[k]));
            }
            assert forall|k: int| 0 <= k < t.nodes.len() implies #[trigger] t.consumers_linked(k) by {
                assert(s.consumers_linked(k));
                assert(s.node_ok(s.nodes[k]));
            }
        }
    }

    /// Connect `path` as an input of `edge`.
    pub fn add_in(&mut self, edge: EdgeId, path: &str, slash_bits: u64)
        requires
            old(self).wf(),
            edge.0 < old(self)@.edges.len(),
        ensures
            final(self).wf(),
            final(self)@ == old(self)@.in_added(edge, path@, slash_bits),
    {
        let node = self.get_node(path, slash_bits);
        let ghost s = self@;
        let ghost sp = *self;
        let ghost n0 = self.nodes@[node.0 as int]@;
        let ghost e0 = self.edges@[edge.0 as int]@;
        let n = &mut self.nodes[node.0];
        n.generated_by_dep_loader = false;
        n.out_edges.push(edge);
        let e = &mut self.edges[edge.0];
        e.inputs.push(node);
        proof {
            let v = NodeView {
                generated_by_dep_loader: false,
                out_edges: n0.out_edges.push(edge),
                ..n0
            };
            let w = EdgeView { inputs: e0.inputs.push(node), ..e0 };
            assert(self@.nodes =~= s.nodes.update(node.0 as int, v));
            assert(self@.edges =~= s.edges.update(edge.0 as int, w));
            assert(self@.pools =~= s.pools);
            assert(s.edges[edge.0 as int] == e0);
            assert(s.edge_ok(e0));
            assert forall|k: int| 0 <= k < w.inputs.len() implies (#[trigger] w.inputs[k]).0
                == node.0 || s.edges[edge.0 as int].inputs.contains(w.inputs[k]) by {
                if k < e0.inputs.len() {
                    assert(e0.inputs[k] == w.inputs[k]);
                }
            }
            assert(w.inputs[w.inputs.len() - 1] == node);
            assert forall|k: int| 0 <= k < e0.inputs.len() implies w.inputs.contains(
                #[trigger] s.edges[edge.0 as int].inputs[k],
            ) by {
                assert(w.inputs[k] == e0.inputs[k]);
            }
            lemma_input_connected(s, edge, w, node.0 as int, v);
            assert(self@ =~= s.with_node(node.0 as int, v).with_edge(edge.0 as int, w));
            self.lemma_same_paths(&sp);
        }
    }

    /// Connect `node` as an implicit input of `edge`, before the inputs that
    /// only order it.
    pub fn splice_input(&mut self, edge: EdgeId, node: NodeId)
        requires
            old(self).wf(),
            edge.0 < old(self)@.edges.len(),
            node.0 < old(self)@.nodes.len(),
        ensures
            final(self).wf(),
            final(self)@ == old(self)@.input_spliced(edge, node),
    {
        let ghost s = self@;
        let ghost sp = *self;
        let ghost n0 = self.nodes@[node.0 as int]@;
        let ghost e0 = self.edges@[edge.0 as int]@;
        let n = &mut self.nodes[node.0];
        n.out_edges.push(edge);
        let e = &mut self.edges[edge.0];
        let len: usize = e.inputs.len();
        let pos: usize = if e.order_only_deps <= len {
            len - e.order_only_deps
        } else {
            0
        };
        e.inputs.insert(pos, node);
        e.implicit_deps = e.implicit_deps.wrapping_add(1);
        proof {
            let v = NodeView { out_edges: n0.out_edges.push(edge), ..n0 };
            let w = EdgeView {
                inputs: e0.inputs.insert(e0.first_order_only(), node),
                implicit_deps: e0.implicit_deps.wrapping_add(1),
                ..e0
            };
            assert(self@.nodes =~= s.nodes.update(node.0 as int, v));
            assert(self@.edges =~= s.edges.update(edge.0 as int, w));
            assert(self@.pools =~= s.pools);
            assert(s.edges[edge.0 as int] == e0);
            assert(s.edge_ok(e0));
            assert forall|k: int| 0 <= k < w.inputs.len() implies (#[trigger] w.inputs[k]).0
                == node.0 || s.edges[edge.0 as int].inputs.contains(w.inputs[k]) by {
                if k < pos {
                    assert(e0.inputs[k] == w.inputs[k]);
                } else if k > pos {
                    assert(e0.inputs[k - 1] == w.inputs[k]);
                }
            }
            assert(w.inputs[pos as int] == node);
            assert forall|k: int| 0 <= k < e0.inputs.len() implies w.inputs.contains(
                #[trigger] s.edges[edge.0 as int].inputs[k],
            ) by {
                if k < pos {
                    assert(w.inputs[k] == e0.inputs[k]);
                } else {
                    assert(w.inputs[k + 1] == e0.inputs[k]);
                }
            }
            assert(w.inputs == self.edges@[edge.0 as int].inputs@);
            let m: usize = self.edges@[edge.0 as int].inputs.len();
            lemma_input_connected(s, edge, w, node.0 as int, v);
            assert(self@ =~= s.with_node(node.0 as int, v).with_edge(edge.0 as int, w));
            self.lemma_same_paths(&sp);
        }
    }

    /// Make `edge` not consume `node`.
    pub fn drop_input(&mut self, edge: EdgeId, node: NodeId)
        requires
            old(self).wf(),
            edge.0 < old(self)@.edges.len(),
            node.0 < old(self)@.nodes.len(),
        ensures
            final(self).wf(),
            final(self)@ == old(self)@.input_dropped(edge, node),
    {
        let ghost s = self@;
        let ghost sp = *self;
        let ghost n0 = self.nodes@[node.0 as int]@;
        let ghost e0 = self.edges@[edge.0 as int]@;
        let n = &mut self.nodes[node.0];
        n.out_edges = other_edges(&n.out_edges, edge);
        let e = &mut self.edges[edge.0];
        let len: usize = e.inputs.len();
        let explicit: usize = e.explicit_deps();
        assert(s.edges[edge.0 as int] == e0);
        let order_only: usize = len - e.order_only_deps;
        let mut kept: Vec<NodeId> = Vec::new();
        kept_nodes(&e.inputs, 0, explicit, node, &mut kept);
        let first: usize = kept.len();
        kept_nodes(&e.inputs, explicit, order_only, node, &mut kept);
        let second: usize = kept.len();
        kept_nodes(&e.inputs, order_only, len, node, &mut kept);
        e.implicit_deps = second - first;
        e.order_only_deps = kept.len() - second;
        e.inputs = kept;
        proof {
            lemma_input_dropped(s, edge, node);
            assert(e0.inputs.subrange(0, explicit as int) =~= e0.inputs.take(explicit as int));
            assert(e0.inputs.subrange(order_only as int, len as int) =~= e0.inputs.skip(
                order_only as int,
            ));
            let t = s.input_dropped(edge, node);
            assert(self@.nodes =~= t.nodes);
            assert(self@.edges[edge.0 as int].inputs =~= t.edges[edge.0 as int].inputs);
            assert(self@.edges =~= t.edges);
            assert(self@.pools =~= s.pools);
            assert(self@ =~= t);
            self.lemma_same_paths(&sp);
        }
    }

    /// Connect the nodes as implicit inputs of `edge`, before the inputs that
    /// only order it.
    pub fn splice_inputs(&mut self, edge: EdgeId, nodes: &[NodeId])
        requires
            old(self).wf(),
            edge.0 < old(self)@.edges.len(),
            nodes_below(nodes@, old(self)@.nodes.len()),
        ensures
            final(self).wf(),
            final(self)@.nodes.len() == old(self)@.nodes.len(),
            final(self)@.edges.len() == old(self)@.edges.len(),
            final(self)@ == old(self)@.inputs_spliced(edge, nodes@, 0),
    {
        let mut k: usize = 0;
        while k < nodes.len()
            invariant
                k <= nodes@.len(),
                self.wf(),
                edge.0 < self@.edges.len(),
                self@.nodes.len() == old(self)@.nodes.len(),
                self@.edges.len() == old(self)@.edges.len(),
                nodes_below(nodes@, self@.nodes.len()),
                self@.inputs_spliced(edge, nodes@, k as int) == old(self)@.inputs_spliced(
                    edge,
                    nodes@,
                    0,
                ),
            decreases nodes@.len() - k,
        {
            self.splice_input(edge, nodes[k]);
            k += 1;
        }
    }

    /// Connect `node`, which no other edge produces, as an implicit output of
    /// `edge`.
    pub fn connect_output(&mut self, edge: EdgeId, node: NodeId)
        requires
            old(self).wf(),
            edge.0 < old(self)@.edges.len(),
            node.0 < old(self)@.nodes.len(),
            old(self)@.nodes[node.0 as int].in_edge is None || old(
                self)@.nodes[node.0 as int].in_edge == Some(edge),
        ensures
            final(self).wf(),
            final(self)@ == old(self)@.output_connected(edge, node),
    {
        let ghost s = self@;
        let ghost sp = *self;
        let ghost n0 = self.nodes@[node.0 as int]@;
        let ghost e0 = self.edges@[edge.0 as int]@;
        let e = &mut self.edges[edge.0];
        e.outputs.push(node);
        e.implicit_outs = e.implicit_outs.wrapping_add(1);
        let n = &mut self.nodes[node.0];
        n.in_edge = Some(edge);
        proof {
            let v = NodeView { in_edge: Some(edge), ..n0 };
            let w = EdgeView {
                outputs: e0.outputs.push(node),
                implicit_outs: e0.implicit_outs.wrapping_add(1),
                ..e0
            };
            assert(self@.nodes =~= s.nodes.update(node.0 as int, v));
            assert(self@.edges =~= s.edges.update(edge.0 as int, w));
            assert(self@.pools =~= s.pools);
            assert(s.edges[edge.0 as int] == e0);
            assert(s.edge_ok(e0));
            lemma_output_connected(s, edge, w, node.0 as int, v);
            assert(self@ =~= s.with_node(node.0 as int, v).with_edge(edge.0 as int, w));
            self.lemma_same_paths(&sp);
        }
    }

    proof fn lemma_same_paths(&self, other: &State)
        requires
            other.index_ok(),
            other.pool_index_ok(),
            self.node_by_path == other.node_by_path,
            self.pool_by_name == other.pool_by_name,
            self.nodes@.len() == other.nodes@.len(),
            self.pools@.len() == other.pools@.len(),
            forall|i: int|
                0 <= i < self.nodes@.len() ==> (#[trigger] self.nodes@[i]).path@
                    == other.nodes@[i].path@,
            forall|i: int|
                0 <= i < self.pools@.len() ==> (#[trigger] self.pools@[i]).name@
                    == other.pools@[i].name@,
        ensures
            self.index_ok(),
            self.pool_index_ok(),
    {
        assert forall|i: int| 0 <= i < self.nodes@.len() implies self.node_by_path@.contains_key(
            (#[trigger] self.nodes@[i]).path@,
        ) && self.node_by_path@[self.nodes@[i].path@] == NodeId(i as usize) by {
            assert(other.node_by_path@.contains_key(other.nodes@[i].path@));
        }
        assert forall|i: int| 0 <= i < self.pools@.len() implies self.pool_by_name@.contains_key(
            (#[trigger] self.pools@[i]).name@,
        ) && self.pool_by_name@[self.pools@[i].name@] == PoolId(i as usize) by {
            assert(other.pool_by_name@.contains_key(other.pools@[i].name@));
        }
    }

    /// Connect `path` as an output of `edge`. Fails if another edge already
    /// produces it.
    pub fn add_out(&mut self, edge: EdgeId, path: &str, slash_bits: u64) -> (r: Result<(), String>)
        requires
            old(self).wf(),
            edge.0 < old(self)@.edges.len(),
        ensures
            final(self).wf(),
            match r {
                Ok(_) => old(self)@.out_conflict(edge, path@) is None && final(self)@ == old(
                    self)@.out_added(edge, path@, slash_bits),
                Err(m) => old(self)@.out_conflict(edge, path@) == Some(m@) && final(self)@ == old(
                    self)@.interned(path@, slash_bits),
            },
    {
        let ghost s0 = self@;
        proof {
            lemma_node_index(s0.nodes, path@, 0);
        }
        let node = self.get_node(path, slash_bits);
        if let Some(other) = self.nodes[node.0].in_edge {
            assert(self@.nodes[node.0 as int].in_edge == Some(other));
            let mut m = String::new();
            if other == edge {
                m.append(path);
                m.append(" is defined as an output multiple times");
                assert(m@ =~= path@ + " is defined as an output multiple times"@);
            } else {
                m.append("multiple rules generate ");
                m.append(path);
                assert(m@ =~= "multiple rules generate "@ + path@);
            }
            return Err(m);
        }
        let ghost s = self@;
        let ghost sp = *self;
        let ghost n0 = self.nodes@[node.0 as int]@;
        let ghost e0 = self.edges@[edge.0 as int]@;
        let e = &mut self.edges[edge.0];
        e.outputs.push(node);
        let n = &mut self.nodes[node.0];
        n.in_edge = Some(edge);
        n.generated_by_dep_loader = false;
        proof {
            let v = NodeView { in_edge: Some(edge), generated_by_dep_loader: false, ..n0 };
            let w = EdgeView { outputs: e0.outputs.push(node), ..e0 };
            assert(self@.nodes =~= s.nodes.update(node.0 as int, v));
            assert(self@.edges =~= s.edges.update(edge.0 as int, w));
            assert(self@.pools =~= s.pools);
            assert(s.edges[edge.0 as int] == e0);
            assert(s.edge_ok(e0));
            lemma_output_connected(s, edge, w, node.0 as int, v);
            assert(self@ =~= s.with_node(node.0 as int, v).with_edge(edge.0 as int, w));
            self.lemma_same_paths(&sp);
        }
        Ok(())
    }

    /// Register `path` as a validation target of `edge`.
    pub fn add_validation(&mut self, edge: EdgeId, path: &str, slash_bits: u64)
        requires
            old(self).wf(),
            edge.0 < old(self)@.edges.len(),
        ensures
            final(self).wf(),
            final(self)@ == old(self)@.validation_added(edge, path@, slash_bits),
    {
        let node = self.get_node(path, slash_bits);
        let ghost s = self@;
        let ghost sp = *self;
        let ghost n0 = self.nodes@[node.0 as int]@;
        let ghost e0 = self.edges@[edge.0 as int]@;
        let e = &mut self.edges[edge.0];
        e.validations.push(node);
        let n = &mut self.nodes[node.0];
        n.validation_out_edges.push(edge);
        n.generated_by_dep_loader = false;
        proof {
            let v = NodeView {
                generated_by_dep_loader: false,
                validation_out_edges: n0.validation_out_edges.push(edge),
                ..n0
            };
            let w = EdgeView { validations: e0.validations.push(node), ..e0 };
            assert(self@.nodes =~= s.nodes.update(node.0 as int, v));
            assert(self@.edges =~= s.edges.update(edge.0 as int, w));
            assert(self@.pools =~= s.pools);
            assert(s.edges[edge.0 as int] == e0);
            assert(s.edge_ok(e0));
            assert(s.nodes[node.0 as int] == n0);
            assert(s.node_ok(n0));
            lemma_node_update(s, node.0 as int, v);
            let t = s.with_node(node.0 as int, v);
            assert(t.edge_ok(w));
            lemma_edge_update(t, edge.0 as int, w);
            assert(self@ =~= s.with_node(node.0 as int, v).with_edge(edge.0 as int, w));
            self.lemma_same_paths(&sp);
        }
    }

    /// Mark `path` (already canonicalized) as a default target.
    pub fn add_default(&mut self, path: &str) -> (r: Result<(), String>)
        requires
            old(self).wf(),
        ensures
            final(self).wf(),
            match r {
                Ok(_) => old(self)@.find_node(path@) is Some && final(self)@ == (StateView {
                    defaults: old(self)@.defaults.push(old(self)@.find_node(path@)->0),
                    ..old(self)@
                }),
                Err(m) => old(self)@.find_node(path@) is None && final(self)@ == old(self)@ && m@
                    == "unknown target '"@ + path@ + "'"@,
            },
    {
        let ghost s = self@;
        match self.lookup_node(path) {
            Some(n) => {
                self.defaults.push(n);
                proof {
                    assert(self@.nodes =~= s.nodes);
                    assert(self@.edges =~= s.edges);
                    assert(self@.pools =~= s.pools);
                    lemma_context_grown(s, self@);
                }
                Ok(())
            },
            None => {
                let mut m = String::new();
                m.append("unknown target '");
                m.append(path);
                m.append("'");
                assert(m@ =~= "unknown target '"@ + path@ + "'"@);
                Err(m)
            },
        }
    }

    /// The explicitly declared default targets.
    pub fn defaults(&self) -> (r: &[NodeId])
        ensures
            r@ == self@.defaults,
    {
        self.defaults.as_slice()
    }

    /// Nodes that no edge consumes, i.e. the leaves of the dependency graph.
    pub fn root_nodes(&self) -> (r: Result<Vec<NodeId>, String>)
        requires
            self.wf(),
        ensures
            match (r, self@.root_targets()) {
                (Ok(v), Ok(w)) => v@ == w && nodes_below(v@, self@.nodes.len()),
                (Err(m), Err(w)) => m@ == w,
                _ => false,
            },
    {
        let ghost s = self@;
        let ghost keep = |n: NodeId| s.nodes[n.0 as int].out_edges.len() == 0;
        let mut roots: Vec<NodeId> = Vec::new();
        let mut i: usize = 0;
        while i < self.edges.len()
            invariant
                self.wf(),
                s == self@,
                keep == (|n: NodeId| s.nodes[n.0 as int].out_edges.len() == 0),
                i <= self.edges.len(),
                roots@ == s.roots(i as int),
                nodes_below(roots@, s.nodes.len()),
            decreases self.edges.len() - i,
        {
            let outs = &self.edges[i].outputs;
            assert(s.edge_ok(s.edges[i as int]));
            assert(outs@ == s.edges[i as int].outputs);
            let ghost before = roots@;
            let mut k: usize = 0;
            assert(outs@.take(0).filter(keep) =~= Seq::empty()) by {
                reveal(Seq::filter);
            }
            while k < outs.len()
                invariant
                    s == self@,
                    keep == (|n: NodeId| s.nodes[n.0 as int].out_edges.len() == 0),
                    nodes_below(outs@, s.nodes.len()),
                    k <= outs.len(),
                    roots@ == before + outs@.take(k as int).filter(keep),
                    nodes_below(roots@, s.nodes.len()),
                decreases outs.len() - k,
            {
                let out = outs[k];
                assert(outs@[k as int].0 < s.nodes.len());
                assert(self.nodes@[out.0 as int]@ == s.nodes[out.0 as int]);
                proof {
                    reveal(Seq::filter);
                    assert(outs@.take(k + 1).drop_last() =~= outs@.take(k as int));
                }
                if self.nodes[out.0].out_edges.len() == 0 {
                    roots.push(out);
                    assert(roots@ =~= before + outs@.take(k + 1).filter(keep));
                }
                k += 1;
            }
            assert(outs@.take(outs.len() as int) =~= outs@);
            i += 1;
        }
        if self.edges.len() > 0 && roots.len() == 0 {
            return Err("could not determine root nodes of build graph".to_owned());
        }
        Ok(roots)
    }

    /// The targets to build when none are named on the command line.
    pub fn default_nodes(&self) -> (r: Result<Vec<NodeId>, String>)
        requires
            self.wf(),
        ensures
            match (r, self@.default_targets()) {
                (Ok(v), Ok(w)) => v@ == w && nodes_below(v@, self@.nodes.len()),
                (Err(m), Err(w)) => m@ == w,
                _ => false,
            },
    {
        if self.defaults.len() == 0 {
            self.root_nodes()
        } else {
            let v = self.defaults.clone();
            assert(v@ =~= self.defaults@);
            Ok(v)
        }
    }

    /// Register a pool. Fails if the name is taken.
    pub fn add_pool(&mut self, pool: Pool) -> (r: Result<PoolId, String>)
        requires
            old(self).wf(),
        ensures
            final(self).wf(),
            match r {
                Ok(id) => old(self)@.find_pool(pool@.name) is None && id.0 == old(
                    self)@.pools.len() && final(self)@ == (StateView {
                    pools: old(self)@.pools.push(pool@),
                    ..old(self)@
                }),
                Err(m) => old(self)@.find_pool(pool@.name) is Some && final(self)@ == old(self)@
                    && m@ == "duplicate pool '"@ + pool@.name + "'"@,
            },
    {
        let ghost s = self@;
        if let Some(_) = self.lookup_pool(pool.name()) {
            let mut m = String::new();
            m.append("duplicate pool '");
            m.append(pool.name());
            m.append("'");
            assert(m@ =~= "duplicate pool '"@ + pool@.name + "'"@);
            return Err(m);
        }
        let ghost pv = pool@;
        let id = PoolId(self.pools.len());
        self.pool_by_name.insert(pool.name().to_owned(), id);
        self.pools.push(pool);
        proof {
            let n: usize = self.pools.len();
            lemma_pool_index(s.pools, pv.name, 0);
            assert(self@.nodes =~= s.nodes);
            assert(self@.edges =~= s.edges);
            assert(self@.pools =~= s.pools.push(pv));
            let t = self@;
            assert forall|i: int, j: int| 0 <= i < j < t.pools.len() implies (
            #[trigger] t.pools[i]).name != (#[trigger] t.pools[j]).name by {
                assert(t.pools[i] == s.pools[i]);
                if j < s.pools.len() {
                    assert(t.pools[j] == s.pools[j]);
                }
            }
            lemma_context_grown(s, t);
            assert forall|i: int| 0 <= i < self.pools@.len() implies self.pool_by_name@.contains_key(
                (#[trigger] self.pools@[i]).name@,
            ) && self.pool_by_name@[self.pools@[i].name@] == PoolId(i as usize) by {
                if i < id.0 {
                    assert(self.pools@[i] == old(self).pools@[i]);
                    assert(s.pools[i].name != pv.name);
                }
            }
            assert forall|p: Seq<char>| #[trigger] self.pool_by_name@.contains_key(p) implies
                self.pool_by_name@[p].0 < self.pools@.len() && self.pools@[self.pool_by_name@[p].0
                as int].name@ == p by {
                if p != pv.name {
                    assert(old(self).pool_by_name@.contains_key(p));
                    let i = old(self).pool_by_name@[p].0 as int;
                    assert(self.pools@[i] == old(self).pools@[i]);
                }
            }
        }
        Ok(id)
    }

    /// Find a pool by name.
    pub fn lookup_pool(&self, name: &str) -> (r: Option<PoolId>)
        requires
            self.wf(),
        ensures
            r == self@.find_pool(name@),
            r matches Some(p) ==> p.0 < self@.pools.len(),
    {
        proof {
            lemma_pool_index(self@.pools, name@, 0);
        }
        let ghost k = pool_index(self@.pools, name@, 0);
        match self.pool_by_name.get(name) {
            Some(id) => {
                proof {
                    let i = id.0 as int;
                    assert(self@.pools[i].name == name@);
                    if k < i {
                        assert(self@.pools[k].name == name@);
                    }
                }
                Some(*id)
            },
            None => {
                proof {
                    if k < self@.pools.len() {
                        assert(self.pools@[k].name@ == name@);
                    }
                }
                None
            },
        }
    }

    /// Immutable access to a pool.
    pub fn pool(&self, id: PoolId) -> (r: &Pool)
        requires
            id.0 < self@.pools.len(),
        ensures
            r@ == self@.pools[id.0 as int],
    {
        &self.pools[id.0]
    }

    /// Mutable access to a pool. The graph stays well-formed as long as the
    /// name stays.
    pub fn pool_mut(&mut self, id: PoolId) -> (r: &mut Pool)
        requires
            old(self).wf(),
            id.0 < old(self)@.pools.len(),
        ensures
            r@ == old(self)@.pools[id.0 as int],
            final(self)@ == old(self)@.with_pool(id.0 as int, final(r)@),
            final(r)@.name == old(self)@.pools[id.0 as int].name && final(self)@.wf() ==> final(
                self).wf(),
    {
        let ghost s = self@;
        proof {
            let v = self.pools@;
            let i = id.0 as int;
            assert forall|x: Pool| #[trigger] pool_views(v.update(i, x)) == s.pools.update(i, x@) by {
                assert(pool_views(v.update(i, x)) =~= s.pools.update(i, x@));
            }
        }
        &mut self.pools[id.0]
    }

    /// All pools.
    pub fn pools(&self) -> (r: &[Pool])
        ensures
            pool_views(r@) == self@.pools,
            r@.len() == self@.pools.len(),
    {
        self.pools.as_slice()
    }
}

impl State {
    /// Bind `key` to the already-expanded `val` in `scope`.
    pub fn add_binding(&mut self, scope: ScopeId, key: String, val: String)
        requires
            old(self).wf(),
            scope.0 < old(self)@.scopes.scopes.len(),
        ensures
            final(self).wf(),
            final(self)@ == (StateView {
                scopes: old(self)@.scopes.with_value(scope.0 as int, key@, val@),
                ..old(self)@
            }),
    {
        let ghost s = self@;
        self.scopes.add_binding(scope, key, val);
        proof {
            self.scopes.lemma_wf();
            assert(self@.nodes =~= s.nodes);
            assert(self@.edges =~= s.edges);
            assert(self@.pools =~= s.pools);
            lemma_context_grown(s, self@);
        }
    }

    /// Create a child scope of `parent`.
    pub fn new_child_scope(&mut self, parent: ScopeId) -> (r: ScopeId)
        requires
            old(self).wf(),
            parent.0 < old(self)@.scopes.scopes.len(),
        ensures
            final(self).wf(),
            final(self)@ == (StateView {
                scopes: old(self)@.scopes.with_child(parent),
                ..old(self)@
            }),
            r.0 == old(self)@.scopes.scopes.len(),
    {
        let ghost s = self@;
        let r = self.scopes.new_child(parent);
        proof {
            self.scopes.lemma_wf();
            assert(self@.nodes =~= s.nodes);
            assert(self@.edges =~= s.edges);
            assert(self@.pools =~= s.pools);
            lemma_context_grown(s, self@);
        }
        r
    }

    /// Register `rule` in `scope`.
    pub fn add_rule(&mut self, scope: ScopeId, rule: Rule) -> (r: RuleId)
        requires
            old(self).wf(),
            scope.0 < old(self)@.scopes.scopes.len(),
        ensures
            final(self).wf(),
            final(self)@ == (StateView {
                scopes: old(self)@.scopes.with_rule(scope.0 as int, rule@),
                ..old(self)@
            }),
            r.0 == old(self)@.scopes.rules.len(),
    {
        let ghost s = self@;
        let r = self.scopes.add_rule(scope, rule);
        proof {
            self.scopes.lemma_wf();
            assert(self@.nodes =~= s.nodes);
            assert(self@.edges =~= s.edges);
            assert(self@.pools =~= s.pools);
            lemma_context_grown(s, self@);
        }
        r
    }

    /// Reset per-build state so the graph can be re-scanned.
    pub fn reset(&mut self)
        requires
            old(self).wf(),
        ensures
            final(self).wf(),
            final(self)@ == old(self)@.reset(),
    {
        let ghost s = self@;
        let ghost sp = *self;
        let ghost t = s.reset();
        let mut i: usize = 0;
        while i < self.nodes.len()
            invariant
                s == sp@,
                t == s.reset(),
                i <= self.nodes.len(),
                self.nodes@.len() == sp.nodes@.len(),
                self.edges == sp.edges,
                self.node_by_path == sp.node_by_path,
                self.scopes == sp.scopes,
                self.pools == sp.pools,
                self.pool_by_name == sp.pool_by_name,
                self.defaults == sp.defaults,
                forall|k: int| 0 <= k < i ==> (#[trigger] self.nodes@[k])@ == t.nodes[k],
                forall|k: int|
                    i <= k < self.nodes@.len() ==> (#[trigger] self.nodes@[k])@ == s.nodes[k],
            decreases self.nodes.len() - i,
        {
            let n = &mut self.nodes[i];
            n.reset_state();
            i += 1;
        }
        let mut j: usize = 0;
        while j < self.edges.len()
            invariant
                s == sp@,
                t == s.reset(),
                j <= self.edges.len(),
                self.nodes@.len() == sp.nodes@.len(),
                self.edges@.len() == sp.edges@.len(),
                self.node_by_path == sp.node_by_path,
                self.scopes == sp.scopes,
                self.pools == sp.pools,
                self.pool_by_name == sp.pool_by_name,
                self.defaults == sp.defaults,
                forall|k: int|
                    0 <= k < self.nodes@.len() ==> (#[trigger] self.nodes@[k])@ == t.nodes[k],
                forall|k: int| 0 <= k < j ==> (#[trigger] self.edges@[k])@ == t.edges[k],
                forall|k: int|
                    j <= k < self.edges@.len() ==> (#[trigger] self.edges@[k])@ == s.edges[k],
            decreases self.edges.len() - j,
        {
            let e = &mut self.edges[j];
            e.outputs_ready = false;
            e.deps_loaded = false;
            e.mark = VisitMark::Unvisited;
            j += 1;
        }
        let mut p: usize = 0;
        while p < self.pools.len()
            invariant
                s == sp@,
                t == s.reset(),
                p <= self.pools.len(),
                self.nodes@.len() == sp.nodes@.len(),
                self.edges@.len() == sp.edges@.len(),
                self.pools@.len() == sp.pools@.len(),
                self.node_by_path == sp.node_by_path,
                self.scopes == sp.scopes,
                self.pool_by_name == sp.pool_by_name,
                self.defaults == sp.defaults,
                forall|k: int|
                    0 <= k < self.nodes@.len() ==> (#[trigger] self.nodes@[k])@ == t.nodes[k],
                forall|k: int|
                    0 <= k < self.edges@.len() ==> (#[trigger] self.edges@[k])@ == t.edges[k],
                forall|k: int| 0 <= k < p ==> (#[trigger] self.pools@[k])@ == t.pools[k],
                forall|k: int|
                    p <= k < self.pools@.len() ==> (#[trigger] self.pools@[k])@ == s.pools[k],
            decreases self.pools.len() - p,
        {
            let q = &mut self.pools[p];
            q.reset();
            p += 1;
        }
        proof {
            assert(self@.nodes =~= t.nodes);
            assert(self@.edges =~= t.edges);
            assert(self@.pools =~= t.pools);
            lemma_reset_wf(s);
            assert forall|i: int| 0 <= i < self.nodes@.len() implies (
            #[trigger] self.nodes@[i]).path@ == sp.nodes@[i].path@ by {
                assert(self.nodes@[i]@ == t.nodes[i]);
                assert(sp.nodes@[i]@ == s.nodes[i]);
            }
            assert forall|i: int| 0 <= i < self.pools@.len() implies (
            #[trigger] self.pools@[i]).name@ == sp.pools@[i].name@ by {
                assert(self.pools@[i]@ == t.pools[i]);
                assert(sp.pools@[i]@ == s.pools[i]);
            }
            self.lemma_same_paths(&sp);
        }
    }

    /// The node whose path is closest to `path`, for "did you mean" messages.
    pub fn spellcheck_node(&self, path: &str) -> (r: Option<NodeId>)
        ensures
            match r {
                Some(n) => is_suggestion(path_bytes(self@), path.spec_bytes(), n.0 as int),
                None => no_suggestion(path_bytes(self@), path.spec_bytes()),
            },
    {
        let ghost ws = path_bytes(self@);
        let ghost t = path.spec_bytes();
        let mut min_distance: u128 = MAX_VALID_EDIT_DISTANCE as u128 + 1;
        let mut result: Option<NodeId> = None;
        let mut i: usize = 0;
        while i < self.nodes.len()
            invariant
                ws == path_bytes(self@),
                t == path.spec_bytes(),
                i <= self.nodes.len(),
                forall|j: int|
                    0 <= j < i ==> min_distance <= suggestion_distance(#[trigger] ws[j], t),
                match result {
                    Some(n) => {
                        &&& n.0 < i
                        &&& min_distance == suggestion_distance(ws[n.0 as int], t)
                        &&& min_distance <= MAX_VALID_EDIT_DISTANCE
                        &&& forall|j: int|
                            0 <= j < n.0 ==> min_distance < suggestion_distance(
                                #[trigger] ws[j],
                                t,
                            )
                    },
                    None => min_distance == MAX_VALID_EDIT_DISTANCE + 1,
                },
            decreases self.nodes.len() - i,
        {
            let w = self.nodes[i].path();
            let d = wide_distance(w, path, true, MAX_VALID_EDIT_DISTANCE);
            assert(ws[i as int] == w.spec_bytes());
            if d < min_distance {
                min_distance = d;
                result = Some(NodeId(i));
            }
            i += 1;
        }
        result
    }
}

/// The paths of the nodes as bytes.
pub open spec fn path_bytes(s: StateView) -> Seq<Seq<u8>> {
    Seq::new(s.nodes.len(), |i: int| vstd::utf8::encode_utf8(s.nodes[i].path))
}

/// Resetting a graph keeps its invariant.
pub proof fn lemma_reset_wf(s: StateView)
    requires
        s.wf(),
    ensures
        s.reset().wf(),
{
    let t = s.reset();
    assert forall|j: int| 0 <= j < t.nodes.len() implies t.node_ok(#[trigger] t.nodes[j]) by {
        assert(s.node_ok(s.nodes[j]));
    }
    assert forall|j: int| 0 <= j < t.edges.len() implies t.edge_ok(#[trigger] t.edges[j]) by {
        assert(s.edge_ok(s.edges[j]));
    }
    assert forall|j: int| 0 <= j < t.edges.len() implies (#[trigger] t.edges[j]).id == j by {
        assert(s.edges[j].id == j);
    }
    assert forall|i: int, j: int| 0 <= i < j < t.nodes.len() implies (#[trigger] t.nodes[i]).path
        != (#[trigger] t.nodes[j]).path by {
        assert(s.nodes[i].path != s.nodes[j].path);
    }
    assert forall|i: int, j: int| 0 <= i < j < t.pools.len() implies (#[trigger] t.pools[i]).name
        != (#[trigger] t.pools[j]).name by {
        assert(s.pools[i].name != s.pools[j].name);
    }
    assert forall|e: int| 0 <= e < t.edges.len() implies #[trigger] t.outputs_linked(e) by {
        assert(s.outputs_linked(e));
        assert(s.edge_ok(s.edges[e]));
        assert forall|k: int| 0 <= k < t.edges[e].outputs.len() implies t.nodes[(
        #[trigger] t.edges[e].outputs[k]).0 as int].in_edge == Some(EdgeId(e as usize)) by {
            assert(s.nodes[s.edges[e].outputs[k].0 as int].in_edge == Some(EdgeId(e as usize)));
        }
    }
    assert forall|e: int| 0 <= e < t.edges.len() implies #[trigger] t.inputs_linked(e) by {
        assert(s.inputs_linked(e));
        assert(s.edge_ok(s.edges[e]));
        assert forall|k: int| 0 <= k < t.edges[e].inputs.len() implies t.nodes[(
        #[trigger] t.edges[e].inputs[k]).0 as int].out_edges.contains(EdgeId(e as usize)) by {
            assert(s.nodes[s.edges[e].inputs[k].0 as int].out_edges.contains(EdgeId(e as usize)));
        }
    }
    assert forall|n: int| 0 <= n < t.nodes.len() implies #[trigger] t.producer_linked(n) by {
        assert(s.producer_linked(n));
        assert(s.node_ok(s.nodes[n]));
    }
    assert forall|n: int| 0 <= n < t.nodes.len() implies #[trigger] t.consumers_linked(n) by {
        assert(s.consumers_linked(n));
        assert(s.node_ok(s.nodes[n]));
    }
}

/// A path as it stands in `$in` or `$out`.
pub open spec fn spelled(path: Seq<char>, esc: Escape) -> Seq<char> {
    match esc {
        Escape::Shell => shell_word(path),
        Escape::Plain => path,
    }
}

/// The paths of nodes, spelled and separated.
pub open spec fn path_list(s: StateView, ids: Seq<NodeId>, sep: char, esc: Escape) -> Seq<char>
    decreases ids.len(),
{
    if ids.len() == 0 {
        Seq::empty()
    } else {
        let front = path_list(s, ids.drop_last(), sep, esc);
        (if front.len() > 0 {
            front.push(sep)
        } else {
            front
        }) + spelled(s.nodes[ids.last().0 as int].path, esc)
    }
}

/// The first place of a text in a list from the `k`-th on, or the length of the
/// list.
pub open spec fn text_index(v: Seq<Seq<char>>, x: Seq<char>, k: int) -> int
    decreases v.len() - k,
{
    if 0 <= k < v.len() && v[k] != x {
        text_index(v, x, k + 1)
    } else {
        k
    }
}

/// The names from the `k`-th on, each followed by an arrow.
pub open spec fn arrows(v: Seq<Seq<char>>, k: int) -> Seq<char>
    decreases v.len() - k,
{
    if 0 <= k < v.len() {
        v[k] + " -> "@ + arrows(v, k + 1)
    } else {
        Seq::empty()
    }
}

/// The message for a rule variable that refers to itself.
pub open spec fn variable_cycle(stack: Seq<Seq<char>>, var: Seq<char>) -> Seq<char> {
    "cycle in rule variables: "@ + arrows(stack, text_index(stack, var, 0)) + var
}

/// The first of two errors.
pub open spec fn first_error(a: Option<Seq<char>>, b: Option<Seq<char>>) -> Option<Seq<char>> {
    if a is Some {
        a
    } else {
        b
    }
}

/// The names that stand for the paths of an edge.
pub open spec fn is_path_variable(var: Seq<char>) -> bool {
    var == "in"@ || var == "in_newline"@ || var == "out"@
}

/// What a variable stands for in the bindings of an edge: `$in` and `$out` are
/// its paths; a binding of the edge itself comes first, then one of its rule,
/// expanded for the edge, then one of the enclosing scopes. `stack` holds the
/// rule variables being expanded, `guarded` says whether this one is to be
/// looked up there; a variable that is there is a cycle, and stands for
/// nothing. At most `fuel` rule bindings are expanded inside each other.
pub open spec fn edge_value(
    s: StateView,
    e: int,
    esc: Escape,
    var: Seq<char>,
    stack: Seq<Seq<char>>,
    guarded: bool,
    fuel: nat,
) -> (Seq<char>, Option<Seq<char>>)
    decreases fuel, 0nat,
{
    let edge = s.edges[e];
    let own = s.scopes.scopes[edge.scope.0 as int];
    if var == "in"@ {
        (path_list(s, edge.inputs.take(edge.explicit()), ' ', esc), None)
    } else if var == "in_newline"@ {
        (path_list(s, edge.inputs.take(edge.explicit()), '\n', esc), None)
    } else if var == "out"@ {
        (path_list(s, edge.outputs.take(edge.explicit_outs()), ' ', esc), None)
    } else if guarded && text_index(stack, var, 0) < stack.len() {
        (Seq::empty(), Some(variable_cycle(stack, var)))
    } else if own.bindings.contains_key(var) {
        (own.bindings[var], None)
    } else {
        match bound_value(s.rule_of(e).bindings, var) {
            Some(toks) => if fuel == 0 {
                (Seq::empty(), None)
            } else {
                edge_expansion(
                    s,
                    e,
                    esc,
                    toks,
                    if guarded {
                        stack.push(var)
                    } else {
                        stack
                    },
                    (fuel - 1) as nat,
                )
            },
            None => (
                match own.parent {
                    Some(p) => s.scopes.value(p.0 as int, var),
                    None => Seq::empty(),
                },
                None,
            ),
        }
    }
}

/// The text of a string whose variables stand for what they do in the bindings
/// of an edge, and the first cycle among them.
pub open spec fn edge_expansion(
    s: StateView,
    e: int,
    esc: Escape,
    toks: Seq<TokView>,
    stack: Seq<Seq<char>>,
    fuel: nat,
) -> (Seq<char>, Option<Seq<char>>)
    decreases fuel, toks.len() + 1,
{
    if toks.len() == 0 {
        (Seq::empty(), None)
    } else {
        let front = edge_expansion(s, e, esc, toks.drop_last(), stack, fuel);
        match toks.last() {
            TokView::Text(t) => (front.0 + t, front.1),
            TokView::Var(v) => {
                let x = edge_value(s, e, esc, v, stack, true, fuel);
                (front.0 + x.0, first_error(front.1, x.1))
            },
        }
    }
}

impl StateView {
    /// How many rule bindings can be expanded inside each other: each of them
    /// once, and the one that is asked for first once more.
    pub open spec fn expansion_depth(self, e: int) -> nat {
        self.rule_of(e).bindings.len() + 1
    }

    /// What `key` expands to for edge `e`.
    pub open spec fn binding(self, e: int, key: Seq<char>, esc: Escape) -> Seq<char> {
        edge_value(self, e, esc, key, Seq::empty(), false, self.expansion_depth(e)).0
    }

    /// The first cycle among the rule variables that `key` expands to for edge
    /// `e`.
    pub open spec fn binding_error(self, e: int, key: Seq<char>, esc: Escape) -> Option<Seq<char>> {
        edge_value(self, e, esc, key, Seq::empty(), false, self.expansion_depth(e)).1
    }

    /// The text whose hash the build log holds for edge `e`: the command, and
    /// the contents of its response file.
    pub open spec fn hashed_command(self, e: int) -> Seq<char> {
        let command = self.binding(e, "command"@, Escape::Shell);
        let rsp = self.binding(e, "rspfile_content"@, Escape::Shell);
        if rsp.len() > 0 {
            command + ";rspfile="@ + rsp
        } else {
            command
        }
    }

    /// Whether edge `e` leaves its dependents alone when its outputs do not
    /// change.
    pub open spec fn restat(self, e: int) -> bool {
        self.edges[e].dyndep_restat || self.binding(e, "restat"@, Escape::Shell).len() > 0
    }
}

/// An optional string by what it says.
pub open spec fn optional_text(o: Option<String>) -> Option<Seq<char>> {
    match o {
        Some(s) => Some(s@),
        None => None,
    }
}

/// What an [`EdgeEnv`] answers depends on.
pub struct EdgeEnvModel {
    pub state: StateView,
    pub edge: EdgeId,
    pub escape: Escape,
    pub guarded: bool,
    pub error: Option<Seq<char>>,
}

/// An [`Env`] that expands a rule's bindings for one particular edge,
/// providing `$in`, `$out` and the three-level lookup order documented on
/// [`crate::eval`].
pub struct EdgeEnv<'a> {
    state: &'a State,
    edge: EdgeId,
    escape: Escape,
    recursive: bool,
    error: Option<String>,
}

fn make_path_list(state: &State, span: &[NodeId], n: usize, sep: char, escape: Escape) -> (r: String)
    requires
        n <= span@.len(),
        nodes_below(span@, state@.nodes.len()),
    ensures
        r@ == path_list(state@, span@.take(n as int), sep, escape),
{
    let mut result = String::new();
    let mut i: usize = 0;
    while i < n
        invariant
            i <= n <= span@.len(),
            nodes_below(span@, state@.nodes.len()),
            result@ == path_list(state@, span@.take(i as int), sep, escape),
        decreases n - i,
    {
        proof {
            assert(span@.take(i + 1).drop_last() =~= span@.take(i as int));
            assert(span@[i as int].0 < state@.nodes.len());
        }
        if !result.as_str().is_empty() {
            result.push(sep);
        }
        let path = state.node(span[i]).path_decanonicalized();
        match escape {
            Escape::Shell => {
                append_escaped_for_host(path.as_str(), &mut result);
            },
            Escape::Plain => {
                result.append(path.as_str());
            },
        }
        i += 1;
    }
    result
}

fn find_text(v: &Vec<String>, x: &str) -> (k: usize)
    ensures
        k == text_index(texts(v@), x@, 0),
        k <= v.len(),
{
    let mut k: usize = 0;
    while k < v.len() && !str_eq(v[k].as_str(), x)
        invariant
            k <= v.len(),
            text_index(texts(v@), x@, k as int) == text_index(texts(v@), x@, 0),
        decreases v.len() - k,
    {
        k += 1;
    }
    k
}

fn cycle_message(stack: &Vec<String>, var: &str) -> (r: String)
    ensures
        r@ == variable_cycle(texts(stack@), var@),
{
    let ghost t = texts(stack@);
    let from: usize = find_text(stack, var);
    let mut m = String::new();
    m.append("cycle in rule variables: ");
    let mut i: usize = from;
    let ghost want = "cycle in rule variables: "@ + arrows(t, from as int);
    assert(m@ + arrows(t, from as int) =~= want);
    while i < stack.len()
        invariant
            i <= stack.len(),
            t == texts(stack@),
            m@ + arrows(t, i as int) == want,
        decreases stack.len() - i,
    {
        let ghost before = m@;
        m.append(stack[i].as_str());
        m.append(" -> ");
        assert(m@ + arrows(t, i + 1) =~= before + arrows(t, i as int));
        i += 1;
    }
    assert(m@ =~= want);
    m.append(var);
    m
}

fn value_for_edge(
    state: &State,
    edge: EdgeId,
    escape: Escape,
    var: &str,
    stack: &mut Vec<String>,
    guarded: bool,
    fuel: u128,
    error: &mut Option<String>,
) -> (r: String)
    requires
        state.wf(),
        edge.0 < state@.edges.len(),
    ensures
        texts(final(stack)@) == texts(old(stack)@),
        ({
            let v = edge_value(
                state@,
                edge.0 as int,
                escape,
                var@,
                texts(old(stack)@),
                guarded,
                fuel as nat,
            );
            &&& r@ == v.0
            &&& optional_text(*final(error)) == first_error(optional_text(*old(error)), v.1)
        }),
    decreases fuel, 0nat,
{
    proof {
        state.lemma_wf();
        assert(state@.edge_ok(state@.edges[edge.0 as int]));
    }
    let e = state.edge(edge);
    if str_eq(var, "in") || str_eq(var, "in_newline") {
        let sep: char = if str_eq(var, "in") {
            ' '
        } else {
            '\n'
        };
        let total: usize = e.inputs.len();
        let n: usize = if e.implicit_outs <= e.outputs.len() && e.order_only_deps <= total
            && e.implicit_deps <= total - e.order_only_deps {
            total - e.order_only_deps - e.implicit_deps
        } else {
            0
        };
        return make_path_list(state, e.inputs.as_slice(), n, sep, escape);
    }
    if str_eq(var, "out") {
        let n: usize = if e.implicit_outs <= e.outputs.len() {
            e.outputs.len() - e.implicit_outs
        } else {
            0
        };
        return make_path_list(state, e.outputs.as_slice(), n, ' ', escape);
    }
    if guarded {
        let k: usize = find_text(stack, var);
        if k < stack.len() {
            if error.is_none() {
                *error = Some(cycle_message(stack, var));
            }
            return String::new();
        }
    }
    let scopes = state.scopes();
    match scopes.own_binding(e.scope, var) {
        Some(v) => {
            return v;
        },
        None => {},
    }
    match scopes.rule(e.rule).binding(var) {
        Some(eval) => {
            if fuel == 0 {
                return String::new();
            }
            if guarded {
                let ghost before = texts(stack@);
                stack.push(var.to_owned());
                assert(texts(stack@) =~= before.push(var@));
                let r = expand_for_edge(state, edge, escape, eval, stack, fuel - 1, error);
                let ghost full = texts(stack@);
                assert(full.len() == stack@.len());
                stack.pop();
                assert(texts(stack@) =~= full.drop_last());
                assert(texts(stack@) =~= before);
                r
            } else {
                expand_for_edge(state, edge, escape, eval, stack, fuel - 1, error)
            }
        },
        None => match scopes.parent(e.scope) {
            Some(p) => scopes.lookup_variable(p, var),
            None => String::new(),
        },
    }
}

fn expand_for_edge(
    state: &State,
    edge: EdgeId,
    escape: Escape,
    eval: &EvalString,
    stack: &mut Vec<String>,
    fuel: u128,
    error: &mut Option<String>,
) -> (r: String)
    requires
        state.wf(),
        edge.0 < state@.edges.len(),
    ensures
        texts(final(stack)@) == texts(old(stack)@),
        ({
            let v = edge_expansion(
                state@,
                edge.0 as int,
                escape,
                eval@,
                texts(old(stack)@),
                fuel as nat,
            );
            &&& r@ == v.0
            &&& optional_text(*final(error)) == first_error(optional_text(*old(error)), v.1)
        }),
    decreases fuel, eval@.len() + 1,
{
    let ghost st = texts(stack@);
    let ghost e0 = optional_text(*error);
    let mut out = String::new();
    let n: usize = eval.len();
    let mut i: usize = 0;
    assert(eval@.take(0) =~= Seq::<TokView>::empty());
    while i < n
        invariant
            n == eval@.len(),
            i <= n,
            state.wf(),
            edge.0 < state@.edges.len(),
            texts(stack@) == st,
            ({
                let v = edge_expansion(
                    state@,
                    edge.0 as int,
                    escape,
                    eval@.take(i as int),
                    st,
                    fuel as nat,
                );
                &&& out@ == v.0
                &&& optional_text(*error) == first_error(e0, v.1)
            }),
        decreases n - i,
    {
        assert(eval@.take(i + 1).drop_last() =~= eval@.take(i as int));
        match eval.token(i) {
            Tok::Text(t) => {
                out.append(t.as_str());
            },
            Tok::Var(v) => {
                let x = value_for_edge(state, edge, escape, v.as_str(), stack, true, fuel, error);
                out.append(x.as_str());
            },
        }
        i += 1;
    }
    assert(eval@.take(n as int) =~= eval@);
    out
}

impl<'a> EdgeEnv<'a> {
    /// Create an env for `edge`.
    pub fn new(state: &'a State, edge: EdgeId, escape: Escape) -> (r: EdgeEnv<'a>)
        requires
            state.wf(),
            edge.0 < state@.edges.len(),
        ensures
            r.ready(),
            r.model() == (EdgeEnvModel {
                state: state@,
                edge,
                escape,
                guarded: false,
                error: None,
            }),
    {
        EdgeEnv { state, edge, escape, recursive: false, error: None }
    }

    /// Take the recorded error, if a cycle among rule variables was found.
    pub fn take_error(&mut self) -> (r: Option<String>)
        requires
            old(self).ready(),
        ensures
            final(self).ready(),
            optional_text(r) == old(self).model().error,
            final(self).model() == (EdgeEnvModel { error: None, ..old(self).model() }),
    {
        let r = self.error.take();
        r
    }
}

impl<'a> Env for EdgeEnv<'a> {
    type Model = EdgeEnvModel;

    closed spec fn model(&self) -> EdgeEnvModel {
        EdgeEnvModel {
            state: self.state@,
            edge: self.edge,
            escape: self.escape,
            guarded: self.recursive,
            error: optional_text(self.error),
        }
    }

    closed spec fn ready(&self) -> bool {
        self.state.wf() && self.edge.0 < self.state@.edges.len()
    }

    open spec fn value(m: EdgeEnvModel, var: Seq<char>) -> (Seq<char>, EdgeEnvModel) {
        let v = edge_value(
            m.state,
            m.edge.0 as int,
            m.escape,
            var,
            Seq::empty(),
            m.guarded,
            m.state.expansion_depth(m.edge.0 as int),
        );
        (
            v.0,
            EdgeEnvModel {
                guarded: m.guarded || !is_path_variable(var),
                error: first_error(m.error, v.1),
                ..m
            },
        )
    }

    fn lookup(&mut self, var: &str) -> (r: String) {
        let ghost m = self.model();
        let depth: u128 = rule_depth(self.state, self.edge);
        let mut stack: Vec<String> = Vec::new();
        assert(texts(stack@) =~= Seq::empty());
        let mut error = self.error.take();
        let r = value_for_edge(
            self.state,
            self.edge,
            self.escape,
            var,
            &mut stack,
            self.recursive,
            depth,
            &mut error,
        );
        self.error = error;
        if !(str_eq(var, "in") || str_eq(var, "in_newline") || str_eq(var, "out")) {
            self.recursive = true;
        }
        r
    }
}

fn rule_depth(state: &State, edge: EdgeId) -> (r: u128)
    requires
        state.wf(),
        edge.0 < state@.edges.len(),
    ensures
        r == state@.expansion_depth(edge.0 as int),
{
    proof {
        state.lemma_wf();
        assert(state@.edge_ok(state@.edges[edge.0 as int]));
    }
    let rule = state.scopes().rule(state.edge(edge).rule);
    let n: usize = rule.bindings().len();
    n as u128 + 1
}

impl State {
    /// True if `edge` uses the built-in `phony` rule.
    pub fn edge_is_phony(&self, edge: EdgeId) -> (r: bool)
        requires
            edge.0 < self@.edges.len(),
        ensures
            r == (self@.edges[edge.0 as int].rule == phony_rule()),
    {
        self.edge(edge).rule == phony_rule()
    }

    /// True if `edge` runs in the `console` pool.
    pub fn edge_use_console(&self, edge: EdgeId) -> (r: bool)
        requires
            edge.0 < self@.edges.len(),
        ensures
            r == (self@.edges[edge.0 as int].pool == console_pool()),
    {
        self.edge(edge).pool == console_pool()
    }

    /// The [`Rule`] used by `edge`.
    pub fn edge_rule(&self, edge: EdgeId) -> (r: &Rule)
        requires
            self.wf(),
            edge.0 < self@.edges.len(),
        ensures
            r@ == self@.rule_of(edge.0 as int),
    {
        proof {
            assert(self@.edge_ok(self@.edges[edge.0 as int]));
        }
        self.scopes.rule(self.edge(edge).rule)
    }

    /// The rule name of `edge`.
    pub fn edge_rule_name(&self, edge: EdgeId) -> (r: &str)
        requires
            self.wf(),
            edge.0 < self@.edges.len(),
        ensures
            r@ == self@.rule_of(edge.0 as int).name,
    {
        self.edge_rule(edge).name()
    }

    /// The root scope id.
    pub fn root_scope(&self) -> (r: ScopeId)
        ensures
            r == root_scope(),
    {
        root_scope()
    }

    /// A global variable from the root scope (e.g. `builddir`).
    pub fn global_binding(&self, name: &str) -> (r: String)
        requires
            self.wf(),
        ensures
            r@ == self@.scopes.value(0, name@),
    {
        proof {
            self.scopes.lemma_wf();
        }
        self.scopes.lookup_variable(root_scope(), name)
    }

    /// Expand `key` for `edge` with shell escaping (as for a command line).
    pub fn edge_binding(&self, edge: EdgeId, key: &str) -> (r: String)
        requires
            self.wf(),
            edge.0 < self@.edges.len(),
        ensures
            r@ == self@.binding(edge.0 as int, key@, Escape::Shell),
    {
        let mut env = EdgeEnv::new(self, edge, Escape::Shell);
        env.lookup(key)
    }

    /// Expand `key` for `edge` without escaping.
    pub fn edge_binding_unescaped(&self, edge: EdgeId, key: &str) -> (r: String)
        requires
            self.wf(),
            edge.0 < self@.edges.len(),
        ensures
            r@ == self@.binding(edge.0 as int, key@, Escape::Plain),
    {
        let mut env = EdgeEnv::new(self, edge, Escape::Plain);
        env.lookup(key)
    }

    /// True if `key` expands to a non-empty string.
    pub fn edge_binding_bool(&self, edge: EdgeId, key: &str) -> (r: bool)
        requires
            self.wf(),
            edge.0 < self@.edges.len(),
        ensures
            r == (self@.binding(edge.0 as int, key@, Escape::Shell).len() > 0),
    {
        !self.edge_binding(edge, key).as_str().is_empty()
    }

    /// True if `edge` has `restat` behaviour, either from a binding or from a
    /// dyndep file.
    pub fn edge_restat(&self, edge: EdgeId) -> (r: bool)
        requires
            self.wf(),
            edge.0 < self@.edges.len(),
        ensures
            r == self@.restat(edge.0 as int),
    {
        self.edge(edge).dyndep_restat || self.edge_binding_bool(edge, "restat")
    }

    /// True if `edge` is a generator (e.g. the rule that regenerates the
    /// manifest).
    pub fn edge_is_generator(&self, edge: EdgeId) -> (r: bool)
        requires
            self.wf(),
            edge.0 < self@.edges.len(),
        ensures
            r == (self@.binding(edge.0 as int, "generator"@, Escape::Shell).len() > 0),
    {
        self.edge_binding_bool(edge, "generator")
    }

    /// Expand `key`, reporting a cycle among rule variables as an error.
    pub fn edge_binding_checked(&self, edge: EdgeId, key: &str) -> (r: Result<String, String>)
        requires
            self.wf(),
            edge.0 < self@.edges.len(),
        ensures
            match r {
                Ok(v) => self@.binding_error(edge.0 as int, key@, Escape::Shell) is None && v@
                    == self@.binding(edge.0 as int, key@, Escape::Shell),
                Err(m) => self@.binding_error(edge.0 as int, key@, Escape::Shell) == Some(m@),
            },
    {
        let mut env = EdgeEnv::new(self, edge, Escape::Shell);
        let value = env.lookup(key);
        match env.take_error() {
            Some(e) => Err(e),
            None => Ok(value),
        }
    }

    /// The command line for `edge`.
    pub fn edge_command(&self, edge: EdgeId) -> (r: String)
        requires
            self.wf(),
            edge.0 < self@.edges.len(),
        ensures
            r@ == self@.binding(edge.0 as int, "command"@, Escape::Shell),
    {
        self.edge_binding(edge, "command")
    }

    /// The command line for `edge`, reporting rule-variable cycles.
    pub fn edge_command_checked(&self, edge: EdgeId) -> (r: Result<String, String>)
        requires
            self.wf(),
            edge.0 < self@.edges.len(),
        ensures
            match r {
                Ok(v) => self@.binding_error(edge.0 as int, "command"@, Escape::Shell) is None
                    && v@ == self@.binding(edge.0 as int, "command"@, Escape::Shell),
                Err(m) => self@.binding_error(edge.0 as int, "command"@, Escape::Shell) == Some(
                    m@,
                ),
            },
    {
        self.edge_binding_checked(edge, "command")
    }

    /// The string hashed into the build log: the command line plus the
    /// response file contents, if any.
    pub fn edge_command_for_hash(&self, edge: EdgeId) -> (r: String)
        requires
            self.wf(),
            edge.0 < self@.edges.len(),
        ensures
            r@ == self@.hashed_command(edge.0 as int),
    {
        let mut command = self.edge_binding(edge, "command");
        let rspfile_content = self.edge_binding(edge, "rspfile_content");
        if !rspfile_content.as_str().is_empty() {
            command.append(";rspfile=");
            command.append(rspfile_content.as_str());
        }
        command
    }

    /// The `depfile` path for `edge`, unescaped.
    pub fn edge_depfile(&self, edge: EdgeId) -> (r: String)
        requires
            self.wf(),
            edge.0 < self@.edges.len(),
        ensures
            r@ == self@.binding(edge.0 as int, "depfile"@, Escape::Plain),
    {
        self.edge_binding_unescaped(edge, "depfile")
    }

    /// The `dyndep` path for `edge`, unescaped.
    pub fn edge_dyndep_binding(&self, edge: EdgeId) -> (r: String)
        requires
            self.wf(),
            edge.0 < self@.edges.len(),
        ensures
            r@ == self@.binding(edge.0 as int, "dyndep"@, Escape::Plain),
    {
        self.edge_binding_unescaped(edge, "dyndep")
    }

    /// The `rspfile` path for `edge`, unescaped.
    pub fn edge_rspfile(&self, edge: EdgeId) -> (r: String)
        requires
            self.wf(),
            edge.0 < self@.edges.len(),
        ensures
            r@ == self@.binding(edge.0 as int, "rspfile"@, Escape::Plain),
    {
        self.edge_binding_unescaped(edge, "rspfile")
    }

    /// True once every input of `edge` has been produced.
    pub fn all_inputs_ready(&self, edge: EdgeId) -> (r: bool)
        requires
            self.wf(),
            edge.0 < self@.edges.len(),
        ensures
            r == self@.inputs_ready(edge.0 as int),
    {
        let ghost s = self@;
        let inputs = self.edge(edge).inputs();
        proof {
            assert(s.edge_ok(s.edges[edge.0 as int]));
        }
        let mut i: usize = 0;
        while i < inputs.len()
            invariant
                self.wf(),
                s == self@,
                edge.0 < s.edges.len(),
                i <= inputs@.len(),
                inputs@ == s.edges[edge.0 as int].inputs,
                nodes_below(inputs@, s.nodes.len()),
                forall|k: int|
                    0 <= k < i ==> match s.nodes[(
                    #[trigger] s.edges[edge.0 as int].inputs[k]).0 as int].in_edge {
                        Some(e) => s.edges[e.0 as int].outputs_ready,
                        None => true,
                    },
            decreases inputs@.len() - i,
        {
            let n = inputs[i];
            assert(inputs@[i as int].0 < s.nodes.len());
            assert(s.node_ok(s.nodes[n.0 as int]));
            if let Some(e) = self.node(n).in_edge {
                if !self.edge(e).outputs_ready {
                    assert(s.edges[edge.0 as int].inputs[i as int] == n);
                    return false;
                }
            }
            i += 1;
        }
        true
    }

    /// A human-readable dump of an edge, for debugging.
    pub fn format_edge(&self, edge: EdgeId) -> (r: String)
        requires
            self.wf(),
            edge.0 < self@.edges.len(),
        ensures
            r@ == edge_dump(self@, edge.0 as int),
    {
        let ghost st = self@;
        proof {
            assert(st.edge_ok(st.edges[edge.0 as int]));
        }
        let e = self.edge(edge);
        let mut s = String::new();
        s.append("[ ");
        self.push_paths(&mut s, e.inputs.as_slice());
        s.append("--");
        s.append(self.edge_rule_name(edge));
        s.append("-> ");
        self.push_paths(&mut s, e.outputs.as_slice());
        s.push(']');
        assert(s@ =~= edge_dump(self@, edge.0 as int));
        s
    }

    fn push_paths(&self, out: &mut String, ids: &[NodeId])
        requires
            nodes_below(ids@, self@.nodes.len()),
        ensures
            final(out)@ == old(out)@ + paths_dump(self@, ids@),
    {
        let mut i: usize = 0;
        assert(ids@.take(0) =~= Seq::<NodeId>::empty());
        assert(out@ =~= old(out)@ + paths_dump(self@, ids@.take(0)));
        while i < ids.len()
            invariant
                i <= ids@.len(),
                nodes_below(ids@, self@.nodes.len()),
                out@ == old(out)@ + paths_dump(self@, ids@.take(i as int)),
            decreases ids@.len() - i,
        {
            assert(ids@[i as int].0 < self@.nodes.len());
            assert(ids@.take(i + 1).drop_last() =~= ids@.take(i as int));
            out.append(self.node(ids[i]).path());
            out.push(' ');
            assert(out@ =~= old(out)@ + paths_dump(self@, ids@.take(i + 1)));
            i += 1;
        }
        assert(ids@.take(ids@.len() as int) =~= ids@);
    }
}

/// The paths of nodes, each followed by a space.
pub open spec fn paths_dump(s: StateView, ids: Seq<NodeId>) -> Seq<char>
    decreases ids.len(),
{
    if ids.len() == 0 {
        Seq::empty()
    } else {
        paths_dump(s, ids.drop_last()) + s.nodes[ids.last().0 as int].path + seq![' ']
    }
}

/// The dump of an edge: inputs, rule and outputs.
pub open spec fn edge_dump(s: StateView, e: int) -> Seq<char> {
    "[ "@ + paths_dump(s, s.edges[e].inputs) + "--"@ + s.rule_of(e).name + "-> "@ + paths_dump(
        s,
        s.edges[e].outputs,
    ) + seq![']']
}

/// The three levels of lookup: a value bound on the edge hides one bound on
/// the rule, and that hides one bound in an enclosing scope.
pub proof fn law_lookup_order(
    s: StateView,
    e: int,
    esc: Escape,
    var: Seq<char>,
    stack: Seq<Seq<char>>,
    fuel: nat,
)
    requires
        !is_path_variable(var),
        fuel > 0,
    ensures
        ({
            let own = s.scopes.scopes[s.edges[e].scope.0 as int];
            let rule = bound_value(s.rule_of(e).bindings, var);
            let v = edge_value(s, e, esc, var, stack, false, fuel);
            &&& own.bindings.contains_key(var) ==> v == (own.bindings[var], None::<Seq<char>>)
            &&& !own.bindings.contains_key(var) && rule is Some ==> v == edge_expansion(
                s,
                e,
                esc,
                rule->0,
                stack,
                (fuel - 1) as nat,
            )
            &&& !own.bindings.contains_key(var) && rule is None && own.parent is Some ==> v == (
                s.scopes.value((own.parent->0).0 as int, var),
                None::<Seq<char>>,
            )
        }),
{
}

impl State {
    proof fn lemma_edge_flags(&self, other: &State, edge: EdgeId, e: EdgeView)
        requires
            other.wf(),
            edge.0 < other@.edges.len(),
            e.rule == other@.edges[edge.0 as int].rule,
            e.pool == other@.edges[edge.0 as int].pool,
            e.inputs == other@.edges[edge.0 as int].inputs,
            e.outputs == other@.edges[edge.0 as int].outputs,
            e.validations == other@.edges[edge.0 as int].validations,
            e.dyndep == other@.edges[edge.0 as int].dyndep,
            e.scope == other@.edges[edge.0 as int].scope,
            e.id == other@.edges[edge.0 as int].id,
            e.counts_ok(),
            self@ == other@.with_edge(edge.0 as int, e),
            self.nodes == other.nodes,
            self.scopes == other.scopes,
            self.pools == other.pools,
            self.node_by_path == other.node_by_path,
            self.pool_by_name == other.pool_by_name,
        ensures
            self.wf(),
    {
        let s = other@;
        assert(s.edge_ok(s.edges[edge.0 as int]));
        lemma_edge_update(s, edge.0 as int, e);
        self.lemma_same_paths(other);
    }

    proof fn lemma_node_flags(&self, other: &State, node: NodeId, n: NodeView)
        requires
            other.wf(),
            node.0 < other@.nodes.len(),
            n.path == other@.nodes[node.0 as int].path,
            n.in_edge == other@.nodes[node.0 as int].in_edge,
            n.out_edges == other@.nodes[node.0 as int].out_edges,
            n.validation_out_edges == other@.nodes[node.0 as int].validation_out_edges,
            self@ == other@.with_node(node.0 as int, n),
            self.nodes@.len() == other.nodes@.len(),
            self.edges == other.edges,
            self.scopes == other.scopes,
            self.pools == other.pools,
            self.node_by_path == other.node_by_path,
            self.pool_by_name == other.pool_by_name,
        ensures
            self.wf(),
    {
        let s = other@;
        assert(s.node_ok(s.nodes[node.0 as int]));
        lemma_node_update(s, node.0 as int, n);
        assert forall|i: int| 0 <= i < self.nodes@.len() implies (#[trigger] self.nodes@[i]).path@
            == other.nodes@[i].path@ by {
            assert(self@.nodes[i].path == other@.nodes[i].path);
        }
        self.lemma_same_paths(other);
    }

    /// Set how far a traversal has got with `edge`.
    pub fn set_mark(&mut self, edge: EdgeId, v: VisitMark)
        requires
            old(self).wf(),
            edge.0 < old(self)@.edges.len(),
        ensures
            final(self).wf(),
            final(self)@ == old(self)@.with_edge(
                edge.0 as int,
                (EdgeView { mark: v, ..old(self)@.edges[edge.0 as int] }),
            ),
    {
        let ghost sp = *self;
        let e = &mut self.edges[edge.0];
        e.mark = v;
        proof {
            let w = EdgeView { mark: v, ..sp@.edges[edge.0 as int] };
            assert(self@.edges =~= sp@.edges.update(edge.0 as int, w));
            self.lemma_edge_flags(&sp, edge, w);
        }
    }

    /// Set whether the outputs of `edge` are up to date.
    pub fn set_outputs_ready(&mut self, edge: EdgeId, v: bool)
        requires
            old(self).wf(),
            edge.0 < old(self)@.edges.len(),
        ensures
            final(self).wf(),
            final(self)@ == old(self)@.with_edge(
                edge.0 as int,
                (EdgeView { outputs_ready: v, ..old(self)@.edges[edge.0 as int] }),
            ),
    {
        let ghost sp = *self;
        let e = &mut self.edges[edge.0];
        e.outputs_ready = v;
        proof {
            let w = EdgeView { outputs_ready: v, ..sp@.edges[edge.0 as int] };
            assert(self@.edges =~= sp@.edges.update(edge.0 as int, w));
            self.lemma_edge_flags(&sp, edge, w);
        }
    }

    /// Set whether the discovered dependencies of `edge` have been loaded.
    pub fn set_deps_loaded(&mut self, edge: EdgeId, v: bool)
        requires
            old(self).wf(),
            edge.0 < old(self)@.edges.len(),
        ensures
            final(self).wf(),
            final(self)@ == old(self)@.with_edge(
                edge.0 as int,
                (EdgeView { deps_loaded: v, ..old(self)@.edges[edge.0 as int] }),
            ),
    {
        let ghost sp = *self;
        let e = &mut self.edges[edge.0];
        e.deps_loaded = v;
        proof {
            let w = EdgeView { deps_loaded: v, ..sp@.edges[edge.0 as int] };
            assert(self@.edges =~= sp@.edges.update(edge.0 as int, w));
            self.lemma_edge_flags(&sp, edge, w);
        }
    }

    /// Set whether the discovered dependencies of `edge` are missing.
    pub fn set_deps_missing(&mut self, edge: EdgeId, v: bool)
        requires
            old(self).wf(),
            edge.0 < old(self)@.edges.len(),
        ensures
            final(self).wf(),
            final(self)@ == old(self)@.with_edge(
                edge.0 as int,
                (EdgeView { deps_missing: v, ..old(self)@.edges[edge.0 as int] }),
            ),
    {
        let ghost sp = *self;
        let e = &mut self.edges[edge.0];
        e.deps_missing = v;
        proof {
            let w = EdgeView { deps_missing: v, ..sp@.edges[edge.0 as int] };
            assert(self@.edges =~= sp@.edges.update(edge.0 as int, w));
            self.lemma_edge_flags(&sp, edge, w);
        }
    }

    /// Set the scheduling priority of `edge`.
    pub fn set_critical_path_weight(&mut self, edge: EdgeId, v: i64)
        requires
            old(self).wf(),
            edge.0 < old(self)@.edges.len(),
        ensures
            final(self).wf(),
            final(self)@ == old(self)@.with_edge(
                edge.0 as int,
                (EdgeView { critical_path_weight: v, ..old(self)@.edges[edge.0 as int] }),
            ),
    {
        let ghost sp = *self;
        let e = &mut self.edges[edge.0];
        e.critical_path_weight = v;
        proof {
            let w = EdgeView { critical_path_weight: v, ..sp@.edges[edge.0 as int] };
            assert(self@.edges =~= sp@.edges.update(edge.0 as int, w));
            self.lemma_edge_flags(&sp, edge, w);
        }
    }

    /// Set when the command of `edge` started.
    pub fn set_command_start_time(&mut self, edge: EdgeId, v: i64)
        requires
            old(self).wf(),
            edge.0 < old(self)@.edges.len(),
        ensures
            final(self).wf(),
            final(self)@ == old(self)@.with_edge(
                edge.0 as int,
                (EdgeView { command_start_time: v, ..old(self)@.edges[edge.0 as int] }),
            ),
    {
        let ghost sp = *self;
        let e = &mut self.edges[edge.0];
        e.command_start_time = v;
        proof {
            let w = EdgeView { command_start_time: v, ..sp@.edges[edge.0 as int] };
            assert(self@.edges =~= sp@.edges.update(edge.0 as int, w));
            self.lemma_edge_flags(&sp, edge, w);
        }
    }

    /// Set how long the command of `edge` took last time.
    pub fn set_prev_elapsed_time(&mut self, edge: EdgeId, v: i64)
        requires
            old(self).wf(),
            edge.0 < old(self)@.edges.len(),
        ensures
            final(self).wf(),
            final(self)@ == old(self)@.with_edge(
                edge.0 as int,
                (EdgeView { prev_elapsed_time_millis: v, ..old(self)@.edges[edge.0 as int] }),
            ),
    {
        let ghost sp = *self;
        let e = &mut self.edges[edge.0];
        e.prev_elapsed_time_millis = v;
        proof {
            let w = EdgeView { prev_elapsed_time_millis: v, ..sp@.edges[edge.0 as int] };
            assert(self@.edges =~= sp@.edges.update(edge.0 as int, w));
            self.lemma_edge_flags(&sp, edge, w);
        }
    }

    /// Set whether `node` is out of date.
    pub fn set_dirty(&mut self, node: NodeId, v: bool)
        requires
            old(self).wf(),
            node.0 < old(self)@.nodes.len(),
        ensures
            final(self).wf(),
            final(self)@ == old(self)@.with_node(node.0 as int, (NodeView { dirty: v, ..old(self)@.nodes[node.0 as int] })),
    {
        let ghost sp = *self;
        let n = &mut self.nodes[node.0];
        n.dirty = v;
        proof {
            let w = NodeView { dirty: v, ..sp@.nodes[node.0 as int] };
            assert(self@.nodes =~= sp@.nodes.update(node.0 as int, w));
            self.lemma_node_flags(&sp, node, w);
        }
    }

    /// Record the result of a stat() of `node`.
    pub fn record_mtime(&mut self, node: NodeId, mtime: i64)
        requires
            old(self).wf(),
            node.0 < old(self)@.nodes.len(),
        ensures
            final(self).wf(),
            final(self)@ == old(self)@.with_node(node.0 as int, old(self)@.nodes[node.0 as int].stated(mtime)),
    {
        let ghost sp = *self;
        let n = &mut self.nodes[node.0];
        n.set_mtime(mtime);
        proof {
            let w = sp@.nodes[node.0 as int].stated(mtime);
            assert(self@.nodes =~= sp@.nodes.update(node.0 as int, w));
            self.lemma_node_flags(&sp, node, w);
        }
    }

    /// Mark `node` as stat()ed and absent.
    pub fn note_missing(&mut self, node: NodeId)
        requires
            old(self).wf(),
            node.0 < old(self)@.nodes.len(),
        ensures
            final(self).wf(),
            final(self)@ == old(self)@.with_node(node.0 as int, old(self)@.nodes[node.0 as int].missing()),
    {
        let ghost sp = *self;
        let n = &mut self.nodes[node.0];
        n.mark_missing();
        proof {
            let w = sp@.nodes[node.0 as int].missing();
            assert(self@.nodes =~= sp@.nodes.update(node.0 as int, w));
            self.lemma_node_flags(&sp, node, w);
        }
    }

    /// For a phony output: expose the newest mtime of the inputs.
    pub fn raise_phony_mtime(&mut self, node: NodeId, mtime: i64)
        requires
            old(self).wf(),
            node.0 < old(self)@.nodes.len(),
        ensures
            final(self).wf(),
            final(self)@ == old(self)@.with_node(node.0 as int, old(self)@.nodes[node.0 as int].raised(mtime)),
    {
        let ghost sp = *self;
        let n = &mut self.nodes[node.0];
        n.update_phony_mtime(mtime);
        proof {
            let w = sp@.nodes[node.0 as int].raised(mtime);
            assert(self@.nodes =~= sp@.nodes.update(node.0 as int, w));
            self.lemma_node_flags(&sp, node, w);
        }
    }

    /// Count one more edge of the pool as scheduled.
    pub fn take_pool(&mut self, pool: PoolId)
        requires
            old(self).wf(),
            pool.0 < old(self)@.pools.len(),
        ensures
            final(self).wf(),
            final(self)@ == old(self)@.pool_taken(pool),
    {
        let ghost sp = *self;
        let p = &mut self.pools[pool.0];
        if p.depth != 0 {
            p.current_use = p.current_use.wrapping_add(1);
        }
        proof {
            let w = sp@.pool_taken(pool).pools[pool.0 as int];
            assert(self@.pools =~= sp@.pools.update(pool.0 as int, w));
            assert(self@ =~= sp@.pool_taken(pool));
            lemma_pool_update(sp@, pool.0 as int, w);
            assert forall|i: int| 0 <= i < self.pools@.len() implies (#[trigger] self.pools@[i]).name@
                == sp.pools@[i].name@ by {
                assert(self@.pools[i].name == sp@.pools[i].name);
            }
            self.lemma_same_paths(&sp);
        }
    }

    /// Count one edge of the pool less as scheduled.
    pub fn free_pool(&mut self, pool: PoolId)
        requires
            old(self).wf(),
            pool.0 < old(self)@.pools.len(),
        ensures
            final(self).wf(),
            final(self)@ == old(self)@.pool_freed(pool),
    {
        let ghost sp = *self;
        let p = &mut self.pools[pool.0];
        if p.depth != 0 {
            p.current_use = p.current_use.wrapping_sub(1);
        }
        proof {
            let w = sp@.pool_freed(pool).pools[pool.0 as int];
            assert(self@.pools =~= sp@.pools.update(pool.0 as int, w));
            assert(self@ =~= sp@.pool_freed(pool));
            lemma_pool_update(sp@, pool.0 as int, w);
            assert forall|i: int| 0 <= i < self.pools@.len() implies (#[trigger] self.pools@[i]).name@
                == sp.pools@[i].name@ by {
                assert(self@.pools[i].name == sp@.pools[i].name);
            }
            self.lemma_same_paths(&sp);
        }
    }
}

/// Replacing a pool by one with the same name keeps the invariant.
pub proof fn lemma_pool_update(s: StateView, i: int, p: PoolView)
    requires
        s.wf(),
        0 <= i < s.pools.len(),
        p.name == s.pools[i].name,
    ensures
        s.with_pool(i, p).wf(),
{
    let t = s.with_pool(i, p);
    assert forall|j: int| 0 <= j < t.nodes.len() implies t.node_ok(#[trigger] t.nodes[j]) by {
        assert(s.node_ok(s.nodes[j]));
    }
    assert forall|j: int| 0 <= j < t.edges.len() implies t.edge_ok(#[trigger] t.edges[j]) by {
        assert(s.edge_ok(s.edges[j]));
    }
    assert forall|e: int| 0 <= e < t.edges.len() implies #[trigger] t.outputs_linked(e) by {
        assert(s.outputs_linked(e));
    }
    assert forall|e: int| 0 <= e < t.edges.len() implies #[trigger] t.inputs_linked(e) by {
        assert(s.inputs_linked(e));
    }
    assert forall|k: int| 0 <= k < t.nodes.len() implies #[trigger] t.producer_linked(k) by {
        assert(s.producer_linked(k));
    }
    assert forall|k: int| 0 <= k < t.nodes.len() implies #[trigger] t.consumers_linked(k) by {
        assert(s.consumers_linked(k));
        assert(s.node_ok(s.nodes[k]));
    }
}

/// Whether edge `e` has the same bindings, explicit inputs and explicit outputs
/// in two graphs.
pub open spec fn says_same(s: StateView, t: StateView, e: int) -> bool {
    let a = s.edges[e];
    let b = t.edges[e];
    &&& t.scopes == s.scopes
    &&& b.scope == a.scope
    &&& b.rule == a.rule
    &&& b.inputs.take(b.explicit()) == a.inputs.take(a.explicit())
    &&& b.outputs.take(b.explicit_outs()) == a.outputs.take(a.explicit_outs())
    &&& s.nodes.len() <= t.nodes.len()
    &&& forall|i: int| 0 <= i < s.nodes.len() ==> (#[trigger] t.nodes[i]).path == s.nodes[i].path
}

proof fn lemma_same_path_list(s: StateView, t: StateView, ids: Seq<NodeId>, sep: char, esc: Escape)
    requires
        nodes_below(ids, s.nodes.len()),
        forall|i: int|
            0 <= i < s.nodes.len() ==> (#[trigger] t.nodes[i]).path == s.nodes[i].path,
    ensures
        path_list(t, ids, sep, esc) == path_list(s, ids, sep, esc),
    decreases ids.len(),
{
    if ids.len() > 0 {
        assert(ids.last() == ids[ids.len() - 1]);
        assert(t.nodes[ids.last().0 as int].path == s.nodes[ids.last().0 as int].path);
        lemma_same_path_list(s, t, ids.drop_last(), sep, esc);
    }
}

proof fn lemma_same_value(
    s: StateView,
    t: StateView,
    e: int,
    esc: Escape,
    var: Seq<char>,
    stack: Seq<Seq<char>>,
    guarded: bool,
    fuel: nat,
)
    requires
        s.edge_ok(s.edges[e]),
        says_same(s, t, e),
    ensures
        edge_value(t, e, esc, var, stack, guarded, fuel) == edge_value(
            s,
            e,
            esc,
            var,
            stack,
            guarded,
            fuel,
        ),
    decreases fuel, 0nat,
{
    let a = s.edges[e];
    let ins = a.inputs.take(a.explicit());
    let outs = a.outputs.take(a.explicit_outs());
    assert(nodes_below(ins, s.nodes.len()));
    assert(nodes_below(outs, s.nodes.len()));
    lemma_same_path_list(s, t, ins, ' ', esc);
    lemma_same_path_list(s, t, ins, '\n', esc);
    lemma_same_path_list(s, t, outs, ' ', esc);
    if fuel > 0 {
        if let Some(toks) = bound_value(s.rule_of(e).bindings, var) {
            lemma_same_expansion(
                s,
                t,
                e,
                esc,
                toks,
                if guarded {
                    stack.push(var)
                } else {
                    stack
                },
                (fuel - 1) as nat,
            );
        }
    }
}

proof fn lemma_same_expansion(
    s: StateView,
    t: StateView,
    e: int,
    esc: Escape,
    toks: Seq<TokView>,
    stack: Seq<Seq<char>>,
    fuel: nat,
)
    requires
        s.edge_ok(s.edges[e]),
        says_same(s, t, e),
    ensures
        edge_expansion(t, e, esc, toks, stack, fuel) == edge_expansion(s, e, esc, toks, stack, fuel),
    decreases fuel, toks.len() + 1,
{
    if toks.len() > 0 {
        lemma_same_expansion(s, t, e, esc, toks.drop_last(), stack, fuel);
        if let TokView::Var(v) = toks.last() {
            lemma_same_value(s, t, e, esc, v, stack, true, fuel);
        }
    }
}

/// What the bindings of an edge expand to depends on what the manifest says of
/// the edge alone: not on what has been found out about files, on the inputs
/// that were discovered, or on how far the build has come.
pub proof fn law_bindings_are_fixed(s: StateView, t: StateView, e: int, key: Seq<char>, esc: Escape)
    requires
        s.edge_ok(s.edges[e]),
        says_same(s, t, e),
    ensures
        t.binding(e, key, esc) == s.binding(e, key, esc),
        t.binding_error(e, key, esc) == s.binding_error(e, key, esc),
        t.hashed_command(e) == s.hashed_command(e),
{
    let n = s.expansion_depth(e);
    lemma_same_value(s, t, e, esc, key, Seq::empty(), false, n);
    lemma_same_value(s, t, e, Escape::Shell, "command"@, Seq::empty(), false, n);
    lemma_same_value(s, t, e, Escape::Shell, "rspfile_content"@, Seq::empty(), false, n);
}

/// What is hashed tells commands apart that differ, and contents of response files
/// that differ for one command, whether or not one of them is empty.
pub proof fn law_response_files_are_hashed(s: StateView, e: int, t: StateView, f: int)
    ensures
        ({
            let a = s.binding(e, "command"@, Escape::Shell);
            let b = t.binding(f, "command"@, Escape::Shell);
            let x = s.binding(e, "rspfile_content"@, Escape::Shell);
            let y = t.binding(f, "rspfile_content"@, Escape::Shell);
            &&& a == b ==> (s.hashed_command(e) == t.hashed_command(f) <==> x == y)
            &&& x == y ==> (s.hashed_command(e) == t.hashed_command(f) <==> a == b)
            &&& a.is_prefix_of(s.hashed_command(e))
        }),
{
    reveal_strlit(";rspfile=");
    let a = s.binding(e, "command"@, Escape::Shell);
    let b = t.binding(f, "command"@, Escape::Shell);
    let x = s.binding(e, "rspfile_content"@, Escape::Shell);
    let y = t.binding(f, "rspfile_content"@, Escape::Shell);
    let mid = ";rspfile="@;
    let h = s.hashed_command(e);
    let g = t.hashed_command(f);
    if h == g && a == b {
        assert(h.len() == g.len());
        if x.len() > 0 && y.len() > 0 {
            assert(x =~= h.subrange((a.len() + mid.len()) as int, h.len() as int));
            assert(y =~= g.subrange((a.len() + mid.len()) as int, g.len() as int));
        }
        assert(x =~= y);
    }
    if h == g && x == y {
        assert(h.len() == g.len());
        assert(a =~= h.subrange(0, a.len() as int));
        assert(b =~= g.subrange(0, b.len() as int));
    }
}

} // verus!
